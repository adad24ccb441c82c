//! The order in which the packets of a plan are written.

use crate::mux_plan::tracks::{
    packet_plan_wf, plan_views, track_plan_wf, TrackPlan, TrackPlanView, MOST_PACKETS,
};
use vstd::prelude::*;

verus! {

/// A packet of a plan, by its track and its number there.
#[derive(Clone, Copy, Debug, PartialEq, Eq)]
pub struct Slot {
    /// The track.
    pub track: usize,
    /// The packet of the track.
    pub packet: usize,
}

/// There is such a packet.
pub open spec fn is_slot(t: Seq<TrackPlanView>, s: Slot) -> bool {
    s.track < t.len() && s.packet < t[s.track as int].packets.len()
}

/// When a packet is presented, in microseconds.
pub open spec fn micros(t: Seq<TrackPlanView>, s: Slot) -> int {
    let track = t[s.track as int];
    track.packets[s.packet as int].pts->0 * 1_000_000 / (track.ticks_per_sec as int)
}

/// A packet is written before another: it is presented earlier, or at the
/// same time on an earlier track, or earlier on the same track.
pub open spec fn precedes(t: Seq<TrackPlanView>, a: Slot, b: Slot) -> bool {
    ||| micros(t, a) < micros(t, b)
    ||| micros(t, a) == micros(t, b) && a.track < b.track
    ||| micros(t, a) == micros(t, b) && a.track == b.track && a.packet < b.packet
}

/// Each packet comes before those behind it.
pub open spec fn in_order(t: Seq<TrackPlanView>, o: Seq<Slot>) -> bool {
    forall|i: int, j: int| 0 <= i < j < o.len() ==> precedes(t, #[trigger] o[i], #[trigger] o[j])
}

/// The order in which the packets are written: all of them, each before
/// those that it precedes.
pub open spec fn is_order(t: Seq<TrackPlanView>, o: Seq<Slot>) -> bool {
    &&& in_order(t, o)
    &&& forall|s: Slot| #[trigger] o.contains(s) <==> is_slot(t, s)
}

/// There is only one such order.
pub proof fn law_order_is_unique(t: Seq<TrackPlanView>, a: Seq<Slot>, b: Seq<Slot>)
    requires
        is_order(t, a),
        is_order(t, b),
    ensures
        a == b,
{
    lemma_same_prefix(t, a, b, a.len() as int);
    lemma_same_prefix(t, b, a, b.len() as int);
    assert(a =~= b);
}

/// The first `n` packets of one order are there in the other, in place.
proof fn lemma_same_prefix(t: Seq<TrackPlanView>, a: Seq<Slot>, b: Seq<Slot>, n: int)
    requires
        is_order(t, a),
        is_order(t, b),
        0 <= n <= a.len(),
    ensures
        n <= b.len(),
        forall|i: int| 0 <= i < n ==> a[i] == b[i],
    decreases n,
{
    if n > 0 {
        lemma_same_prefix(t, a, b, n - 1);
        let k = n - 1;
        let x = a[k];
        assert(a.contains(x));
        assert(b.contains(x));
        let j = choose|j: int| 0 <= j < b.len() && b[j] == x;
        if j < k {
            assert(a[j] == x);
            assert(precedes(t, a[j], a[k]));
        } else if j > k {
            let y = b[k];
            assert(b.contains(y));
            assert(a.contains(y));
            let i = choose|i: int| 0 <= i < a.len() && a[i] == y;
            assert(precedes(t, b[k], b[j]));
            if i < k {
                assert(b[i] == y);
                assert(precedes(t, b[i], b[k]));
            } else if i > k {
                assert(precedes(t, a[k], a[i]));
            }
        }
    }
}

/// The packets before packet `packet` of track `track`, in plain order.
pub open spec fn listed(t: Seq<TrackPlanView>, s: Slot, track: int, packet: int) -> bool {
    is_slot(t, s) && (s.track < track || s.track == track && s.packet < packet)
}

/// When a packet is presented, in microseconds.
fn slot_micros(tracks: &Vec<TrackPlan>, s: Slot) -> (r: i64)
    requires
        is_slot(plan_views(tracks@), s),
        forall|i: int|
            0 <= i < tracks@.len() ==> track_plan_wf(#[trigger] plan_views(tracks@)[i], i),
    ensures
        r == micros(plan_views(tracks@), s),
{
    let ghost v = plan_views(tracks@);
    assert(track_plan_wf(v[s.track as int], s.track as int));
    assert(packet_plan_wf(v[s.track as int].packets[s.packet as int], s.track as int));
    let track: &TrackPlan = &tracks[s.track];
    assert(v[s.track as int] == track@);
    let pts: i64 = match track.packets[s.packet].pts {
        Some(p) => p,
        None => 0,
    };
    assert(pts == v[s.track as int].packets[s.packet as int].pts->0);
    pts * 1_000_000 / track.ticks_per_sec
}

/// Put a packet in its place among packets that are in order.
fn insert_slot(tracks: &Vec<TrackPlan>, order: &mut Vec<Slot>, s: Slot)
    requires
        is_slot(plan_views(tracks@), s),
        forall|i: int|
            0 <= i < tracks@.len() ==> track_plan_wf(#[trigger] plan_views(tracks@)[i], i),
        in_order(plan_views(tracks@), old(order)@),
        forall|x: Slot| #[trigger]
            old(order)@.contains(x) <==> listed(
                plan_views(tracks@),
                x,
                s.track as int,
                s.packet as int,
            ),
    ensures
        final(order)@.len() == old(order)@.len() + 1,
        in_order(plan_views(tracks@), final(order)@),
        forall|x: Slot| #[trigger]
            final(order)@.contains(x) <==> listed(
                plan_views(tracks@),
                x,
                s.track as int,
                s.packet + 1,
            ),
{
    let ghost v = plan_views(tracks@);
    let ghost before = order@;
    let at: i64 = slot_micros(tracks, s);
    let mut p: usize = order.len();
    while p > 0
        invariant
            p <= order.len(),
            order@ == before,
            v == plan_views(tracks@),
            is_slot(v, s),
            forall|i: int|
                0 <= i < tracks@.len() ==> track_plan_wf(#[trigger] plan_views(tracks@)[i], i),
            in_order(v, before),
            at == micros(v, s),
            forall|x: Slot| #[trigger]
                before.contains(x) <==> listed(v, x, s.track as int, s.packet as int),
            forall|j: int| p <= j < before.len() ==> precedes(v, s, #[trigger] before[j]),
        ensures
            p <= order.len(),
            order@ == before,
            forall|j: int| p <= j < before.len() ==> precedes(v, s, #[trigger] before[j]),
            p > 0 ==> micros(v, before[p - 1]) <= at,
        decreases p,
    {
        assert(before.contains(before[p - 1]));
        let m: i64 = slot_micros(tracks, order[p - 1]);
        if m <= at {
            break ;
        }
        p = p - 1;
    }
    order.insert(p, s);
    proof {
        let after = order@;
        assert(after == before.insert(p as int, s));
        assert forall|i: int, j: int| 0 <= i < j < after.len() implies precedes(
            v,
            #[trigger] after[i],
            #[trigger] after[j],
        ) by {
            if j == p {
                let x = before[i];
                assert(after[i] == x);
                assert(before.contains(x));
                if i < p - 1 {
                    assert(precedes(v, before[i], before[p - 1]));
                }
                assert(micros(v, x) <= at);
            } else if i == p {
                assert(after[j] == before[j - 1]);
            } else {
                let a = if i < p {
                    i
                } else {
                    i - 1
                };
                let b = if j < p {
                    j
                } else {
                    j - 1
                };
                assert(after[i] == before[a]);
                assert(after[j] == before[b]);
            }
        }
        assert forall|x: Slot| #[trigger] after.contains(x) <==> listed(
            v,
            x,
            s.track as int,
            s.packet + 1,
        ) by {
            if after.contains(x) {
                let i = choose|i: int| 0 <= i < after.len() && after[i] == x;
                if i < p {
                    assert(before[i] == x);
                    assert(before.contains(x));
                } else if i > p {
                    assert(before[i - 1] == x);
                    assert(before.contains(x));
                }
            }
            if listed(v, x, s.track as int, s.packet + 1) {
                if x == s {
                    assert(after[p as int] == x);
                } else {
                    assert(x.track == s.track ==> x.packet != s.packet);
                    assert(before.contains(x));
                    let i = choose|i: int| 0 <= i < before.len() && before[i] == x;
                    if i < p {
                        assert(after[i] == x);
                    } else {
                        assert(after[i + 1] == x);
                    }
                }
            }
        }
    }
}

/// The order in which the packets of tracks are written.
pub fn write_order(tracks: &Vec<TrackPlan>) -> (r: Vec<Slot>)
    requires
        forall|i: int|
            0 <= i < tracks@.len() ==> track_plan_wf(#[trigger] plan_views(tracks@)[i], i),
    ensures
        is_order(plan_views(tracks@), r@),
        r@.len() <= MOST_PACKETS * tracks@.len(),
{
    let ghost v = plan_views(tracks@);
    let mut order: Vec<Slot> = Vec::new();
    let mut track: usize = 0;
    while track < tracks.len()
        invariant
            track <= tracks.len(),
            order@.len() <= MOST_PACKETS * track,
            v == plan_views(tracks@),
            forall|i: int|
                0 <= i < tracks@.len() ==> track_plan_wf(#[trigger] plan_views(tracks@)[i], i),
            in_order(v, order@),
            forall|x: Slot| #[trigger] order@.contains(x) <==> listed(v, x, track as int, 0),
        decreases tracks.len() - track,
    {
        let n: usize = tracks[track].packets.len();
        assert(v[track as int].packets.len() == n);
        assert(track_plan_wf(v[track as int], track as int));
        let mut packet: usize = 0;
        while packet < n
            invariant
                track < tracks.len(),
                packet <= n <= MOST_PACKETS,
                order@.len() <= MOST_PACKETS * track + packet,
                v == plan_views(tracks@),
                v[track as int].packets.len() == n,
                forall|i: int|
                    0 <= i < tracks@.len() ==> track_plan_wf(#[trigger] plan_views(tracks@)[i], i),
                in_order(v, order@),
                forall|x: Slot| #[trigger]
                    order@.contains(x) <==> listed(v, x, track as int, packet as int),
            decreases n - packet,
        {
            insert_slot(tracks, &mut order, Slot { track, packet });
            packet = packet + 1;
        }
        track = track + 1;
    }
    order
}

} // verus!
