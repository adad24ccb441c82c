//! Every packet of a plan is written once, in order, and in time.

use crate::frag::model::{
    any_pending, empty_time_step, flush_due, flushed, fragment_tracks, header_step, mux_wf,
    packet_step, packet_times, with_sample, MuxView,
};
use crate::frag::mux_laws::{law_every_sample_is_kept, law_timeline_has_no_gap, wrote_fragment};
use crate::frag::open::opened;
use crate::frag::run::{total_duration, SampleView};
use crate::frag::track::{
    sample_duration, sample_offset, times_of, MediaTimes, PacketView, TrackSetup, TrackView,
};
use crate::mux_plan::order::{in_order, is_order, is_slot, micros, precedes, Slot};
use crate::mux_plan::plan::{plan_wf, Gap, PlanView};
use crate::mux_plan::steps::{
    after_slot, after_slots, counted, going, lemma_flush_goes_on, lemma_gap_goes_on,
    lemma_going_flushes, lemma_packet_goes_on, lemma_sample_is_counted, lemma_started, lemma_wider,
    plans_fragments, plans_options, started,
};
use crate::mux_plan::tracks::{packet_plan_wf, track_plan_wf, TrackPlanView, MOST_PACKETS};
use crate::options::{FragmentedOptions, Mp4MuxerOptions};
use vstd::prelude::*;

verus! {

// ---------------------------------------------------------------------
// What goes into fragments
// ---------------------------------------------------------------------

/// A sample as a reader finds it.
#[verifier::ext_equal]
pub struct Stamp {
    /// Its data.
    pub data: Seq<u8>,
    /// When it is decoded: the decode time of its fragment, and the durations
    /// of the samples before it in the run.
    pub time: int,
    /// How far presentation is from decoding.
    pub offset: i32,
}

/// Samples of a run whose fragment starts at decode time `start`.
pub open spec fn stamped(s: Seq<SampleView>, start: int) -> Seq<Stamp> {
    Seq::new(
        s.len(),
        |k: int|
            Stamp {
                data: s[k].data,
                time: start + total_duration(s.take(k)),
                offset: s[k].composition_time_offset,
            },
    )
}

/// The pending samples of a track, as its next fragment would hold them.
pub open spec fn waiting(t: TrackView) -> Seq<Stamp> {
    stamped(t.pending, t.next_bmdt as int)
}

/// The decode time that a track has reached.
pub open spec fn reached(t: TrackView) -> int {
    t.next_bmdt + total_duration(t.pending)
}

/// The samples of track `i` that a fragment takes, where one is written.
pub open spec fn fragment_stamps(m: MuxView, hold: bool, i: int) -> Seq<Stamp> {
    if any_pending(fragment_tracks(m, hold)) {
        waiting(fragment_tracks(m, hold)[i])
    } else {
        Seq::empty()
    }
}

/// The samples of track `i` that go into the fragment that a packet brings
/// on, if it does.
pub open spec fn packet_stamps(
    m: MuxView,
    idx: int,
    data: Seq<u8>,
    keyframe: bool,
    times: MediaTimes,
    i: int,
) -> Seq<Stamp> {
    let next = with_sample(m, idx, data, keyframe, times, None);
    if flush_due(next, idx, keyframe) {
        fragment_stamps(next, true, i)
    } else {
        Seq::empty()
    }
}

/// How long the empty time behind a packet is.
pub open spec fn gap_behind(gap: Option<Gap>, s: Slot) -> u32 {
    match gap {
        Some(g) => if g.track == s.track && g.after == s.packet {
            g.duration
        } else {
            0
        },
        None => 0,
    }
}

/// The samples of track `i` that go into fragments when one packet is
/// written, with the empty time behind it.
#[verifier::opaque]
pub open spec fn slot_stamps(
    tracks: Seq<TrackPlanView>,
    gap: Option<Gap>,
    s: Slot,
    m: MuxView,
    out: Seq<u8>,
    i: int,
) -> Seq<Stamp> {
    let p = tracks[s.track as int].packets[s.packet as int];
    let times = packet_times(m, p);
    let step = packet_step(
        m,
        p.stream_index as usize,
        p.data,
        p.keyframe,
        times,
        None,
        out.len() as u64,
    );
    packet_stamps(m, p.stream_index as int, p.data, p.keyframe, times, i) + if gap_behind(gap, s)
        > 0 {
        fragment_stamps(step.after, false, i)
    } else {
        Seq::empty()
    }
}

/// The samples of track `i` that go into fragments when packets are written.
pub open spec fn slots_stamps(
    tracks: Seq<TrackPlanView>,
    gap: Option<Gap>,
    order: Seq<Slot>,
    m: MuxView,
    out: Seq<u8>,
    i: int,
) -> Seq<Stamp>
    decreases order.len(),
{
    if order.len() == 0 {
        Seq::empty()
    } else {
        let (m1, out1) = after_slots(tracks, gap, order.drop_last(), m, out);
        slots_stamps(tracks, gap, order.drop_last(), m, out, i) + slot_stamps(
            tracks,
            gap,
            order.last(),
            m1,
            out1,
            i,
        )
    }
}

/// The samples of track `i` in all fragments of a plan's file.
pub open spec fn file_stamps(
    setups: Seq<TrackSetup>,
    p: PlanView,
    o: Mp4MuxerOptions,
    f: FragmentedOptions,
    order: Seq<Slot>,
    i: int,
) -> Seq<Stamp> {
    let gap = p.frag->0.gap;
    let head = header_step(opened(setups, o, f)->Ok_0).out;
    let start = started(setups, p.frag->0, o, f);
    let (m, out) = after_slots(p.tracks, gap, order, start, head);
    slots_stamps(p.tracks, gap, order, start, head, i) + fragment_stamps(m, false, i)
}

/// The data of track `i` in all fragments of a plan's file.
pub open spec fn file_data(
    setups: Seq<TrackSetup>,
    p: PlanView,
    o: Mp4MuxerOptions,
    f: FragmentedOptions,
    order: Seq<Slot>,
    i: int,
) -> Seq<Seq<u8>> {
    let stamps = file_stamps(setups, p, o, f, order, i);
    Seq::new(stamps.len(), |k: int| stamps[k].data)
}

/// The durations of two runs add up.
proof fn lemma_total_of_both(a: Seq<SampleView>, b: Seq<SampleView>)
    ensures
        total_duration(a + b) == total_duration(a) + total_duration(b),
    decreases b.len(),
{
    if b.len() == 0 {
        assert(a + b =~= a);
    } else {
        assert((a + b).drop_last() =~= a + b.drop_last());
        lemma_total_of_both(a, b.drop_last());
    }
}

/// Samples that a run takes over from another stand at the same times, if
/// it starts where the other one ends.
proof fn lemma_stamps_split(a: Seq<SampleView>, b: Seq<SampleView>, start: int)
    ensures
        stamped(a + b, start) == stamped(a, start) + stamped(b, start + total_duration(a)),
{
    let whole = stamped(a + b, start);
    let parts = stamped(a, start) + stamped(b, start + total_duration(a));
    assert forall|k: int| 0 <= k < whole.len() implies whole[k] == parts[k] by {
        if k < a.len() {
            assert((a + b).take(k) =~= a.take(k));
        } else {
            assert((a + b).take(k) =~= a + b.take(k - a.len()));
            lemma_total_of_both(a, b.take(k - a.len()));
        }
    }
    assert(whole =~= parts);
}

/// A fragment takes samples from the front of what is pending, and none of
/// them moves in time.
proof fn lemma_flush_stamps(
    m: MuxView,
    hold: bool,
    position: u64,
    i: int,
    n: nat,
    q: int,
    c: int,
    b: int,
)
    requires
        mux_wf(m),
        going(m, n, q, c, b),
        0 <= q <= 1_000,
        0 <= c <= 1_000,
        0 <= b <= 1_000,
        0 <= i < n,
    ensures
        ({
            let after = flushed(m, hold, position).after.tracks[i];
            &&& fragment_stamps(m, hold, i) + waiting(after) == waiting(m.tracks[i])
            &&& reached(after) == reached(m.tracks[i])
            &&& after.time_scale == m.tracks[i].time_scale
        }),
{
    lemma_flush_goes_on(m, hold, position, n, q, c, b);
    let after = flushed(m, hold, position).after.tracks[i];
    if any_pending(fragment_tracks(m, hold)) {
        assert(wrote_fragment(m, hold, position));
        lemma_going_flushes(m, hold, n, q, c, b);
        law_every_sample_is_kept(m, hold, position, i);
        law_timeline_has_no_gap(m, hold, position, i);
        let taken = fragment_tracks(m, hold)[i];
        assert(taken.pending + after.pending == m.tracks[i].pending);
        lemma_stamps_split(taken.pending, after.pending, taken.next_bmdt as int);
    } else {
        assert(Seq::<Stamp>::empty() + waiting(m.tracks[i]) =~= waiting(m.tracks[i]));
    }
}

/// What a last fragment leaves of track `i`: nothing.
proof fn lemma_last_stamps(m: MuxView, i: int)
    requires
        mux_wf(m),
        0 <= i < m.tracks.len(),
    ensures
        fragment_stamps(m, false, i) == waiting(m.tracks[i]),
{
    assert(fragment_tracks(m, false) == m.tracks);
    if !any_pending(m.tracks) {
        assert(m.tracks[i].pending.len() == 0);
        assert(waiting(m.tracks[i]) =~= Seq::<Stamp>::empty());
    }
}

/// A packet as a sample that is decoded at `time`, where it is one of the
/// track.
pub open spec fn stamp_if(here: bool, data: Seq<u8>, time: int, times: MediaTimes) -> Seq<Stamp> {
    if here {
        seq![Stamp { data, time, offset: sample_offset(times) }]
    } else {
        Seq::empty()
    }
}

/// A packet is queued behind what is pending on its track.
proof fn lemma_next_stamps(
    m: MuxView,
    idx: int,
    data: Seq<u8>,
    keyframe: bool,
    times: MediaTimes,
    i: int,
)
    requires
        0 <= idx < m.tracks.len(),
        0 <= i < m.tracks.len(),
    ensures
        ({
            let before = m.tracks[i];
            let after = with_sample(m, idx, data, keyframe, times, None).tracks[i];
            &&& waiting(after) == waiting(before) + stamp_if(
                idx == i,
                data,
                reached(before),
                times,
            )
            &&& reached(after) == reached(before) + if idx == i {
                sample_duration(before.prev_pts, times) as int
            } else {
                0
            }
            &&& after.time_scale == before.time_scale
        }),
{
    let before = m.tracks[i];
    let after = with_sample(m, idx, data, keyframe, times, None).tracks[i];
    if idx == i {
        let s = after.pending.last();
        assert(after.pending.drop_last() =~= before.pending);
        assert(after.pending =~= before.pending + seq![s]);
        lemma_stamps_split(before.pending, seq![s], before.next_bmdt as int);
        assert(seq![s].take(0) =~= Seq::<SampleView>::empty());
        assert(stamped(seq![s], reached(before)) =~= stamp_if(true, data, reached(before), times));
    } else {
        assert(waiting(after) =~= waiting(before) + Seq::<Stamp>::empty());
    }
}

/// A packet joins what is pending, and a fragment takes from the front of
/// it.
proof fn lemma_packet_stamps(
    m: MuxView,
    idx: usize,
    data: Seq<u8>,
    keyframe: bool,
    times: MediaTimes,
    position: u64,
    i: int,
    n: nat,
    k: int,
)
    requires
        mux_wf(m),
        going(m, n, 3 * k, k, 2 * k),
        0 <= k < 100,
        idx < n,
        0 <= i < n,
    ensures
        ({
            let before = m.tracks[i];
            let after = packet_step(
                m,
                idx,
                data,
                keyframe,
                times,
                None,
                position,
            ).after.tracks[i];
            &&& packet_stamps(m, idx as int, data, keyframe, times, i) + waiting(after) == waiting(
                before,
            ) + stamp_if(idx == i, data, reached(before), times)
            &&& reached(after) == reached(before) + if idx == i {
                sample_duration(before.prev_pts, times) as int
            } else {
                0
            }
            &&& after.time_scale == before.time_scale
        }),
{
    let next = with_sample(m, idx as int, data, keyframe, times, None);
    lemma_packet_goes_on(m, idx, data, keyframe, times, position, n, 3 * k, k, 2 * k);
    lemma_next_stamps(m, idx as int, data, keyframe, times, i);
    if flush_due(next, idx as int, keyframe) {
        lemma_sample_is_counted(m, idx as int, data, keyframe, times, n, 3 * k, k, 2 * k);
        lemma_flush_stamps(next, true, position, i, n, 3 * k, k + 1, 2 * k + 1);
    } else {
        assert(Seq::<Stamp>::empty() + waiting(next.tracks[i]) =~= waiting(next.tracks[i]));
    }
}

/// Empty time takes all that is pending, and moves its track on.
proof fn lemma_gap_stamps(
    m: MuxView,
    idx: usize,
    duration: u32,
    position: u64,
    i: int,
    n: nat,
    q: int,
    c: int,
    b: int,
)
    requires
        mux_wf(m),
        going(m, n, q, c, b),
        idx < n,
        duration > 0,
        0 <= q < 999,
        0 <= c < 1_000,
        0 <= b < 1_000,
        0 <= i < n,
    ensures
        ({
            let after = empty_time_step(m, idx, duration, position).after.tracks[i];
            &&& fragment_stamps(m, false, i) + waiting(after) == waiting(m.tracks[i])
            &&& reached(after) == reached(m.tracks[i]) + if idx == i {
                duration as int
            } else {
                0
            }
            &&& after.time_scale == m.tracks[i].time_scale
        }),
{
    lemma_gap_goes_on(m, idx, duration, position, n, q, c, b);
    lemma_flush_goes_on(m, false, position, n, q, c, b);
    lemma_flush_stamps(m, false, position, i, n, q, c, b);
    lemma_last_stamps(m, i);
    let first = flushed(m, false, position).after.tracks[i];
    let after = empty_time_step(m, idx, duration, position).after.tracks[i];
    assert(counted(first, c, b)) by {
        assert(going(flushed(m, false, position).after, n, q + 1, c, b));
    }
    assert(waiting(first).len() == 0);
    assert(after.pending == first.pending);
    assert(waiting(after) =~= waiting(first));
}

/// How long a packet of a plan lasts on a clock of `rate` ticks per second.
pub open spec fn packet_ticks(p: PacketView, rate: u32) -> int {
    sample_duration(None, times_of(p, rate)) as int
}

/// One packet adds its sample to its track, at the time that the track has
/// reached, and takes none away.
proof fn lemma_slot_stamps(
    tracks: Seq<TrackPlanView>,
    gap: Option<Gap>,
    s: Slot,
    m: MuxView,
    out: Seq<u8>,
    i: int,
    k: int,
)
    requires
        forall|j: int| 0 <= j < tracks.len() ==> track_plan_wf(#[trigger] tracks[j], j),
        gap matches Some(g) ==> g.track == 0 && g.duration > 0,
        is_slot(tracks, s),
        mux_wf(m),
        going(m, tracks.len(), 3 * k, k, 2 * k),
        0 <= k < 100,
        0 <= i < tracks.len(),
    ensures
        mux_wf(after_slot(tracks, gap, s, m, out).0),
        going(after_slot(tracks, gap, s, m, out).0, tracks.len(), 3 * k + 3, k + 1, 2 * k + 2),
        ({
            let p = tracks[s.track as int].packets[s.packet as int];
            let before = m.tracks[i];
            let after = after_slot(tracks, gap, s, m, out).0.tracks[i];
            &&& slot_stamps(tracks, gap, s, m, out, i) + waiting(after) == waiting(before)
                + stamp_if(
                s.track == i,
                p.data,
                reached(before),
                times_of(p, before.time_scale),
            )
            &&& reached(after) == reached(before) + if s.track == i {
                packet_ticks(p, before.time_scale) + gap_behind(gap, s)
            } else {
                0
            }
            &&& after.time_scale == before.time_scale
        }),
{
    reveal(slot_stamps);
    reveal(after_slot);
    let n = tracks.len();
    let p = tracks[s.track as int].packets[s.packet as int];
    assert(track_plan_wf(tracks[s.track as int], s.track as int));
    assert(packet_plan_wf(p, s.track as int));
    let idx = p.stream_index as usize;
    let times = packet_times(m, p);
    let position = out.len() as u64;
    let step = packet_step(m, idx, p.data, p.keyframe, times, None, position);
    lemma_packet_goes_on(m, idx, p.data, p.keyframe, times, position, n, 3 * k, k, 2 * k);
    lemma_packet_stamps(m, idx, p.data, p.keyframe, times, position, i, n, k);
    let first = packet_stamps(m, idx as int, p.data, p.keyframe, times, i);
    let at = (out + step.out).len() as u64;
    if gap is Some && gap->0.track == s.track && gap->0.after == s.packet {
        let g = gap->0;
        lemma_gap_goes_on(
            step.after,
            g.track,
            g.duration,
            at,
            n,
            3 * k + 1,
            k + 1,
            2 * k + 1,
        );
        lemma_gap_stamps(
            step.after,
            g.track,
            g.duration,
            at,
            i,
            n,
            3 * k + 1,
            k + 1,
            2 * k + 1,
        );
        let second = fragment_stamps(step.after, false, i);
        let left = waiting(
            empty_time_step(step.after, g.track, g.duration, at).after.tracks[i],
        );
        assert((first + second) + left =~= first + (second + left));
    } else {
        lemma_wider(step.after, n, 3 * k + 1, k + 1, 2 * k + 1);
        assert(first + Seq::<Stamp>::empty() =~= first);
    }
}

/// When packet `k` of track `i` is due on a clock of `rate` ticks per
/// second: behind the packets before it, and the empty time among them.
pub open spec fn due(t: TrackPlanView, gap: Option<Gap>, i: int, rate: u32, k: int) -> int
    decreases k,
{
    if k <= 0 {
        0
    } else {
        due(t, gap, i, rate, k - 1) + packet_ticks(t.packets[k - 1], rate) + gap_behind(
            gap,
            Slot { track: i as usize, packet: (k - 1) as usize },
        )
    }
}

/// The samples that the first `n` packets of track `i` should become.
pub open spec fn due_stamps(
    t: TrackPlanView,
    gap: Option<Gap>,
    i: int,
    rate: u32,
    n: nat,
) -> Seq<Stamp> {
    Seq::new(
        n,
        |k: int|
            Stamp {
                data: t.packets[k].data,
                time: due(t, gap, i, rate, k),
                offset: sample_offset(times_of(t.packets[k], rate)),
            },
    )
}

// ---------------------------------------------------------------------
// The order of one track
// ---------------------------------------------------------------------

/// The packets of track `i` among `order`, by number.
pub open spec fn numbers(order: Seq<Slot>, i: int) -> Seq<int>
    decreases order.len(),
{
    if order.len() == 0 {
        Seq::empty()
    } else {
        let before = numbers(order.drop_last(), i);
        if order.last().track == i {
            before.push(order.last().packet as int)
        } else {
            before
        }
    }
}

/// A later packet of a track is not presented earlier.
proof fn lemma_micros_grow(tracks: Seq<TrackPlanView>, a: Slot, b: Slot)
    requires
        is_slot(tracks, a),
        is_slot(tracks, b),
        a.track == b.track,
        a.packet <= b.packet,
        track_plan_wf(tracks[a.track as int], a.track as int),
    ensures
        micros(tracks, a) <= micros(tracks, b),
{
    let t = tracks[a.track as int];
    let x = t.packets[a.packet as int].pts->0;
    let y = t.packets[b.packet as int].pts->0;
    let d = t.ticks_per_sec as int;
    assert(x <= y);
    assert(x * 1_000_000 / d <= y * 1_000_000 / d) by (nonlinear_arith)
        requires
            x <= y,
            d > 0,
    ;
}

/// The numbers of a track grow, and they are those of its packets.
proof fn lemma_numbers(tracks: Seq<TrackPlanView>, order: Seq<Slot>, i: int)
    requires
        in_order(tracks, order),
        forall|k: int| 0 <= k < order.len() ==> is_slot(tracks, #[trigger] order[k]),
        0 <= i < tracks.len(),
        track_plan_wf(tracks[i], i),
    ensures
        forall|a: int, b: int|
            0 <= a < b < numbers(order, i).len() ==> numbers(order, i)[a] < numbers(order, i)[b],
        forall|a: int|
            0 <= a < numbers(order, i).len() ==> 0 <= #[trigger] numbers(order, i)[a]
                < tracks[i].packets.len() && order.contains(
                Slot { track: i as usize, packet: numbers(order, i)[a] as usize },
            ),
        forall|k: int|
            0 <= k < order.len() && (#[trigger] order[k]).track == i ==> numbers(
                order,
                i,
            ).contains(order[k].packet as int),
    decreases order.len(),
{
    if order.len() > 0 {
        let init = order.drop_last();
        let last = order.last();
        let before = numbers(init, i);
        let all = numbers(order, i);
        assert forall|k: int| 0 <= k < init.len() implies is_slot(tracks, #[trigger] init[k]) by {
            assert(init[k] == order[k]);
        }
        assert(in_order(tracks, init)) by {
            assert forall|a: int, b: int| 0 <= a < b < init.len() implies precedes(
                tracks,
                #[trigger] init[a],
                #[trigger] init[b],
            ) by {
                assert(init[a] == order[a] && init[b] == order[b]);
            }
        }
        lemma_numbers(tracks, init, i);
        assert(is_slot(tracks, order[order.len() - 1]));
        assert forall|a: int| 0 <= a < before.len() implies order.contains(
            Slot { track: i as usize, packet: #[trigger] before[a] as usize },
        ) && (last.track == i ==> before[a] < last.packet) by {
            let x = Slot { track: i as usize, packet: before[a] as usize };
            assert(init.contains(x));
            let k = choose|k: int| 0 <= k < init.len() && init[k] == x;
            assert(order[k] == x);
            assert(precedes(tracks, order[k], order[order.len() - 1]));
            if last.track == i && before[a] >= last.packet {
                lemma_micros_grow(tracks, last, x);
            }
        }
        assert forall|a: int| 0 <= a < all.len() implies 0 <= #[trigger] all[a]
            < tracks[i].packets.len() && order.contains(
            Slot { track: i as usize, packet: all[a] as usize },
        ) by {
            if a < before.len() {
                assert(all[a] == before[a]);
            } else {
                assert(order[order.len() - 1] == last);
                assert(last == (Slot { track: i as usize, packet: all[a] as usize }));
            }
        }
        assert forall|a: int, b: int| 0 <= a < b < all.len() implies all[a] < all[b] by {
            assert(all[a] == before[a]);
            if b < before.len() {
                assert(all[b] == before[b]);
            }
        }
        assert forall|k: int| 0 <= k < order.len() && (
        #[trigger] order[k]).track == i implies all.contains(order[k].packet as int) by {
            if k < init.len() {
                assert(init[k] == order[k]);
                assert(before.contains(order[k].packet as int));
                let a = choose|a: int|
                    0 <= a < before.len() && before[a] == order[k].packet as int;
                assert(all[a] == order[k].packet as int);
            } else {
                assert(all[all.len() - 1] == order[k].packet as int);
            }
        }
    }
}

/// Growing numbers below `n` that leave none out are those up to `n`.
proof fn lemma_all_numbers(s: Seq<int>, n: int, k: int)
    requires
        forall|a: int, b: int| 0 <= a < b < s.len() ==> s[a] < s[b],
        forall|a: int| 0 <= a < s.len() ==> 0 <= #[trigger] s[a] < n,
        forall|x: int| 0 <= x < n ==> #[trigger] s.contains(x),
        0 <= k <= n,
    ensures
        k <= s.len(),
        forall|a: int| 0 <= a < k ==> s[a] == a,
        k == n ==> s.len() == n,
    decreases k,
{
    if k > 0 {
        lemma_all_numbers(s, n, k - 1);
        let x = k - 1;
        assert(s.contains(x));
        let t = choose|t: int| 0 <= t < s.len() && s[t] == x;
        if t < x {
            assert(s[t] == t);
        } else if t > x {
            assert(s[x] < s[t]);
            if x > 0 {
                assert(s[x - 1] < s[x]);
            }
        }
    }
    if k == n && s.len() > n {
        if n > 0 {
            assert(s[n - 1] < s[n]);
        }
        assert(s[n] < n);
    }
}

/// The packets of a track come in order, and all of them.
proof fn lemma_track_in_order(tracks: Seq<TrackPlanView>, order: Seq<Slot>, i: int)
    requires
        is_order(tracks, order),
        0 <= i < tracks.len() <= 2,
        track_plan_wf(tracks[i], i),
    ensures
        numbers(order, i).len() == tracks[i].packets.len(),
        forall|a: int| 0 <= a < numbers(order, i).len() ==> numbers(order, i)[a] == a,
{
    let n = tracks[i].packets.len() as int;
    let nums = numbers(order, i);
    assert forall|k: int| 0 <= k < order.len() implies is_slot(tracks, #[trigger] order[k]) by {
        assert(order.contains(order[k]));
    }
    lemma_numbers(tracks, order, i);
    assert forall|x: int| 0 <= x < n implies #[trigger] nums.contains(x) by {
        let s = Slot { track: i as usize, packet: x as usize };
        assert(is_slot(tracks, s));
        assert(order.contains(s));
        let k = choose|k: int| 0 <= k < order.len() && order[k] == s;
        assert(nums.contains(order[k].packet as int));
    }
    lemma_all_numbers(nums, n, n);
}

/// Every packet is one of the first or of the second track.
proof fn lemma_two_tracks(order: Seq<Slot>)
    requires
        forall|k: int| 0 <= k < order.len() ==> (#[trigger] order[k]).track < 2,
    ensures
        order.len() == numbers(order, 0).len() + numbers(order, 1).len(),
    decreases order.len(),
{
    if order.len() > 0 {
        let init = order.drop_last();
        assert forall|k: int| 0 <= k < init.len() implies (#[trigger] init[k]).track < 2 by {
            assert(init[k] == order[k]);
        }
        lemma_two_tracks(init);
        assert(order[order.len() - 1].track < 2);
    }
}

/// Without a second track none of its packets is there.
proof fn lemma_no_numbers(order: Seq<Slot>, i: int)
    requires
        forall|k: int| 0 <= k < order.len() ==> (#[trigger] order[k]).track != i,
    ensures
        numbers(order, i).len() == 0,
    decreases order.len(),
{
    if order.len() > 0 {
        let init = order.drop_last();
        assert forall|k: int| 0 <= k < init.len() implies (#[trigger] init[k]).track != i by {
            assert(init[k] == order[k]);
        }
        lemma_no_numbers(init, i);
        assert(order[order.len() - 1].track != i);
    }
}

/// A plan has few packets.
proof fn lemma_order_is_short(p: PlanView, order: Seq<Slot>)
    requires
        plan_wf(p),
        is_order(p.tracks, order),
    ensures
        order.len() <= 2 * MOST_PACKETS,
{
    assert forall|k: int| 0 <= k < order.len() implies is_slot(p.tracks, #[trigger] order[k]) by {
        assert(order.contains(order[k]));
    }
    assert forall|k: int| 0 <= k < order.len() implies (#[trigger] order[k]).track < 2 by {
        assert(is_slot(p.tracks, order[k]));
    }
    lemma_two_tracks(order);
    assert(track_plan_wf(p.tracks[0], 0));
    lemma_track_in_order(p.tracks, order, 0);
    if p.tracks.len() == 2 {
        assert(track_plan_wf(p.tracks[1], 1));
        lemma_track_in_order(p.tracks, order, 1);
    } else {
        assert forall|k: int| 0 <= k < order.len() implies (#[trigger] order[k]).track != 1 by {
            assert(is_slot(p.tracks, order[k]));
        }
        lemma_no_numbers(order, 1);
    }
}

// ---------------------------------------------------------------------
// The whole file
// ---------------------------------------------------------------------

/// Samples that were pending come before those that are new, whichever of
/// them went into a fragment.
proof fn lemma_stamps_chain(
    before: Seq<Stamp>,
    here: Seq<Stamp>,
    left: Seq<Stamp>,
    held: Seq<Stamp>,
    new: Seq<Stamp>,
)
    requires
        here + left == held + new,
    ensures
        (before + here) + left == (before + held) + new,
{
    assert((before + here) + left =~= before + (here + left));
    assert(before + (held + new) =~= (before + held) + new);
}

/// One packet more is one sample more.
proof fn lemma_due_stamps_grow(t: TrackPlanView, gap: Option<Gap>, i: int, rate: u32, c: nat)
    ensures
        due_stamps(t, gap, i, rate, c + 1) == due_stamps(t, gap, i, rate, c) + stamp_if(
            true,
            t.packets[c as int].data,
            due(t, gap, i, rate, c as int),
            times_of(t.packets[c as int], rate),
        ),
{
    assert(due_stamps(t, gap, i, rate, c + 1) =~= due_stamps(t, gap, i, rate, c) + stamp_if(
        true,
        t.packets[c as int].data,
        due(t, gap, i, rate, c as int),
        times_of(t.packets[c as int], rate),
    ));
}

/// After some packets, what went into fragments and what is pending are
/// their samples, each when it is due.
proof fn lemma_slots_stamps(
    tracks: Seq<TrackPlanView>,
    gap: Option<Gap>,
    order: Seq<Slot>,
    m: MuxView,
    out: Seq<u8>,
    i: int,
)
    requires
        forall|j: int| 0 <= j < tracks.len() ==> track_plan_wf(#[trigger] tracks[j], j),
        gap matches Some(g) ==> g.track == 0 && g.duration > 0,
        forall|k: int| 0 <= k < order.len() ==> is_slot(tracks, #[trigger] order[k]),
        forall|a: int| 0 <= a < numbers(order, i).len() ==> numbers(order, i)[a] == a,
        order.len() < 100,
        mux_wf(m),
        going(m, tracks.len(), 0, 0, 0),
        0 <= i < tracks.len(),
        m.tracks[i].pending.len() == 0,
        m.tracks[i].next_bmdt == 0,
    ensures
        ({
            let after = after_slots(tracks, gap, order, m, out).0;
            let k = order.len() as int;
            let n = numbers(order, i).len();
            let rate = m.tracks[i].time_scale;
            &&& mux_wf(after)
            &&& going(after, tracks.len(), 3 * k, k, 2 * k)
            &&& slots_stamps(tracks, gap, order, m, out, i) + waiting(after.tracks[i])
                == due_stamps(tracks[i], gap, i, rate, n)
            &&& reached(after.tracks[i]) == due(tracks[i], gap, i, rate, n as int)
            &&& after.tracks[i].time_scale == rate
        }),
    decreases order.len(),
{
    let rate = m.tracks[i].time_scale;
    let n = numbers(order, i).len();
    if order.len() == 0 {
        assert(slots_stamps(tracks, gap, order, m, out, i) + waiting(m.tracks[i]) =~= due_stamps(
            tracks[i],
            gap,
            i,
            rate,
            n,
        ));
    } else {
        let init = order.drop_last();
        let s = order.last();
        assert forall|k: int| 0 <= k < init.len() implies is_slot(tracks, #[trigger] init[k]) by {
            assert(init[k] == order[k]);
        }
        assert(is_slot(tracks, order[order.len() - 1]));
        assert forall|a: int| 0 <= a < numbers(init, i).len() implies numbers(init, i)[a] == a by {
            assert(numbers(order, i)[a] == numbers(init, i)[a]);
        }
        lemma_slots_stamps(tracks, gap, init, m, out, i);
        let (m1, out1) = after_slots(tracks, gap, init, m, out);
        lemma_slot_stamps(tracks, gap, s, m1, out1, i, init.len() as int);
        let before = slots_stamps(tracks, gap, init, m, out, i);
        let here = slot_stamps(tracks, gap, s, m1, out1, i);
        let after = after_slot(tracks, gap, s, m1, out1).0;
        let held = waiting(m1.tracks[i]);
        let left = waiting(after.tracks[i]);
        let p = tracks[s.track as int].packets[s.packet as int];
        let new = stamp_if(s.track == i, p.data, reached(m1.tracks[i]), times_of(p, rate));
        lemma_stamps_chain(before, here, left, held, new);
        if s.track == i {
            let c = (n - 1) as nat;
            assert(numbers(order, i)[c as int] == s.packet);
            assert(s == (Slot { track: i as usize, packet: c as usize }));
            lemma_due_stamps_grow(tracks[i], gap, i, rate, c);
        } else {
            assert((before + held) + new =~= before + held);
        }
    }
}

/// The samples of the file of a plan are, for each track, its packets: every
/// packet once, in order, and nothing else. Each is decoded when the packets
/// before it, and the empty time among them, are over.
pub proof fn law_plan_writes_each_packet_in_time(
    setups: Seq<TrackSetup>,
    p: PlanView,
    o: Mp4MuxerOptions,
    f: FragmentedOptions,
    order: Seq<Slot>,
    i: int,
)
    requires
        plan_wf(p),
        p.frag is Some,
        plans_options(p, o),
        plans_fragments(p.frag->0, f),
        setups.len() == p.tracks.len(),
        is_order(p.tracks, order),
        0 <= i < p.tracks.len(),
    ensures
        file_stamps(setups, p, o, f, order, i) == due_stamps(
            p.tracks[i],
            p.frag->0.gap,
            i,
            setups[i].media_time_scale,
            p.tracks[i].packets.len(),
        ),
{
    let gap = p.frag->0.gap;
    let head = header_step(opened(setups, o, f)->Ok_0).out;
    let start = started(setups, p.frag->0, o, f);
    lemma_started(setups, p, o, f);
    lemma_order_is_short(p, order);
    assert forall|k: int| 0 <= k < order.len() implies is_slot(p.tracks, #[trigger] order[k]) by {
        assert(order.contains(order[k]));
    }
    assert(track_plan_wf(p.tracks[i], i));
    lemma_track_in_order(p.tracks, order, i);
    lemma_slots_stamps(p.tracks, gap, order, start, head, i);
    let m = after_slots(p.tracks, gap, order, start, head).0;
    lemma_last_stamps(m, i);
}

/// The file of a plan holds, for each track, the data of its packets: every
/// packet once, in order, and nothing else.
pub proof fn law_plan_writes_each_packet_once(
    setups: Seq<TrackSetup>,
    p: PlanView,
    o: Mp4MuxerOptions,
    f: FragmentedOptions,
    order: Seq<Slot>,
    i: int,
)
    requires
        plan_wf(p),
        p.frag is Some,
        plans_options(p, o),
        plans_fragments(p.frag->0, f),
        setups.len() == p.tracks.len(),
        is_order(p.tracks, order),
        0 <= i < p.tracks.len(),
    ensures
        file_data(setups, p, o, f, order, i) == Seq::new(
            p.tracks[i].packets.len(),
            |k: int| p.tracks[i].packets[k].data,
        ),
{
    law_plan_writes_each_packet_in_time(setups, p, o, f, order, i);
    assert(file_data(setups, p, o, f, order, i) =~= Seq::new(
        p.tracks[i].packets.len(),
        |k: int| p.tracks[i].packets[k].data,
    ));
}

} // verus!
