//! What becomes of a packet, and when a fragment is written.

use crate::cenc::types::{SeigView, SencSampleView};
use crate::frag::model::{
    any_pending, flushed, fragment_tracks, holds_back, mux_wf, packet_refusal, packet_step,
    with_sample, MuxView, Step,
};
use crate::frag::run::{is_sync, total_duration, SampleView};
use crate::frag::track::{cut32, queued, times_of, wrap32, MediaTimes, PacketView, TrackView};
use crate::options::FragmentCadence;
use crate::time::{rescaled, TimeBase};
use vstd::prelude::*;

verus! {

// ---------------------------------------------------------------------
// Times
// ---------------------------------------------------------------------

/// Two numbers with the same low 32 bits.
pub open spec fn same_low32(a: int, b: int) -> bool {
    (a - b) % 0x1_0000_0000 == 0
}

/// A number of ticks is turned into the nearest number of ticks of the other
/// clock: half a tick away from the exact time at most, and away from 0
/// where two are equally near.
pub proof fn law_rescaled_is_nearest(ticks: i64, base: TimeBase, rate: u32)
    requires
        base.num > 0,
        base.den > 0,
        i64::MIN < rescaled(ticks, base, rate) < i64::MAX,
    ensures
        ({
            let exact = ticks * base.num * rate;
            let there = rescaled(ticks, base, rate) * base.den;
            &&& ticks >= 0 ==> 2 * exact - base.den < 2 * there <= 2 * exact + base.den
            &&& ticks <= 0 ==> 2 * exact - base.den <= 2 * there < 2 * exact + base.den
        }),
{
    let exact = ticks * base.num * rate;
    let size = if exact < 0 {
        -exact
    } else {
        exact
    };
    let d = base.den as int;
    let q = (2 * size + d) / (2 * d);
    assert((ticks >= 0 ==> exact >= 0) && (ticks <= 0 ==> exact <= 0)) by (nonlinear_arith)
        requires
            exact == ticks * base.num * rate,
            base.num > 0,
            rate >= 0,
    ;
    assert(2 * size - d < 2 * (q * d) && 2 * (q * d) <= 2 * size + d) by (nonlinear_arith)
        requires
            q == (2 * size + d) / (2 * d),
            d > 0,
    ;
    assert((-q) * d == -(q * d)) by (nonlinear_arith);
    if exact == 0 {
        assert(q == 0) by (nonlinear_arith)
            requires
                q == (2 * size + d) / (2 * d),
                size == 0,
                d > 0,
        ;
        assert(rescaled(ticks, base, rate) == 0);
    }
}

/// Each time of a packet is turned into a time on the media clock by itself:
/// presentation, decoding and duration do not mix, and none is made up.
pub proof fn law_media_times(p: PacketView, rate: u32)
    ensures
        ({
            let m = times_of(p, rate);
            &&& match p.pts {
                Some(t) => m.pts == Some(rescaled(t, p.time_base, rate)),
                None => m.pts is None,
            }
            &&& match p.dts {
                Some(t) => m.dts == Some(rescaled(t, p.time_base, rate)),
                None => m.dts is None,
            }
            &&& match p.duration {
                Some(t) => m.duration == Some(rescaled(t, p.time_base, rate)),
                None => m.duration is None,
            }
        }),
{
}

/// The sample of a packet with these data and times, behind one that is
/// presented at `prev`. Its decode time plus its offset is its presentation
/// time. It lasts as long as the packet says, or from the one before to it.
pub open spec fn is_sample_of(
    s: SampleView,
    data: Seq<u8>,
    keyframe: bool,
    times: MediaTimes,
    prev: Option<i64>,
) -> bool {
    &&& s.data == data
    &&& s.flags == if keyframe {
        0x0200_0000u32
    } else {
        0x0001_0000u32
    }
    &&& match (times.pts, times.dts) {
        (Some(p), Some(d)) => {
            &&& i32::MIN <= p - d <= i32::MAX ==> d + s.composition_time_offset == p
            &&& same_low32(d + s.composition_time_offset, p as int)
        },
        _ => s.composition_time_offset == 0,
    }
    &&& match times.duration {
        Some(d) => {
            &&& 0 < d <= u32::MAX ==> s.duration == d
            &&& d > 0 ==> same_low32(s.duration as int, d as int)
            &&& d <= 0 ==> s.duration == 1
        },
        None => match (prev, times.pts) {
            (Some(p), Some(c)) => {
                &&& 0 < c - p <= u32::MAX ==> p + s.duration == c
                &&& c > p ==> s.duration >= 1 && (s.duration == 1 || same_low32(
                    p + s.duration,
                    c as int,
                ))
                &&& c <= p ==> s.duration == 1
            },
            _ => s.duration == 1,
        },
    }
}

/// What a packet that is accepted does to its track: its sample is the last
/// pending one, with its encryption entry and override, the track has
/// counted it and remembers when it is presented, and of its first sample
/// ever also how it was. All that was pending and written stays as it was.
pub open spec fn took_sample(
    before: TrackView,
    after: TrackView,
    data: Seq<u8>,
    keyframe: bool,
    times: MediaTimes,
    aux: Option<(SencSampleView, Option<SeigView>)>,
) -> bool {
    let s = after.pending.last();
    &&& after.pending == before.pending.push(s)
    &&& is_sample_of(s, data, keyframe, times, before.prev_pts)
    &&& match aux {
        Some((senc, seig)) => after.senc == before.senc.push(senc) && after.seig
            == before.seig.push(seig),
        None => after.senc == before.senc && after.seig == before.seig,
    }
    &&& before.cumulative + s.duration <= u64::MAX ==> after.cumulative == before.cumulative
        + s.duration
    &&& before.packets_total < u64::MAX ==> after.packets_total == before.packets_total + 1
    &&& match times.pts {
        Some(p) => after.prev_pts == Some(p),
        None => match before.prev_pts {
            Some(p) => p + s.duration <= i64::MAX ==> after.prev_pts == Some((p + s.duration) as i64),
            None => after.prev_pts == Some(s.duration as i64),
        },
    }
    &&& match before.first_pts {
        Some(p) => after.first_pts == Some(p),
        None => after.first_pts == match times.pts {
            Some(p) => Some(p),
            None => Some(0i64),
        },
    }
    &&& after.trex.locked
    &&& before.trex.locked ==> after.trex == before.trex
    &&& !before.trex.locked ==> after.trex.duration == s.duration && after.trex.size == data.len()
        % 0x1_0000_0000 && after.trex.flags == s.flags
    &&& after.track_id == before.track_id
    &&& after.time_scale == before.time_scale
    &&& after.protection == before.protection
    &&& after.next_bmdt == before.next_bmdt
    &&& after.tfra == before.tfra
}

proof fn lemma_queued(
    t: TrackView,
    data: Seq<u8>,
    keyframe: bool,
    times: MediaTimes,
    aux: Option<(SencSampleView, Option<SeigView>)>,
)
    ensures
        took_sample(t, queued(t, data, keyframe, times, aux), data, keyframe, times, aux),
{
    let after = queued(t, data, keyframe, times, aux);
    let s = after.pending.last();
    assert(after.pending =~= t.pending.push(s));
    match (times.pts, times.dts) {
        (Some(p), Some(d)) => {
            lemma_wrap32(p - d);
        },
        _ => {},
    }
}

proof fn lemma_wrap32(x: int)
    ensures
        same_low32(wrap32(x) as int, x),
        i32::MIN <= x <= i32::MAX ==> wrap32(x) == x,
{
}

/// A packet that is accepted becomes the last pending sample of its track,
/// and nothing else changes, until the cadence brings on a fragment.
pub proof fn law_packet_is_queued(
    m: MuxView,
    idx: usize,
    data: Seq<u8>,
    keyframe: bool,
    times: MediaTimes,
    aux: Option<(SencSampleView, Option<SeigView>)>,
    position: u64,
)
    requires
        packet_refusal(
            m,
            idx,
            data.len(),
            match aux {
                Some((s, _seig)) => Some(s),
                None => None,
            },
        ) is None,
    ensures
        ({
            let next = with_sample(m, idx as int, data, keyframe, times, aux);
            let step = packet_step(m, idx, data, keyframe, times, aux, position);
            &&& next.tracks.len() == m.tracks.len()
            &&& took_sample(
                m.tracks[idx as int],
                next.tracks[idx as int],
                data,
                keyframe,
                times,
                aux,
            )
            &&& forall|i: int|
                0 <= i < m.tracks.len() && i != idx ==> next.tracks[i] == #[trigger] m.tracks[i]
            &&& next == (MuxView { tracks: next.tracks, ..m })
            &&& left_as(step, next) || step == flushed(next, true, position)
        }),
{
    lemma_queued(m.tracks[idx as int], data, keyframe, times, aux);
}

/// Without durations of their own, a sample lasts from the presentation of
/// the one before to its own.
pub proof fn law_duration_between_presentations(
    t: TrackView,
    first: MediaTimes,
    second: MediaTimes,
    p: i64,
    c: i64,
)
    requires
        first.pts == Some(p),
        second.pts == Some(c),
        second.duration is None,
        0 < c - p <= u32::MAX,
    ensures
        ({
            let one = queued(t, Seq::empty(), true, first, None);
            let two = queued(one, Seq::empty(), true, second, None);
            p + two.pending.last().duration == c
        }),
{
}

/// Durations add up.
pub proof fn law_durations_add_up(s: Seq<SampleView>, t: Seq<SampleView>)
    ensures
        total_duration(s + t) == total_duration(s) + total_duration(t),
        total_duration(Seq::<SampleView>::empty()) == 0,
        t.len() == 1 ==> total_duration(t) == t[0].duration,
    decreases t.len(),
{
    if t.len() == 0 {
        assert(s + t =~= s);
    } else {
        law_durations_add_up(s, t.drop_last());
        assert((s + t).drop_last() =~= s + t.drop_last());
        if t.len() == 1 {
            assert(t.drop_last() =~= Seq::<SampleView>::empty());
        }
    }
}

// ---------------------------------------------------------------------
// Cadence
// ---------------------------------------------------------------------

/// A step that appends nothing and leaves the state as `next`.
pub open spec fn left_as(step: Step, next: MuxView) -> bool {
    step.after == next && step.out.len() == 0 && step.result is Ok
}

/// A step that wrote one fragment, with all pending samples of all tracks
/// but the first, which has `left` samples left.
pub open spec fn wrote_all_but(m: MuxView, step: Step, left: Seq<SampleView>) -> bool {
    &&& step.out.len() > 0
    &&& step.after.sequence == m.sequence + 1
    &&& step.after.tracks.len() == m.tracks.len()
    &&& step.after.tracks[0].pending == left
    &&& forall|i: int|
        0 < i < m.tracks.len() ==> (#[trigger] step.after.tracks[i]).pending.len() == 0
}

proof fn lemma_flush_takes_all(m: MuxView, position: u64)
    requires
        m.tracks.len() > 0,
        m.sequence < u32::MAX,
        m.tracks[0].pending.len() > 0,
        m.frag.cadence !is EveryKeyframe,
        flushed(m, true, position).result is Ok,
    ensures
        wrote_all_but(m, flushed(m, true, position), Seq::empty()),
{
    let t = fragment_tracks(m, true);
    assert(!holds_back(m));
    assert(t == m.tracks);
    assert(t[0].pending.len() > 0);
    assert(any_pending(t));
    let step = flushed(m, true, position);
    assert(step.after.tracks[0].pending =~= Seq::empty());
}

proof fn lemma_flush_keeps_keyframe(m: MuxView, position: u64)
    requires
        m.tracks.len() > 0,
        m.sequence < u32::MAX,
        m.tracks[0].pending.len() > 1,
        is_sync(m.tracks[0].pending.last().flags),
        m.frag.cadence is EveryKeyframe,
        flushed(m, true, position).result is Ok,
    ensures
        wrote_all_but(m, flushed(m, true, position), seq![m.tracks[0].pending.last()]),
{
    let t = fragment_tracks(m, true);
    assert(holds_back(m));
    assert(t[0].pending.len() > 0);
    assert(any_pending(t));
    let step = flushed(m, true, position);
    assert(step.after.tracks[0].pending =~= seq![m.tracks[0].pending.last()]);
}

/// Under a cadence of `n` ticks a fragment is written by a packet of any
/// track, keyframe or not, if and only if it leaves the first track with
/// pending samples that last `n` ticks or more. The fragment takes them all,
/// so what the first track has pending after a packet lasts less than that.
pub proof fn law_time_cadence(
    m: MuxView,
    n: u64,
    idx: usize,
    data: Seq<u8>,
    keyframe: bool,
    times: MediaTimes,
    aux: Option<(SencSampleView, Option<SeigView>)>,
    position: u64,
)
    requires
        mux_wf(m),
        m.sequence < u32::MAX,
        m.frag.cadence == FragmentCadence::EverySeconds(Some(n)),
        packet_step(m, idx, data, keyframe, times, aux, position).result is Ok,
    ensures
        ({
            let next = with_sample(m, idx as int, data, keyframe, times, aux);
            let step = packet_step(m, idx, data, keyframe, times, aux, position);
            let first = next.tracks[0].pending;
            let after = step.after.tracks[0].pending;
            &&& after.len() == 0 || total_duration(after) < n
            &&& total_duration(first) < n ==> left_as(step, next)
            &&& first.len() == 0 ==> left_as(step, next)
            &&& first.len() > 0 && total_duration(first) >= n ==> wrote_all_but(
                m,
                step,
                Seq::empty(),
            )
        }),
{
    let next = with_sample(m, idx as int, data, keyframe, times, aux);
    if next.tracks[0].pending.len() > 0 && total_duration(next.tracks[0].pending) >= n {
        lemma_flush_takes_all(next, position);
    }
}

/// Without a number of ticks no packet brings on a fragment.
pub proof fn law_no_cadence(
    m: MuxView,
    idx: usize,
    data: Seq<u8>,
    keyframe: bool,
    times: MediaTimes,
    aux: Option<(SencSampleView, Option<SeigView>)>,
    position: u64,
)
    requires
        m.frag.cadence == FragmentCadence::EverySeconds(None) || m.frag.cadence
            == FragmentCadence::EveryNPackets(0),
        packet_step(m, idx, data, keyframe, times, aux, position).result is Ok,
    ensures
        left_as(
            packet_step(m, idx, data, keyframe, times, aux, position),
            with_sample(m, idx as int, data, keyframe, times, aux),
        ),
{
}

/// Under the keyframe cadence a fragment is written by a packet if and only
/// if it is a keyframe of the first track behind a sample that is pending.
/// The fragment takes what was pending before, and the keyframe is left.
pub proof fn law_keyframe_cadence(
    m: MuxView,
    idx: usize,
    data: Seq<u8>,
    keyframe: bool,
    times: MediaTimes,
    aux: Option<(SencSampleView, Option<SeigView>)>,
    position: u64,
)
    requires
        mux_wf(m),
        m.sequence < u32::MAX,
        m.frag.cadence is EveryKeyframe,
        packet_step(m, idx, data, keyframe, times, aux, position).result is Ok,
    ensures
        ({
            let next = with_sample(m, idx as int, data, keyframe, times, aux);
            let step = packet_step(m, idx, data, keyframe, times, aux, position);
            if idx == 0 && keyframe && m.tracks[0].pending.len() > 0 {
                wrote_all_but(m, step, seq![next.tracks[0].pending.last()])
            } else {
                left_as(step, next)
            }
        }),
{
    let next = with_sample(m, idx as int, data, keyframe, times, aux);
    if idx == 0 && keyframe && m.tracks[0].pending.len() > 0 {
        assert(is_sync(0x0200_0000));
        lemma_flush_keeps_keyframe(next, position);
    }
}

/// Under a cadence of `n` packets a fragment is written by a packet if and
/// only if it is of the first track and is at least its `n`-th pending one.
/// The fragment takes them all.
pub proof fn law_packet_cadence(
    m: MuxView,
    n: u32,
    idx: usize,
    data: Seq<u8>,
    keyframe: bool,
    times: MediaTimes,
    aux: Option<(SencSampleView, Option<SeigView>)>,
    position: u64,
)
    requires
        mux_wf(m),
        m.sequence < u32::MAX,
        n > 0,
        m.frag.cadence == FragmentCadence::EveryNPackets(n),
        m.tracks[0].pending.len() < u32::MAX,
        packet_step(m, idx, data, keyframe, times, aux, position).result is Ok,
    ensures
        ({
            let next = with_sample(m, idx as int, data, keyframe, times, aux);
            let step = packet_step(m, idx, data, keyframe, times, aux, position);
            if idx == 0 && m.tracks[0].pending.len() + 1 >= n {
                wrote_all_but(m, step, Seq::empty())
            } else {
                left_as(step, next)
            }
        }),
{
    let next = with_sample(m, idx as int, data, keyframe, times, aux);
    if idx == 0 && m.tracks[0].pending.len() + 1 >= n {
        lemma_flush_takes_all(next, position);
    }
}

/// Without samples to write there is no fragment, and nothing changes. A
/// keyframe that is held back is no sample to write.
pub proof fn law_nothing_to_write(m: MuxView, hold: bool, position: u64)
    requires
        m.tracks.len() > 0,
        forall|i: int| 0 < i < m.tracks.len() ==> (#[trigger] m.tracks[i]).pending.len() == 0,
        m.tracks[0].pending.len() == 0 || (hold && m.frag.cadence is EveryKeyframe
            && m.tracks[0].pending.len() == 1 && (m.tracks[0].pending[0].flags / 0x1_0000) % 2 == 0),
    ensures
        flushed(m, hold, position).after == m,
        flushed(m, hold, position).out.len() == 0,
        flushed(m, hold, position).result is Ok,
{
    let t = fragment_tracks(m, hold);
    assert(t[0].pending.len() == 0);
    assert forall|i: int| 0 <= i < t.len() implies (#[trigger] t[i]).pending.len() == 0 by {
        if i > 0 {
            assert(t[i] == m.tracks[i]);
        }
    }
}

/// Numbers that are cut to 32 bits keep their low bits, and those that fit
/// are kept.
pub proof fn law_cut_numbers(x: int)
    ensures
        same_low32(cut32(x) as int, x),
        same_low32(wrap32(x) as int, x),
        0 <= x <= u32::MAX ==> cut32(x) == x,
        i32::MIN <= x <= i32::MAX ==> wrap32(x) == x,
{
    lemma_wrap32(x);
}

} // verus!
