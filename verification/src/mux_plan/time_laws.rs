//! The times of a plan come back exactly from its file.

use crate::frag::track::{sample_duration, sample_offset, times_of, TrackSetup};
use crate::mux_plan::order::{is_order, Slot};
use crate::mux_plan::payload_laws::{due, file_stamps, law_plan_writes_each_packet_in_time};
use crate::mux_plan::plan::{plan_wf, Gap, PlanView};
use crate::mux_plan::steps::{plans_fragments, plans_options};
use crate::mux_plan::tracks::{
    follows, media_rate, packet_plan_wf, track_plan_wf, unit_of, whole_ticks, StreamMedia,
    TrackPlanView,
};
use crate::options::{FragmentedOptions, Mp4MuxerOptions};
use crate::time::{clamped, nearest, rescaled, TimeBase};
use vstd::prelude::*;

verus! {

/// Ticks of a clock at its own rate stay as they are.
proof fn lemma_same_rate(v: i64, rate: u32)
    requires
        v >= 0,
        rate > 0,
    ensures
        rescaled(v, TimeBase { num: 1, den: rate as i64 }, rate) == v,
{
    let n = v * 1 * rate;
    let d = rate as int;
    assert(n >= 0 && n == v * d) by (nonlinear_arith)
        requires
            n == v * 1 * d,
            v >= 0,
            d > 0,
    ;
    assert((2 * n + d) / (2 * d) == v) by (nonlinear_arith)
        requires
            n == v * d,
            d > 0,
    ;
    assert(nearest(n, d) == v);
    assert(clamped(v as int) == v);
}

/// Multiples of ninety ticks of a ninety kilohertz clock are milliseconds.
proof fn lemma_milliseconds(v: i64)
    requires
        v >= 0,
        v % 90 == 0,
    ensures
        rescaled(v, TimeBase { num: 1, den: 90_000 }, 1_000) == v / 90,
{
    let n = v * 1 * 1_000;
    assert((2 * n + 90_000) / 180_000 == v / 90);
}

/// On the media clock of its track a packet has whole times: those that it
/// says, in units of the clock.
pub proof fn law_plan_times_are_whole(t: TrackPlanView, i: int, k: int)
    requires
        track_plan_wf(t, i),
        0 <= k < t.packets.len(),
    ensures
        ({
            let p = t.packets[k];
            let unit = unit_of(t.stream.media);
            let m = times_of(p, media_rate(t));
            &&& m.pts == Some((p.pts->0 as int / unit) as i64)
            &&& m.dts == m.pts
            &&& m.duration == Some((p.duration->0 as int / unit) as i64)
            &&& sample_offset(m) == 0
            &&& forall|prev: Option<i64>| #[trigger]
                sample_duration(prev, m) == p.duration->0 as int / unit
        }),
{
    let p = t.packets[k];
    assert(packet_plan_wf(p, i));
    assert(whole_ticks(p, t.ticks_per_sec, unit_of(t.stream.media)));
    let x = p.pts->0;
    let d = p.duration->0;
    match t.stream.media {
        StreamMedia::Audio { sample_rate, .. } => {
            lemma_same_rate(x, sample_rate);
            lemma_same_rate(d, sample_rate);
        },
        StreamMedia::Video { .. } => {
            lemma_milliseconds(x);
            lemma_milliseconds(d);
        },
    }
}

/// How far empty time puts off packet `k` of track `i`.
pub open spec fn put_off(gap: Option<Gap>, i: int, k: int) -> int {
    match gap {
        Some(g) => if g.track == i && g.after < k {
            g.duration as int
        } else {
            0
        },
        None => 0,
    }
}

/// A packet is due when it is presented, counted from the first packet, and
/// as much later as empty time puts it off.
proof fn lemma_due(t: TrackPlanView, gap: Option<Gap>, i: int, k: int)
    requires
        track_plan_wf(t, i),
        0 <= i <= 1,
        0 <= k < t.packets.len(),
    ensures
        times_of(t.packets[0], media_rate(t)).pts->0 + due(t, gap, i, media_rate(t), k) == times_of(
            t.packets[k],
            media_rate(t),
        ).pts->0 + put_off(gap, i, k),
    decreases k,
{
    law_plan_times_are_whole(t, i, k);
    if k > 0 {
        lemma_due(t, gap, i, k - 1);
        law_plan_times_are_whole(t, i, k - 1);
        assert(follows(t.packets, k - 1));
        let unit = unit_of(t.stream.media);
        let p = t.packets[k - 1];
        assert(whole_ticks(p, t.ticks_per_sec, unit));
        let x = p.pts->0 as int;
        let d = p.duration->0 as int;
        assert((x + d) / unit == x / unit + d / unit);
    }
}

/// In the file of a plan, on tracks that are set up with the clocks of their
/// streams, each sample is decoded and presented when its packet is, as long
/// as no empty time comes before it; empty time puts it off by as much. So
/// without empty time all times come back as they were.
pub proof fn law_plan_times_come_back(
    setups: Seq<TrackSetup>,
    p: PlanView,
    o: Mp4MuxerOptions,
    f: FragmentedOptions,
    order: Seq<Slot>,
    i: int,
    k: int,
)
    requires
        plan_wf(p),
        p.frag is Some,
        plans_options(p, o),
        plans_fragments(p.frag->0, f),
        setups.len() == p.tracks.len(),
        is_order(p.tracks, order),
        0 <= i < p.tracks.len(),
        0 <= k < p.tracks[i].packets.len(),
        setups[i].media_time_scale == media_rate(p.tracks[i]),
    ensures
        ({
            let t = p.tracks[i];
            let sample = file_stamps(setups, p, o, f, order, i)[k];
            &&& file_stamps(setups, p, o, f, order, i).len() == t.packets.len()
            &&& sample.data == t.packets[k].data
            &&& sample.time == times_of(t.packets[k], media_rate(t)).pts->0 + put_off(
                p.frag->0.gap,
                i,
                k,
            )
            &&& sample.offset == 0
            &&& times_of(t.packets[k], media_rate(t)).pts->0 * unit_of(t.stream.media)
                == t.packets[k].pts->0
        }),
{
    let t = p.tracks[i];
    assert(track_plan_wf(t, i));
    law_plan_writes_each_packet_in_time(setups, p, o, f, order, i);
    law_plan_times_are_whole(t, i, k);
    law_plan_times_are_whole(t, i, 0);
    lemma_due(t, p.frag->0.gap, i, k);
    let unit = unit_of(t.stream.media);
    let x = t.packets[k].pts->0 as int;
    assert(whole_ticks(t.packets[k], t.ticks_per_sec, unit));
    assert(packet_plan_wf(t.packets[k], i));
    assert(t.packets[0].pts == Some(0i64));
    assert((x / unit) * unit == x) by (nonlinear_arith)
        requires
            x % unit == 0,
            unit > 0,
    ;
}

} // verus!
