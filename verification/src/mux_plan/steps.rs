//! What a plan does to a muxer, step by step, and that nothing of it is
//! refused.

use crate::emsg::EmsgView;
use crate::frag::init::{init_moov, trak_boxes};
use crate::frag::model::{
    emsg_boxes, empty_time_step, flush_due, flush_fits, flushed, fragment_tracks, gap_fits,
    header_step, moov_pssh, mux_wf, packet_refusal, packet_step, packet_times, sample_fits,
    trailer_step, with_sample, MuxView,
};
use crate::frag::mux_laws::{law_timeline_has_no_gap, wrote_fragment};
use crate::frag::open::{opened, opened_tracks};
use crate::frag::plain_laws::{law_plain_fragment_is_written, lemma_plain_sample, plain};
use crate::frag::run::total_duration;
use crate::frag::track::{
    new_track, queued, track_wf, MediaTimes, TrackSetup, TrackView,
};
use crate::mux_plan::order::Slot;
use crate::mux_plan::plan::{plan_wf, FragPlanView, Gap, PlanBrand, PlanView};
use crate::mux_plan::tracks::TrackPlanView;
use crate::options::{
    compatible_of, major_of, BrandPreset, FragmentCadence, FragmentedOptions, Mp4MuxerOptions,
    TrackEditList, BRAND_MSDH, BRAND_MSIX,
};
use vstd::prelude::*;

verus! {

// ---------------------------------------------------------------------
// What a plan asks of a muxer
// ---------------------------------------------------------------------

/// The brands as a preset.
pub open spec fn preset_of(b: PlanBrand) -> BrandPreset {
    match b {
        PlanBrand::Mp4 => BrandPreset::Mp4,
        PlanBrand::Mov => BrandPreset::Mov,
        PlanBrand::Ismv => BrandPreset::Ismv,
    }
}

/// The options are those of a plan: its brands, and nothing besides.
pub open spec fn plans_options(p: PlanView, o: Mp4MuxerOptions) -> bool {
    &&& o.brand == preset_of(p.brand)
    &&& o.faststart == p.faststart
    &&& o.fragmented is None
    &&& o.track_edit_lists@.len() == 0
    &&& o.track_protection@.len() == 0
    &&& o.pssh@.len() == 0
}

/// The options about fragments are those of a plan.
pub open spec fn plans_fragments(p: FragPlanView, f: FragmentedOptions) -> bool {
    &&& f.cadence == FragmentCadence::EveryNPackets(p.every)
    &&& f.emit_random_access_indexes == p.indexed
    &&& p.indexed ==> (f.styp matches Some(b) && major_of(b) == BRAND_MSDH && compatible_of(b)
        == seq![BRAND_MSDH, BRAND_MSIX])
    &&& !p.indexed ==> f.styp is None
    &&& f.levels@.len() == 0
    &&& !f.emit_ssix
    &&& f.treps@.len() == 0
    &&& !f.write_mehd
}

/// The state and the file after one packet, and the empty time behind it.
#[verifier::opaque]
pub open spec fn after_slot(
    tracks: Seq<TrackPlanView>,
    gap: Option<Gap>,
    s: Slot,
    m: MuxView,
    out: Seq<u8>,
) -> (MuxView, Seq<u8>) {
    let p = tracks[s.track as int].packets[s.packet as int];
    let step = packet_step(
        m,
        p.stream_index as usize,
        p.data,
        p.keyframe,
        packet_times(m, p),
        None,
        out.len() as u64,
    );
    let so_far = out + step.out;
    match gap {
        Some(g) => if g.track == s.track && g.after == s.packet {
            let empty = empty_time_step(step.after, g.track, g.duration, so_far.len() as u64);
            (empty.after, so_far + empty.out)
        } else {
            (step.after, so_far)
        },
        None => (step.after, so_far),
    }
}

/// The state and the file after some packets.
pub open spec fn after_slots(
    tracks: Seq<TrackPlanView>,
    gap: Option<Gap>,
    order: Seq<Slot>,
    m: MuxView,
    out: Seq<u8>,
) -> (MuxView, Seq<u8>)
    decreases order.len(),
{
    if order.len() == 0 {
        (m, out)
    } else {
        let (m1, out1) = after_slots(tracks, gap, order.drop_last(), m, out);
        after_slot(tracks, gap, order.last(), m1, out1)
    }
}

/// The events of a plan.
pub open spec fn events_of(p: FragPlanView) -> Seq<EmsgView> {
    match p.emsg {
        Some(e) => seq![e],
        None => Seq::empty(),
    }
}

/// The state before the first packet.
pub open spec fn started(
    setups: Seq<TrackSetup>,
    p: FragPlanView,
    o: Mp4MuxerOptions,
    f: FragmentedOptions,
) -> MuxView {
    let m = header_step(opened(setups, o, f)->Ok_0).after;
    MuxView { emsg: m.emsg + events_of(p), ..m }
}

/// The file of a plan: the header, the packets in order, the trailer.
pub open spec fn file_of(
    setups: Seq<TrackSetup>,
    tracks: Seq<TrackPlanView>,
    p: FragPlanView,
    o: Mp4MuxerOptions,
    f: FragmentedOptions,
    order: Seq<Slot>,
) -> Seq<u8> {
    let head = header_step(opened(setups, o, f)->Ok_0).out;
    let (m, out) = after_slots(tracks, p.gap, order, started(setups, p, o, f), head);
    let (last, trailer) = trailer_step(m, out.len() as u64);
    out + last.out + match trailer.mfra {
        Some(b) => b,
        None => Seq::empty(),
    }
}

// ---------------------------------------------------------------------
// Nothing is refused
// ---------------------------------------------------------------------

/// A track has counted `c` packets at most, and its time is below `b` times
/// 32 bits.
pub open spec fn counted(t: TrackView, c: int, b: int) -> bool {
    &&& t.packets_total <= c
    &&& t.cumulative <= c * 0xFFFF_FFFF
    &&& t.next_bmdt + total_duration(t.pending) <= b * 0xFFFF_FFFF
}

/// A muxer in the middle of a plan, with bounds on its counters.
pub open spec fn going(m: MuxView, n: nat, q: int, c: int, b: int) -> bool {
    &&& plain(m)
    &&& m.tracks.len() == n
    &&& m.header_written
    &&& !m.trailer_written
    &&& m.options.track_edit_lists@.len() == 0
    &&& m.mehd_at is None
    &&& m.sequence <= q
    &&& forall|i: int| 0 <= i < n ==> counted(#[trigger] m.tracks[i], c, b)
}

/// Small counters have room for a fragment.
pub proof fn lemma_going_flushes(m: MuxView, hold: bool, n: nat, q: int, c: int, b: int)
    requires
        going(m, n, q, c, b),
        n > 0,
        0 <= q <= 1_000,
        0 <= c <= 1_000,
        0 <= b <= 1_000,
    ensures
        flush_fits(m, hold),
{
    let t = fragment_tracks(m, hold);
    assert forall|i: int| 0 <= i < t.len() implies (#[trigger] t[i]).next_bmdt + total_duration(
        t[i].pending,
    ) <= u64::MAX by {
        assert(counted(m.tracks[i], c, b));
    }
}

/// Small counters have room for a sample.
pub proof fn lemma_going_takes(
    m: MuxView,
    idx: int,
    keyframe: bool,
    times: MediaTimes,
    n: nat,
    q: int,
    c: int,
    b: int,
)
    requires
        mux_wf(m),
        going(m, n, q, c, b),
        0 <= q < 1_000,
        0 <= c < 1_000,
        0 <= b < 1_000,
        0 <= idx < n,
    ensures
        sample_fits(m, idx, keyframe, times),
{
    let next = with_sample(m, idx, Seq::empty(), keyframe, times, None);
    assert(counted(m.tracks[idx], c, b));
    lemma_sample_is_counted(m, idx, Seq::empty(), keyframe, times, n, q, c, b);
    lemma_going_flushes(next, true, n, q, c + 1, b + 1);
}

/// Small counters have room for empty time.
pub proof fn lemma_going_waits(
    m: MuxView,
    idx: usize,
    duration: u32,
    n: nat,
    q: int,
    c: int,
    b: int,
)
    requires
        going(m, n, q, c, b),
        0 <= q <= 1_000,
        0 <= c <= 1_000,
        0 <= b <= 1_000,
        idx < n,
    ensures
        gap_fits(m, idx, duration),
{
    lemma_going_flushes(m, false, n, q, c, b);
    assert(counted(m.tracks[idx as int], c, b));
}

/// A fragment is written, and the muxer goes on.
pub proof fn lemma_flush_goes_on(
    m: MuxView,
    hold: bool,
    position: u64,
    n: nat,
    q: int,
    c: int,
    b: int,
)
    requires
        mux_wf(m),
        going(m, n, q, c, b),
        0 <= q <= 1_000,
        0 <= c <= 1_000,
        0 <= b <= 1_000,
    ensures
        flushed(m, hold, position).result is Ok,
        mux_wf(flushed(m, hold, position).after),
        going(flushed(m, hold, position).after, n, q + 1, c, b),
{
    let after = flushed(m, hold, position).after;
    lemma_going_flushes(m, hold, n, q, c, b);
    law_plain_fragment_is_written(m, hold, position);
    assert forall|i: int| 0 <= i < n implies counted(#[trigger] after.tracks[i], c, b) by {
        assert(counted(m.tracks[i], c, b));
        if wrote_fragment(m, hold, position) {
            law_timeline_has_no_gap(m, hold, position, i);
            lemma_packets_stay(m, hold, position, i);
        }
    }
    if wrote_fragment(m, hold, position) {
        lemma_flush_keeps_wf(m, hold, position);
    }
}

/// Tracks without encryption entries stay well formed when a fragment is
/// written.
pub proof fn lemma_flush_keeps_wf(m: MuxView, hold: bool, position: u64)
    requires
        mux_wf(m),
        plain(m),
        flush_fits(m, hold),
        wrote_fragment(m, hold, position),
    ensures
        mux_wf(flushed(m, hold, position).after),
{
    let after = flushed(m, hold, position).after;
    law_plain_fragment_is_written(m, hold, position);
    lemma_packets_stay(m, hold, position, 0);
    assert forall|i: int| 0 <= i < after.tracks.len() implies track_wf(#[trigger] after.tracks[i])
        && after.tracks[i].track_id == i + 1 by {
        law_timeline_has_no_gap(m, hold, position, i);
        lemma_packets_stay(m, hold, position, i);
        assert(track_wf(m.tracks[i]));
        assert(m.tracks[i].track_id == i + 1);
        assert(after.tracks[i].senc.len() == 0);
    }
}

/// A fragment does not change how many packets there were.
pub proof fn lemma_packets_stay(m: MuxView, hold: bool, position: u64, i: int)
    requires
        wrote_fragment(m, hold, position),
        0 <= i < m.tracks.len(),
    ensures
        flushed(m, hold, position).after.tracks[i].packets_total == m.tracks[i].packets_total,
        flushed(m, hold, position).after.tracks[i].track_id == m.tracks[i].track_id,
        flushed(m, hold, position).after.tracks.len() == m.tracks.len(),
{
}

/// One more pending sample is counted.
pub proof fn lemma_sample_is_counted(
    m: MuxView,
    idx: int,
    data: Seq<u8>,
    keyframe: bool,
    times: MediaTimes,
    n: nat,
    q: int,
    c: int,
    b: int,
)
    requires
        mux_wf(m),
        going(m, n, q, c, b),
        0 <= idx < n,
        0 <= q < 1_000,
        0 <= c < 1_000,
        0 <= b < 1_000,
    ensures
        mux_wf(with_sample(m, idx, data, keyframe, times, None)),
        going(with_sample(m, idx, data, keyframe, times, None), n, q, c + 1, b + 1),
{
    let next = with_sample(m, idx, data, keyframe, times, None);
    assert(counted(m.tracks[idx], c, b));
    lemma_plain_sample(m, idx, data, keyframe, times);
    assert forall|i: int| 0 <= i < n implies counted(#[trigger] next.tracks[i], c + 1, b + 1) by {
        assert(counted(m.tracks[i], c, b));
        if i == idx {
            let t = m.tracks[i];
            let t1 = queued(t, data, keyframe, times, None);
            assert(t1.pending.drop_last() =~= t.pending);
            assert(total_duration(t1.pending) == total_duration(t.pending)
                + t1.pending.last().duration as nat);
        }
    }
}

/// A packet is taken, and the muxer goes on.
pub proof fn lemma_packet_goes_on(
    m: MuxView,
    idx: usize,
    data: Seq<u8>,
    keyframe: bool,
    times: MediaTimes,
    position: u64,
    n: nat,
    q: int,
    c: int,
    b: int,
)
    requires
        mux_wf(m),
        going(m, n, q, c, b),
        idx < n,
        0 <= q < 1_000,
        0 <= c < 1_000,
        0 <= b < 1_000,
    ensures
        packet_step(m, idx, data, keyframe, times, None, position).result is Ok,
        mux_wf(packet_step(m, idx, data, keyframe, times, None, position).after),
        going(
            packet_step(m, idx, data, keyframe, times, None, position).after,
            n,
            q + 1,
            c + 1,
            b + 1,
        ),
{
    let next = with_sample(m, idx as int, data, keyframe, times, None);
    lemma_sample_is_counted(m, idx as int, data, keyframe, times, n, q, c, b);
    assert(m.tracks[idx as int].senc.len() == 0);
    assert(packet_refusal(m, idx, data.len(), None) is None);
    if flush_due(next, idx as int, keyframe) {
        lemma_flush_goes_on(next, true, position, n, q, c + 1, b + 1);
    }
}

/// Empty time is taken, and the muxer goes on.
pub proof fn lemma_gap_goes_on(
    m: MuxView,
    idx: usize,
    duration: u32,
    position: u64,
    n: nat,
    q: int,
    c: int,
    b: int,
)
    requires
        mux_wf(m),
        going(m, n, q, c, b),
        idx < n,
        0 <= q < 999,
        0 <= c < 1_000,
        0 <= b < 1_000,
    ensures
        empty_time_step(m, idx, duration, position).result is Ok,
        mux_wf(empty_time_step(m, idx, duration, position).after),
        going(empty_time_step(m, idx, duration, position).after, n, q + 2, c, b + 1),
{
    let first = flushed(m, false, position).after;
    lemma_flush_goes_on(m, false, position, n, q, c, b);
    let after = empty_time_step(m, idx, duration, position).after;
    assert forall|i: int| 0 <= i < n implies counted(#[trigger] after.tracks[i], c, b + 1) by {
        assert(counted(first.tracks[i], c, b));
        assert(counted(m.tracks[i], c, b));
    }
    assert forall|i: int| 0 <= i < after.tracks.len() implies (
    #[trigger] after.tracks[i]).senc.len() == 0 && after.tracks[i].seig.len() == 0 by {
        assert(first.tracks[i].senc.len() == 0);
        assert(m.tracks[i].senc.len() == 0);
    }
    assert forall|i: int| 0 <= i < after.tracks.len() implies track_wf(#[trigger] after.tracks[i])
        && after.tracks[i].track_id == i + 1 by {
        assert(track_wf(first.tracks[i]) && first.tracks[i].track_id == i + 1);
        assert(track_wf(m.tracks[i]) && m.tracks[i].track_id == i + 1);
    }
}

/// Tracks without protection can be opened.
pub proof fn lemma_tracks_open(setups: Seq<TrackSetup>)
    ensures
        opened_tracks(setups, Seq::empty()) is Ok,
        opened_tracks(setups, Seq::empty())->Ok_0.len() == setups.len(),
        forall|i: int|
            0 <= i < setups.len() ==> #[trigger] opened_tracks(setups, Seq::empty())->Ok_0[i]
                == new_track(setups[i], (i + 1) as u32, None),
    decreases setups.len(),
{
    if setups.len() > 0 {
        let init = setups.drop_last();
        lemma_tracks_open(init);
        let before = opened_tracks(init, Seq::empty())->Ok_0;
        let all = opened_tracks(setups, Seq::empty())->Ok_0;
        assert forall|i: int| 0 <= i < setups.len() implies #[trigger] all[i] == new_track(
            setups[i],
            (i + 1) as u32,
            None,
        ) by {
            if i < init.len() {
                assert(all[i] == before[i]);
                assert(init[i] == setups[i]);
            }
        }
    }
}

/// Tracks without edits can be described.
pub proof fn lemma_traks_built(t: Seq<TrackView>)
    ensures
        trak_boxes(t, Seq::empty()) is Ok,
    decreases t.len(),
{
    if t.len() > 0 {
        lemma_traks_built(t.drop_last());
    }
}

/// A plan can be started.
pub proof fn lemma_started(
    setups: Seq<TrackSetup>,
    p: PlanView,
    o: Mp4MuxerOptions,
    f: FragmentedOptions,
)
    requires
        plan_wf(p),
        p.frag is Some,
        plans_options(p, o),
        plans_fragments(p.frag->0, f),
        setups.len() == p.tracks.len(),
    ensures
        opened(setups, o, f) is Ok,
        header_step(opened(setups, o, f)->Ok_0).result is Ok,
        mux_wf(started(setups, p.frag->0, o, f)),
        forall|i: int|
            0 <= i < setups.len() ==> (#[trigger] started(
                setups,
                p.frag->0,
                o,
                f,
            ).tracks[i]) == new_track(setups[i], (i + 1) as u32, None),
        going(started(setups, p.frag->0, o, f), p.tracks.len(), 0, 0, 0),
{
    assert(o.track_protection@ =~= Seq::empty());
    assert(o.track_edit_lists@ =~= Seq::<TrackEditList>::empty());
    lemma_tracks_open(setups);
    let m = opened(setups, o, f)->Ok_0;
    lemma_traks_built(m.tracks);
    assert(moov_pssh(o).len() == 0);
    assert(init_moov(m.tracks, o.track_edit_lists@, f, moov_pssh(o)) is Ok);
    let s = started(setups, p.frag->0, o, f);
    let events = events_of(p.frag->0);
    assert(s.emsg =~= events);
    if p.frag->0.emsg is Some {
        assert(events.drop_last() =~= Seq::empty());
        assert(emsg_boxes(events.drop_last()) is Some);
        assert(emsg_boxes(events) is Some);
    } else {
        assert(emsg_boxes(events) is Some);
    }
    assert forall|i: int| 0 <= i < s.tracks.len() implies counted(#[trigger] s.tracks[i], 0, 0) by {
        assert(s.tracks[i] == new_track(setups[i], (i + 1) as u32, None));
    }
    assert forall|i: int| 0 <= i < s.tracks.len() implies (#[trigger] s.tracks[i]).senc.len() == 0
        && s.tracks[i].seig.len() == 0 && track_wf(s.tracks[i]) && s.tracks[i].track_id == i + 1
        && s.tracks[i].pending.len() == 0 by {
        assert(s.tracks[i] == new_track(setups[i], (i + 1) as u32, None));
    }
}

/// Wider bounds hold too.
pub proof fn lemma_wider(m: MuxView, n: nat, q: int, c: int, b: int)
    requires
        going(m, n, q, c, b),
    ensures
        going(m, n, q + 2, c, b + 1),
{
    assert forall|i: int| 0 <= i < n implies counted(#[trigger] m.tracks[i], c, b + 1) by {
        assert(counted(m.tracks[i], c, b));
    }
}

} // verus!
