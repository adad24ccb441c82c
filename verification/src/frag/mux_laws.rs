//! What holds of a fragmented muxer from one step to the next.

use crate::bytes::{be32, be32_at, boxed, lemma_be32_at, size_field};
use crate::frag::error::MuxError;
use crate::frag::fields::{mfro_box, TfraEmitEntry};
use crate::frag::init::MOVIE_TIME_SCALE;
use crate::frag::model::{
    advanced, after_fragment, any_pending, emsg_boxes, flush_fits, flushed, fragment_tracks,
    holds_back, index_wire, meta_of, mfra_box, movie_length, mux_wf, offset_after, packet_refusal,
    packet_step, prft_wire, ssix_wire, styp_wire, sync_rows, tfra_boxes, track_length, trailer_step,
    without_last, MuxView, Parts, TrailerView,
};
use crate::frag::moof::{all_media, moof_of};
use crate::frag::run::{is_sync, total_duration, SampleView};
use crate::frag::track::{track_wf, MediaTimes, TrackView};
use crate::cenc::types::{SeigView, SencSampleView};
use crate::boxes::MDAT;
use crate::seqs::holds_at;
use vstd::prelude::*;

verus! {

/// A fragment was written.
pub open spec fn wrote_fragment(m: MuxView, hold: bool, position: u64) -> bool {
    any_pending(fragment_tracks(m, hold)) && flushed(m, hold, position).result is Ok
}

/// What the fragment was made of, besides its indexes.
pub open spec fn parts_of(m: MuxView, hold: bool) -> Parts {
    let t = fragment_tracks(m, hold);
    Parts {
        styp: styp_wire(m),
        events: emsg_boxes(m.emsg)->0,
        prft: prft_wire(m),
        moof: moof_of((m.sequence + 1) as u32, t, m.pssh)->Ok_0,
        mdat: boxed(MDAT, all_media(t)),
    }
}

/// A fragment that was written is the one from those parts.
proof fn lemma_wrote(m: MuxView, hold: bool, position: u64)
    requires
        wrote_fragment(m, hold, position),
    ensures
        ({
            let t = fragment_tracks(m, hold);
            let p = parts_of(m, hold);
            let before = index_wire(m.frag, t, p) + ssix_wire(m.frag, p) + p.styp + p.events
                + p.prft;
            let step = flushed(m, hold, position);
            &&& step.out == before + p.moof + p.mdat
            &&& step.after == after_fragment(m, hold, t, offset_after(position, before.len()))
        }),
{
}

/// How seven parts may be grouped.
proof fn lemma_regroup(
    a: Seq<u8>,
    b: Seq<u8>,
    c: Seq<u8>,
    d: Seq<u8>,
    e: Seq<u8>,
    f: Seq<u8>,
    g: Seq<u8>,
)
    ensures
        a + b + c + d + e + f + g == (a + b) + ((c + d + e + f) + g),
{
    assert(a + b + c + d + e + f + g =~= (a + b) + ((c + d + e + f) + g));
}

/// No sample is lost or written twice: of each track the samples of the
/// fragment and those that are pending after it are, in order, those that
/// were pending before, and so are their encryption entries and overrides.
/// Only the first track can have a sample left.
pub proof fn law_every_sample_is_kept(m: MuxView, hold: bool, position: u64, i: int)
    requires
        mux_wf(m),
        wrote_fragment(m, hold, position),
        0 <= i < m.tracks.len(),
    ensures
        ({
            let taken = fragment_tracks(m, hold)[i];
            let left = flushed(m, hold, position).after.tracks[i];
            &&& taken.pending + left.pending == m.tracks[i].pending
            &&& taken.senc + left.senc == m.tracks[i].senc
            &&& taken.seig + left.seig == m.tracks[i].seig
            &&& i > 0 ==> left.pending.len() == 0
        }),
{
    let taken = fragment_tracks(m, hold)[i];
    let left = flushed(m, hold, position).after.tracks[i];
    let before = m.tracks[i];
    assert(track_wf(before));
    if hold && holds_back(m) && i == 0 {
        assert(taken == without_last(before));
        assert(left.pending =~= seq![before.pending.last()]);
        if before.senc.len() > 0 {
            assert(left.senc =~= seq![before.senc.last()]);
            assert(left.seig =~= seq![before.seig.last()]);
        } else {
            assert(left.senc =~= Seq::empty());
            assert(left.seig =~= Seq::empty());
        }
    } else {
        assert(taken == before);
        assert(left.pending =~= Seq::empty());
        assert(left.senc =~= Seq::empty());
        assert(left.seig =~= Seq::empty());
    }
    assert(taken.pending + left.pending =~= before.pending);
    assert(taken.senc + left.senc =~= before.senc);
    assert(taken.seig + left.seig =~= before.seig);
}

/// The decode time of a track goes on without a gap: where its next
/// fragment will end does not change when one is written, and the next one
/// starts where this one ends.
pub proof fn law_timeline_has_no_gap(m: MuxView, hold: bool, position: u64, i: int)
    requires
        mux_wf(m),
        flush_fits(m, hold),
        wrote_fragment(m, hold, position),
        0 <= i < m.tracks.len(),
    ensures
        ({
            let taken = fragment_tracks(m, hold)[i];
            let after = flushed(m, hold, position).after.tracks[i];
            &&& taken.next_bmdt == m.tracks[i].next_bmdt
            &&& after.next_bmdt == taken.next_bmdt + total_duration(taken.pending)
            &&& after.next_bmdt + total_duration(after.pending) == m.tracks[i].next_bmdt
                + total_duration(m.tracks[i].pending)
            &&& after.cumulative == m.tracks[i].cumulative
        }),
{
    let after = flushed(m, hold, position).after.tracks[i];
    let before = m.tracks[i];
    assert(track_wf(before));
    let taken = fragment_tracks(m, hold)[i];
    assert(taken.next_bmdt + total_duration(taken.pending) <= u64::MAX);
    if hold && holds_back(m) && i == 0 {
        let s = before.pending.last();
        assert(after.pending =~= seq![s]);
        assert(after.pending.drop_last() =~= Seq::<SampleView>::empty());
        assert(total_duration(after.pending) == total_duration(after.pending.drop_last())
            + s.duration as nat);
    } else {
        assert(after.pending =~= Seq::<SampleView>::empty());
    }
}

/// Under the keyframe cadence the keyframe that ends a fragment opens the
/// next one.
pub proof fn law_keyframe_opens_next_fragment(m: MuxView, position: u64)
    requires
        mux_wf(m),
        wrote_fragment(m, true, position),
        holds_back(m),
    ensures
        flushed(m, true, position).after.tracks[0].pending == seq![m.tracks[0].pending.last()],
{
    law_every_sample_is_kept(m, true, position, 0);
    assert(flushed(m, true, position).after.tracks[0].pending =~= seq![
        m.tracks[0].pending.last(),
    ]);
}

/// What is asked for the next fragment goes into that one alone.
pub proof fn law_requests_are_used_once(m: MuxView, hold: bool, position: u64)
    requires
        wrote_fragment(m, hold, position),
    ensures
        ({
            let after = flushed(m, hold, position).after;
            &&& after.styp_override is None
            &&& after.prft is None
            &&& after.pssh.len() == 0
            &&& after.emsg.len() == 0
            &&& after.sequence == (m.sequence + 1) as u32
        }),
{
}

/// A fragment is its indexes, then what they measure: the subsegment that
/// the segment index refers to is all that follows the indexes, and the two
/// ranges of the subsegment index make it up.
pub proof fn law_indexes_measure_fragment(m: MuxView, hold: bool, position: u64)
    requires
        wrote_fragment(m, hold, position),
    ensures
        ({
            let p = parts_of(m, hold);
            let t = fragment_tracks(m, hold);
            let out = flushed(m, hold, position).out;
            let indexes = index_wire(m.frag, t, p) + ssix_wire(m.frag, p);
            &&& out == indexes + (meta_of(p) + p.mdat)
            &&& out.len() - indexes.len() == meta_of(p).len() + p.mdat.len()
        }),
{
    let p = parts_of(m, hold);
    let t = fragment_tracks(m, hold);
    lemma_wrote(m, hold, position);
    lemma_regroup(
        index_wire(m.frag, t, p),
        ssix_wire(m.frag, p),
        p.styp,
        p.events,
        p.prft,
        p.moof,
        p.mdat,
    );
}

/// The offset in a new row of the random access tables leads to the movie
/// fragment, in a file that ends at `position` before the fragment is
/// appended.
pub proof fn law_rows_lead_to_fragment(m: MuxView, hold: bool, position: u64, i: int)
    requires
        mux_wf(m),
        wrote_fragment(m, hold, position),
        position + flushed(m, hold, position).out.len() <= u64::MAX,
        0 <= i < m.tracks.len(),
    ensures
        ({
            let p = parts_of(m, hold);
            let t = fragment_tracks(m, hold)[i];
            let step = flushed(m, hold, position);
            let offset = position + step.out.len() - p.moof.len() - p.mdat.len();
            &&& step.after.tracks[i].tfra == t.tfra + sync_rows(
                t.pending,
                t.next_bmdt,
                offset as u64,
            )
            &&& holds_at(step.out, offset - position, p.moof)
        }),
{
    let p = parts_of(m, hold);
    let t = fragment_tracks(m, hold);
    let step = flushed(m, hold, position);
    let before = index_wire(m.frag, t, p) + ssix_wire(m.frag, p) + p.styp + p.events + p.prft;
    lemma_wrote(m, hold, position);
    let at = before.len() as int;
    assert(step.out.subrange(at, at + p.moof.len()) =~= p.moof);
    assert(offset_after(position, before.len()) == position + at);
    assert(step.after.tracks[i].tfra == advanced(t[i], (position + at) as u64).tfra);
}

/// The places of the sync samples.
pub open spec fn sync_places(s: Seq<SampleView>) -> Seq<int>
    decreases s.len(),
{
    if s.len() == 0 {
        Seq::empty()
    } else if is_sync(s.last().flags) {
        sync_places(s.drop_last()).push(s.len() - 1)
    } else {
        sync_places(s.drop_last())
    }
}

/// The random access table has a row for each sync sample and for no other,
/// in order, with its decode time and its number in the run.
pub proof fn law_rows_are_the_sync_samples(s: Seq<SampleView>, start: u64, offset: u64)
    requires
        start + total_duration(s) <= u64::MAX,
        s.len() <= u32::MAX,
    ensures
        sync_rows(s, start, offset).len() == sync_places(s).len(),
        forall|j: int|
            0 <= j < sync_places(s).len() ==> {
                let k = #[trigger] sync_places(s)[j];
                &&& 0 <= k < s.len()
                &&& is_sync(s[k].flags)
                &&& sync_rows(s, start, offset)[j] == (TfraEmitEntry {
                    time: (start + total_duration(s.take(k))) as u64,
                    moof_offset: offset,
                    traf_number: 1,
                    trun_number: 1,
                    sample_number: (k + 1) as u32,
                })
            },
        forall|k: int|
            0 <= k < s.len() && is_sync((#[trigger] s[k]).flags) ==> sync_places(s).contains(k),
        forall|a: int, b: int|
            0 <= a < b < sync_places(s).len() ==> sync_places(s)[a] < sync_places(s)[b],
    decreases s.len(),
{
    if s.len() > 0 {
        let init = s.drop_last();
        law_rows_are_the_sync_samples(init, start, offset);
        let rows = sync_rows(s, start, offset);
        let places = sync_places(s);
        let before = sync_places(init);
        assert forall|j: int| 0 <= j < places.len() implies {
            let k = #[trigger] places[j];
            &&& 0 <= k < s.len()
            &&& is_sync(s[k].flags)
            &&& rows[j] == (TfraEmitEntry {
                time: (start + total_duration(s.take(k))) as u64,
                moof_offset: offset,
                traf_number: 1,
                trun_number: 1,
                sample_number: (k + 1) as u32,
            })
        } by {
            if j < before.len() {
                let k = before[j];
                assert(places[j] == k);
                assert(init.take(k) =~= s.take(k));
                assert(init[k] == s[k]);
                assert(rows[j] == sync_rows(init, start, offset)[j]);
            } else {
                assert(s.take(s.len() - 1) =~= init);
            }
        }
        assert forall|k: int| 0 <= k < s.len() && is_sync(
            (#[trigger] s[k]).flags,
        ) implies places.contains(k) by {
            if k < s.len() - 1 {
                assert(init[k] == s[k]);
                assert(before.contains(k));
                let j = choose|j: int| 0 <= j < before.len() && before[j] == k;
                assert(places[j] == k);
            } else {
                assert(places[places.len() - 1] == k);
            }
        }
        assert forall|a: int, b: int| 0 <= a < b < places.len() implies places[a] < places[b] by {
            assert(places[a] == before[a]);
            if b < before.len() {
                assert(places[b] == before[b]);
            }
        }
    }
}

/// A packet that is refused changes nothing and appends nothing.
pub proof fn law_refused_packet_changes_nothing(
    m: MuxView,
    idx: usize,
    data: Seq<u8>,
    keyframe: bool,
    times: MediaTimes,
    aux: Option<(SencSampleView, Option<SeigView>)>,
    position: u64,
)
    ensures
        ({
            let senc = match aux {
                Some((s, _seig)) => Some(s),
                None => None,
            };
            let step = packet_step(m, idx, data, keyframe, times, aux, position);
            packet_refusal(m, idx, data.len(), senc) matches Some(e) ==> step.after == m
                && step.out.len() == 0 && step.result == Err::<(), MuxError>(e)
        }),
{
}

/// The last sixteen bytes of a random access box are its `mfro` box, whose
/// number is the size of the whole box.
pub proof fn law_random_access_box_ends_with_its_size(t: Seq<TrackView>)
    requires
        mfra_box(t).len() <= u32::MAX,
    ensures
        holds_at(mfra_box(t), mfra_box(t).len() - 16, mfro_box(mfra_box(t).len() as u32)),
        be32_at(mfra_box(t), mfra_box(t).len() - 4) == mfra_box(t).len(),
{
    let b = mfra_box(t);
    let tables = tfra_boxes(t);
    let n = size_field(tables.len() + 24);
    let mfro = mfro_box(n);
    assert(mfro.len() == 16);
    assert(b.len() == tables.len() + 24);
    assert(n == b.len());
    assert(b.subrange(b.len() - 16, b.len() as int) =~= mfro);
    assert(b.subrange(b.len() - 4, b.len() as int) =~= be32(n));
    lemma_be32_at(b, b.len() - 4, n);
}

/// The recorded length of the presentation covers every track, and some
/// track is that long.
pub proof fn law_movie_length_covers_tracks(t: Seq<TrackView>)
    ensures
        forall|i: int| 0 <= i < t.len() ==> track_length(#[trigger] t[i]) <= movie_length(t),
        t.len() > 0 ==> exists|i: int|
            0 <= i < t.len() && track_length(#[trigger] t[i]) == movie_length(t),
    decreases t.len(),
{
    if t.len() > 0 {
        let init = t.drop_last();
        law_movie_length_covers_tracks(init);
        assert forall|i: int| 0 <= i < t.len() implies track_length(#[trigger] t[i])
            <= movie_length(t) by {
            if i < t.len() - 1 {
                assert(init[i] == t[i]);
            }
        }
        if track_length(t.last()) > movie_length(init) || init.len() == 0 {
            assert(track_length(t[t.len() - 1]) == movie_length(t));
        } else {
            let i = choose|i: int|
                0 <= i < init.len() && track_length(#[trigger] init[i]) == movie_length(init);
            assert(track_length(t[i]) == movie_length(t));
        }
    }
}

/// The length of a track on the movie's clock is not less than its decode
/// time, and by less than a tick more.
pub proof fn law_track_length_is_rounded_up(t: TrackView)
    requires
        t.time_scale > 0,
        t.next_bmdt * MOVIE_TIME_SCALE <= u64::MAX,
    ensures
        track_length(t) * t.time_scale >= t.next_bmdt * MOVIE_TIME_SCALE,
        track_length(t) * t.time_scale < t.next_bmdt * MOVIE_TIME_SCALE + t.time_scale,
{
    let n = t.next_bmdt * MOVIE_TIME_SCALE;
    let d = t.time_scale as int;
    let q = (n + d - 1) / d;
    assert(q * d <= n + d - 1 && n + d - 1 < q * d + d) by (nonlinear_arith)
        requires
            q == (n + d - 1) / d,
            d > 0,
    ;
    assert(q <= n) by (nonlinear_arith)
        requires
            q * d <= n + d - 1,
            n + d - 1 < q * d + d,
            d > 0,
            n >= 0,
    ;
    assert(q >= 0) by (nonlinear_arith)
        requires
            n + d - 1 < q * d + d,
            d > 0,
            n >= 0,
    ;
}

/// A second trailer does nothing.
pub proof fn law_second_trailer_does_nothing(m: MuxView, position: u64, later: u64)
    requires
        trailer_step(m, position).0.result is Ok,
    ensures
        ({
            let after = trailer_step(m, position).0.after;
            let (again, trailer) = trailer_step(after, later);
            &&& again.after == after
            &&& again.out.len() == 0
            &&& again.result is Ok
            &&& trailer == (TrailerView { mfra: None, mehd: None })
        }),
{
}

/// A track without a clock has no length.
pub proof fn law_track_without_clock_has_no_length(t: TrackView)
    requires
        t.time_scale == 0,
    ensures
        track_length(t) == 0,
{
}

} // verus!
