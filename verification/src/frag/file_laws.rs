//! The header, empty time and the trailer of a fragmented file, and which
//! packets it takes.

use crate::boxes::{
    EDTS, ELST, FTYP, LEVA, MEHD, MFRA, MOOF, MOOV, MVEX, MVHD, TRAF, TRAK, TREP, TREX,
};
use crate::bytes::{be32_at, be64_at, boxed, size_field};
use crate::cenc::plan_laws::row_start;
use crate::cenc::tenc::seig_refusal;
use crate::cenc::types::{PsshView, SeigView, SencSampleView, SubsampleEntry};
use crate::edits::{elst_body, EditListEntry};
use crate::frag::error::MuxError;
use crate::frag::field_laws::{
    law_empty_tfhd_reads_back, law_mehd_reads_back, law_mfhd_reads_back, law_mvhd_reads_back,
    law_tfdt_reads_back, law_trex_reads_back,
};
use crate::frag::fields::{
    empty_tfhd_box, ftyp_box, mehd_body, mfhd_box, mfro_box, mvhd_body, tfdt_box, tfra_box,
    trex_body,
};
use crate::frag::init::{
    edits_for, edts_wire, init_moov, leva_wire, mehd_wire, mvex_box, trak_box, trak_boxes,
    trep_boxes, trex_boxes, MOVIE_TIME_SCALE,
};
use crate::frag::model::{
    any_pending, covered, empty_time_step, flushed, fragment_tracks, gap_box, header_step, mfra_box,
    moov_pssh, movie_length, mux_wf, override_refusal, packet_refusal, packet_step, protected_step,
    tfra_boxes, track_length, trailer_step, MuxView,
};
use crate::frag::moof::pssh_boxes;
use crate::frag::mux_laws::{law_movie_length_covers_tracks, law_track_length_is_rounded_up};
use crate::frag::track::{MediaTimes, TrackView};
use crate::levels::leva_body;
use crate::options::{compatible_of, major_of, FragmentedOptions, TrackEditList};
use crate::reads::{lemma_box_body, lemma_read32_within, lemma_read64_within};
use crate::seqs::{
    holds_at, joined, lemma_holds_row, lemma_holds_split, lemma_holds_whole, lemma_holds_within,
    lemma_joined_equal_parts, lemma_part_in_joined,
};
use crate::styp::brands_body;
use crate::tracks::trep_body;
use vstd::prelude::*;

verus! {

// ---------------------------------------------------------------------
// Packets
// ---------------------------------------------------------------------

/// What subsamples cover is where the next one would start.
proof fn lemma_covered(s: Seq<SubsampleEntry>, n: int)
    requires
        0 <= n <= s.len(),
    ensures
        covered(s.take(n)) == row_start(s, n),
    decreases n,
{
    if n > 0 {
        lemma_covered(s, n - 1);
        assert(s.take(n).drop_last() =~= s.take(n - 1));
        assert(s.take(n).last() == s[n - 1]);
    }
}

/// A packet is taken if and only if the header is written, its stream is
/// there, and it goes with the track. A plain one does where no protected
/// one is pending. A protected one does where the track is protected by
/// default and every pending sample is protected too, its initialization
/// vector is as long as the track says, which is nothing under a constant
/// one, and its subsamples, if there are any, cover its data exactly.
pub proof fn law_which_packets_are_taken(
    m: MuxView,
    idx: usize,
    len: nat,
    senc: Option<SencSampleView>,
)
    ensures
        packet_refusal(m, idx, len, senc) is None <==> {
            let t = m.tracks[idx as int];
            &&& m.header_written
            &&& idx < m.tracks.len()
            &&& match senc {
                None => t.senc.len() == 0,
                Some(s) => {
                    &&& t.protection is Some
                    &&& t.senc.len() == t.pending.len()
                    &&& t.protection->0.tenc.is_protected != 0
                    &&& s.iv.len() == t.protection->0.tenc.per_sample_iv_size
                    &&& s.subsamples.len() > 0 ==> row_start(
                        s.subsamples,
                        s.subsamples.len() as int,
                    ) == len
                },
            }
        },
{
    if let Some(s) = senc {
        lemma_covered(s.subsamples, s.subsamples.len() as int);
        assert(s.subsamples.take(s.subsamples.len() as int) =~= s.subsamples);
    }
}

/// Why a packet is refused: the first of these that holds.
pub proof fn law_why_packets_are_refused(
    m: MuxView,
    idx: usize,
    len: nat,
    senc: Option<SencSampleView>,
)
    requires
        len <= usize::MAX,
        senc matches Some(s) ==> s.iv.len() <= usize::MAX,
    ensures
        packet_refusal(m, idx, len, senc) matches Some(e) ==> {
            let t = m.tracks[idx as int];
            let iv_size = t.protection->0.tenc.per_sample_iv_size;
            if !m.header_written {
                e == MuxError::NoHeader
            } else if idx >= m.tracks.len() {
                e == (MuxError::UnknownStream { stream_index: idx })
            } else if senc is None {
                t.senc.len() > 0 && e == (MuxError::PlainAfterProtected { stream_index: idx })
            } else if t.protection is None {
                e == (MuxError::NotProtected { stream_index: idx })
            } else if t.senc.len() != t.pending.len() {
                e == (MuxError::ProtectedAfterPlain { stream_index: idx })
            } else if t.protection->0.tenc.is_protected == 0 {
                e == (MuxError::ClearByDefault { stream_index: idx })
            } else if senc->0.iv.len() != iv_size {
                if t.protection->0.tenc.is_protected == 1 && iv_size == 0 {
                    e == (MuxError::IvOnConstant { stream_index: idx })
                } else {
                    e == (MuxError::IvLength {
                        stream_index: idx,
                        iv_len: senc->0.iv.len() as usize,
                        iv_size,
                    })
                }
            } else {
                &&& senc->0.subsamples.len() > 0
                &&& e matches MuxError::SubsampleCover { stream_index, total, sample_len }
                &&& stream_index == idx
                &&& sample_len == len
                &&& total == row_start(
                    senc->0.subsamples,
                    senc->0.subsamples.len() as int,
                ) % 0x1_0000_0000_0000_0000
                &&& row_start(senc->0.subsamples, senc->0.subsamples.len() as int) != len
            }
        },
{
    if let Some(s) = senc {
        lemma_covered(s.subsamples, s.subsamples.len() as int);
        assert(s.subsamples.take(s.subsamples.len() as int) =~= s.subsamples);
    }
}

// ---------------------------------------------------------------------
// Empty time
// ---------------------------------------------------------------------

/// A gap of its own reads back: a movie fragment with its number and one
/// track fragment, whose header says that it lasts `duration` and is empty,
/// and whose decode time is that of the track.
pub proof fn law_gap_reads_back(sequence: u32, t: TrackView, duration: u32)
    ensures
        ({
            let b = gap_box(sequence, t, duration);
            &&& b.len() == 72
            &&& be32_at(b, 0) == 72
            &&& b.subrange(4, 8) == MOOF@
            &&& holds_at(b, 8, mfhd_box(sequence))
            &&& be32_at(b, 24) == 48
            &&& b.subrange(28, 32) == TRAF@
            &&& holds_at(b, 32, empty_tfhd_box(t.track_id, duration))
            &&& holds_at(b, 52, tfdt_box(t.next_bmdt))
        }),
{
    let b = gap_box(sequence, t, duration);
    let mfhd = mfhd_box(sequence);
    let tfhd = empty_tfhd_box(t.track_id, duration);
    let tfdt = tfdt_box(t.next_bmdt);
    let traf = boxed(TRAF, tfhd + tfdt);
    law_mfhd_reads_back(sequence);
    law_empty_tfhd_reads_back(t.track_id, duration);
    law_tfdt_reads_back(t.next_bmdt);
    lemma_box_body(TRAF, tfhd + tfdt);
    lemma_box_body(MOOF, mfhd + traf);
    lemma_holds_split(b, 8, mfhd, traf);
    lemma_holds_within(b, 24, traf, 8, tfhd + tfdt);
    lemma_holds_split(b, 32, tfhd, tfdt);
    lemma_read32_within(b, 24, traf, 0);
    assert(b.subrange(28, 32) =~= b.subrange(24, 72).subrange(4, 8));
}

/// Empty time that is not zero comes behind a fragment with all that is
/// pending. It starts at the decode time that its track has reached, moves
/// that on by its duration, and takes the next number. Other tracks stay as
/// the fragment left them.
pub proof fn law_empty_time(m: MuxView, idx: usize, duration: u32, position: u64)
    requires
        mux_wf(m),
        duration > 0,
        empty_time_step(m, idx, duration, position).result is Ok,
        flushed(m, false, position).after.sequence < u32::MAX,
        flushed(m, false, position).after.tracks[idx as int].next_bmdt + duration <= u64::MAX,
    ensures
        ({
            let first = flushed(m, false, position);
            let step = empty_time_step(m, idx, duration, position);
            let before = first.after.tracks[idx as int];
            let after = step.after.tracks[idx as int];
            &&& m.header_written && !m.trailer_written && idx < m.tracks.len()
            &&& m.options.track_edit_lists@.len() == 0
            &&& first.result is Ok
            &&& step.after.sequence == first.after.sequence + 1
            &&& step.out == first.out + gap_box(step.after.sequence, before, duration)
            &&& after.next_bmdt == before.next_bmdt + duration
            &&& after.pending.len() == 0
            &&& after.tfra == before.tfra
            &&& after.cumulative == before.cumulative
            &&& after.prev_pts == before.prev_pts
            &&& step.after.tracks.len() == first.after.tracks.len()
            &&& forall|i: int|
                0 <= i < m.tracks.len() && i != idx ==> #[trigger] step.after.tracks[i]
                    == first.after.tracks[i]
        }),
{
    assert(fragment_tracks(m, false) == m.tracks);
    let first = flushed(m, false, position);
    if !any_pending(m.tracks) {
        assert(m.tracks[idx as int].pending.len() == 0);
    }
}

/// No empty time changes nothing.
pub proof fn law_no_empty_time(m: MuxView, idx: usize, position: u64)
    ensures
        empty_time_step(m, idx, 0, position).after == m,
        empty_time_step(m, idx, 0, position).out.len() == 0,
{
}

// ---------------------------------------------------------------------
// The trailer
// ---------------------------------------------------------------------

/// The random access tables of tracks stand in the random access box in the
/// order of the tracks: that of a track with rows behind those of all tracks
/// before it.
pub proof fn law_random_access_tables(t: Seq<TrackView>, k: int)
    requires
        0 <= k < t.len(),
        t[k].tfra.len() > 0,
    ensures
        mfra_box(t).subrange(4, 8) == MFRA@,
        holds_at(
            mfra_box(t),
            8 + tfra_boxes(t.take(k)).len() as int,
            tfra_box(t[k].track_id, t[k].tfra),
        ),
{
    let tables = tfra_boxes(t);
    let end = mfro_box(size_field(tables.len() + 24));
    lemma_box_body(MFRA, tables + end);
    lemma_holds_split(mfra_box(t), 8, tables, end);
    lemma_table_in_tables(t, k);
    lemma_holds_within(
        mfra_box(t),
        8,
        tables,
        tfra_boxes(t.take(k)).len() as int,
        tfra_box(t[k].track_id, t[k].tfra),
    );
}

proof fn lemma_table_in_tables(t: Seq<TrackView>, k: int)
    requires
        0 <= k < t.len(),
        t[k].tfra.len() > 0,
    ensures
        holds_at(
            tfra_boxes(t),
            tfra_boxes(t.take(k)).len() as int,
            tfra_box(t[k].track_id, t[k].tfra),
        ),
    decreases t.len(),
{
    let init = t.drop_last();
    let all = tfra_boxes(t);
    let x = tfra_box(t[k].track_id, t[k].tfra);
    let at = tfra_boxes(t.take(k)).len() as int;
    if k < t.len() - 1 {
        lemma_table_in_tables(init, k);
        assert(init.take(k) =~= t.take(k));
        assert(all.subrange(at, at + x.len()) =~= tfra_boxes(init).subrange(at, at + x.len()));
    } else {
        assert(t.take(k) =~= init);
        assert(all.subrange(at, at + x.len()) =~= x);
    }
}

/// A trailer writes what is pending, in one last fragment without any
/// keyframe held back, and ends the file. There is a random access box if
/// and only if the options ask for one and some track has a row, and the
/// length of the presentation is recorded if and only if there is room for
/// it.
pub proof fn law_trailer(m: MuxView, position: u64)
    requires
        mux_wf(m),
        !m.trailer_written,
        trailer_step(m, position).0.result is Ok,
    ensures
        ({
            let (step, trailer) = trailer_step(m, position);
            let last = flushed(m, false, position);
            &&& m.header_written
            &&& step.after.trailer_written
            &&& step.after.tracks == last.after.tracks
            &&& step.after.sequence == last.after.sequence
            &&& step.out == last.out
            &&& forall|i: int|
                0 <= i < m.tracks.len() ==> (#[trigger] step.after.tracks[i]).pending.len() == 0
            &&& trailer.mfra is Some <==> m.frag.emit_random_access_indexes && exists|i: int|
                0 <= i < step.after.tracks.len() && (#[trigger] step.after.tracks[i]).tfra.len() > 0
            &&& trailer.mfra matches Some(b) ==> b == mfra_box(step.after.tracks)
            &&& trailer.mehd is Some <==> m.mehd_at is Some
            &&& trailer.mehd matches Some((at, _length)) ==> m.mehd_at == Some(at)
        }),
{
    assert(fragment_tracks(m, false) == m.tracks);
    let (step, trailer) = trailer_step(m, position);
    assert forall|i: int| 0 <= i < m.tracks.len() implies (
    #[trigger] step.after.tracks[i]).pending.len() == 0 by {
        if !any_pending(m.tracks) {
            assert(m.tracks[i].pending.len() == 0);
        }
    }
}

/// The length that a trailer records, on the movie's clock of 1000 ticks a
/// second, is not less than the decode time that any track has reached, and
/// for some track it is by less than a tick more.
pub proof fn law_recorded_length(m: MuxView, position: u64)
    requires
        mux_wf(m),
        !m.trailer_written,
        trailer_step(m, position).0.result is Ok,
        m.mehd_at is Some,
        forall|i: int|
            0 <= i < m.tracks.len() ==> (
            #[trigger] trailer_step(m, position).0.after.tracks[i]).time_scale > 0
                && trailer_step(m, position).0.after.tracks[i].next_bmdt * 1000 <= u64::MAX,
    ensures
        ({
            let (step, trailer) = trailer_step(m, position);
            let length = (trailer.mehd->0).1;
            let t = step.after.tracks;
            &&& forall|i: int|
                0 <= i < m.tracks.len() ==> length * (#[trigger] t[i]).time_scale >= t[i].next_bmdt
                    * 1000
            &&& exists|i: int|
                0 <= i < m.tracks.len() && length * (#[trigger] t[i]).time_scale < t[i].next_bmdt
                    * 1000 + t[i].time_scale
        }),
{
    let (step, trailer) = trailer_step(m, position);
    let t = step.after.tracks;
    assert(t.len() == m.tracks.len()) by {
        assert(fragment_tracks(m, false) == m.tracks);
    }
    let length = movie_length(t);
    law_movie_length_covers_tracks(t);
    assert forall|i: int| 0 <= i < m.tracks.len() implies length * (#[trigger] t[i]).time_scale
        >= t[i].next_bmdt * 1000 by {
        law_track_length_is_rounded_up(t[i]);
        let own = track_length(t[i]);
        let scale = t[i].time_scale;
        assert(length * scale >= own * scale) by (nonlinear_arith)
            requires
                length >= own,
                scale >= 0,
        ;
    }
    let i = choose|i: int| 0 <= i < t.len() && track_length(#[trigger] t[i]) == length;
    law_track_length_is_rounded_up(t[i]);
}

// ---------------------------------------------------------------------
// The header
// ---------------------------------------------------------------------

/// The edits of a track are those of the first list for its stream; without
/// such a list there are none.
pub proof fn law_edits_of_a_track(lists: Seq<TrackEditList>, track_id: u32)
    ensures
        match edits_for(lists, track_id) {
            Some(e) => exists|i: int|
                0 <= i < lists.len() && (#[trigger] lists[i]).stream_index + 1 == track_id && e
                    == lists[i].entries@ && forall|j: int|
                    0 <= j < i ==> (#[trigger] lists[j]).stream_index + 1 != track_id,
            None => forall|j: int|
                0 <= j < lists.len() ==> (#[trigger] lists[j]).stream_index + 1 != track_id,
        },
    decreases lists.len(),
{
    if lists.len() > 0 && lists[0].stream_index + 1 != track_id {
        let rest = lists.drop_first();
        law_edits_of_a_track(rest, track_id);
        match edits_for(rest, track_id) {
            Some(e) => {
                let i = choose|i: int|
                    0 <= i < rest.len() && (#[trigger] rest[i]).stream_index + 1 == track_id && e
                        == rest[i].entries@ && forall|j: int|
                        0 <= j < i ==> (#[trigger] rest[j]).stream_index + 1 != track_id;
                assert(lists[i + 1] == rest[i]);
                assert forall|j: int| 0 <= j < i + 1 implies (#[trigger] lists[j]).stream_index + 1
                    != track_id by {
                    if j > 0 {
                        assert(rest[j - 1] == lists[j]);
                    }
                }
            },
            None => {
                assert forall|j: int| 0 <= j < lists.len() implies (#[trigger] lists[j]).stream_index
                    + 1 != track_id by {
                    if j > 0 {
                        assert(rest[j - 1] == lists[j]);
                    }
                }
            },
        }
    }
}

/// A track box is its header, its edits, where it has some, and its media.
pub proof fn law_track_box(t: TrackView, edits: Option<Seq<EditListEntry>>)
    ensures
        ({
            let b = trak_box(t, edits);
            let at = 8 + t.tkhd.len() as int;
            let list = match edits {
                Some(e) => boxed(EDTS, boxed(ELST, elst_body(e))),
                None => Seq::empty(),
            };
            &&& b.len() == at + list.len() + t.mdia.len()
            &&& holds_at(b, 8, t.tkhd)
            &&& holds_at(b, at, list)
            &&& holds_at(b, at + list.len(), t.mdia)
        }),
{
    let b = trak_box(t, edits);
    let list = edts_wire(edits);
    lemma_box_body(TRAK, t.tkhd + list + t.mdia);
    lemma_holds_split(b, 8, t.tkhd + list, t.mdia);
    lemma_holds_split(b, 8, t.tkhd, list);
}

/// How long the boxes of the first `n` tracks are together.
pub open spec fn traks_before(t: Seq<TrackView>, lists: Seq<TrackEditList>, n: int) -> int
    decreases n,
{
    if n <= 0 {
        0
    } else {
        traks_before(t, lists, n - 1) + trak_box(
            t[n - 1],
            edits_for(lists, t[n - 1].track_id),
        ).len()
    }
}

proof fn lemma_traks_same(t: Seq<TrackView>, u: Seq<TrackView>, lists: Seq<TrackEditList>, n: int)
    requires
        0 <= n <= t.len(),
        n <= u.len(),
        forall|j: int| 0 <= j < n ==> t[j] == u[j],
    ensures
        traks_before(t, lists, n) == traks_before(u, lists, n),
    decreases n,
{
    if n > 0 {
        lemma_traks_same(t, u, lists, n - 1);
    }
}

/// The boxes of the tracks stand one behind the other, in their order.
proof fn lemma_traks(t: Seq<TrackView>, lists: Seq<TrackEditList>)
    requires
        trak_boxes(t, lists) is Ok,
    ensures
        ({
            let b = trak_boxes(t, lists)->Ok_0;
            &&& b.len() == traks_before(t, lists, t.len() as int)
            &&& forall|k: int|
                0 <= k < t.len() ==> holds_at(
                    b,
                    traks_before(t, lists, k),
                    trak_box(#[trigger] t[k], edits_for(lists, t[k].track_id)),
                )
        }),
    decreases t.len(),
{
    if t.len() > 0 {
        let init = t.drop_last();
        let n = init.len() as int;
        lemma_traks(init, lists);
        let b = trak_boxes(t, lists)->Ok_0;
        let before = trak_boxes(init, lists)->Ok_0;
        assert(t.last() == t[n]);
        lemma_traks_same(t, init, lists, n);
        assert(b == before + trak_box(t[n], edits_for(lists, t[n].track_id)));
        assert forall|k: int| 0 <= k < t.len() implies holds_at(
            b,
            traks_before(t, lists, k),
            trak_box(#[trigger] t[k], edits_for(lists, t[k].track_id)),
        ) by {
            lemma_traks_same(t, init, lists, if k < n {
                k
            } else {
                n
            });
            let x = trak_box(t[k], edits_for(lists, t[k].track_id));
            let at = traks_before(t, lists, k);
            if k < n {
                assert(init[k] == t[k]);
                assert(holds_at(before, at, x));
                assert(b.subrange(at, at + x.len()) =~= before.subrange(at, at + x.len()));
            } else {
                assert(b.subrange(at, at + x.len()) =~= x);
            }
        }
    }
}

/// The movie box of a fragmented file, read by its layout: a movie header
/// with the movie's clock, no duration and the number of the next track, the
/// boxes of the tracks in their order, what to expect of the fragments, and
/// the protection headers.
pub proof fn law_movie_box_layout(
    t: Seq<TrackView>,
    lists: Seq<TrackEditList>,
    f: FragmentedOptions,
    pssh: Seq<PsshView>,
)
    requires
        init_moov(t, lists, f, pssh) is Ok,
        t.len() < u32::MAX,
    ensures
        ({
            let b = (init_moov(t, lists, f, pssh)->Ok_0).0;
            let mvex = mvex_box(t, f);
            let at = 116 + traks_before(t, lists, t.len() as int);
            &&& b.subrange(4, 8) == MOOV@
            &&& b.len() <= u32::MAX ==> be32_at(b, 0) == b.len()
            &&& holds_at(b, 8, boxed(MVHD, mvhd_body(1000, 0, (t.len() + 1) as u32)))
            &&& forall|k: int|
                0 <= k < t.len() ==> holds_at(
                    b,
                    116 + traks_before(t, lists, k),
                    trak_box(#[trigger] t[k], edits_for(lists, t[k].track_id)),
                )
            &&& holds_at(b, at, mvex)
            &&& pssh_boxes(pssh) matches Ok(headers) && holds_at(b, at + mvex.len(), headers)
                && b.len() == at + mvex.len() + headers.len()
        }),
{
    let b = (init_moov(t, lists, f, pssh)->Ok_0).0;
    let mvhd = boxed(MVHD, mvhd_body(1000, 0, (t.len() + 1) as u32));
    let traks = trak_boxes(t, lists)->Ok_0;
    let mvex = mvex_box(t, f);
    let headers = pssh_boxes(pssh)->Ok_0;
    law_mvhd_reads_back(1000, 0, (t.len() + 1) as u32);
    lemma_box_body(MVHD, mvhd_body(1000, 0, (t.len() + 1) as u32));
    lemma_moov_parts(mvhd, traks, mvex, headers);
    lemma_traks(t, lists);
    assert forall|k: int| 0 <= k < t.len() implies holds_at(
        b,
        116 + traks_before(t, lists, k),
        trak_box(#[trigger] t[k], edits_for(lists, t[k].track_id)),
    ) by {
        lemma_holds_within(
            b,
            116,
            traks,
            traks_before(t, lists, k),
            trak_box(t[k], edits_for(lists, t[k].track_id)),
        );
    }
}

/// Where the four parts of a movie box stand.
proof fn lemma_moov_parts(mvhd: Seq<u8>, traks: Seq<u8>, mvex: Seq<u8>, headers: Seq<u8>)
    ensures
        ({
            let b = boxed(MOOV, mvhd + traks + mvex + headers);
            let at = 8 + mvhd.len() as int;
            &&& b.len() == at + traks.len() + mvex.len() + headers.len()
            &&& b.subrange(4, 8) == MOOV@
            &&& b.len() <= u32::MAX ==> be32_at(b, 0) == b.len()
            &&& holds_at(b, 8, mvhd)
            &&& holds_at(b, at, traks)
            &&& holds_at(b, at + traks.len(), mvex)
            &&& holds_at(b, at + traks.len() + mvex.len(), headers)
        }),
{
    let b = boxed(MOOV, mvhd + traks + mvex + headers);
    lemma_box_body(MOOV, mvhd + traks + mvex + headers);
    lemma_holds_split(b, 8, mvhd + traks + mvex, headers);
    lemma_holds_split(b, 8, mvhd + traks, mvex);
    lemma_holds_split(b, 8, mvhd, traks);
}

/// What to expect of the fragments, read by its layout: the length of the
/// presentation, where it is to be recorded, the sample defaults of every
/// track in 32 bytes each, the levels, where there are any, and the track
/// properties.
pub proof fn law_movie_extends_layout(t: Seq<TrackView>, f: FragmentedOptions)
    ensures
        ({
            let b = mvex_box(t, f);
            let mehd = if f.write_mehd {
                boxed(MEHD, mehd_body(0))
            } else {
                Seq::empty()
            };
            let leva = if f.levels@.len() > 0 {
                boxed(LEVA, leva_body(f.levels@))
            } else {
                Seq::empty()
            };
            let at = 8 + mehd.len() as int;
            &&& b.subrange(4, 8) == MVEX@
            &&& holds_at(b, 8, mehd)
            &&& mehd.len() == if f.write_mehd {
                20int
            } else {
                0int
            }
            &&& forall|k: int|
                0 <= k < t.len() ==> holds_at(
                    b,
                    at + 32 * k,
                    boxed(
                        TREX,
                        trex_body(
                            (#[trigger] t[k]).track_id,
                            t[k].trex.duration,
                            t[k].trex.size,
                            t[k].trex.flags,
                        ),
                    ),
                )
            &&& holds_at(b, at + 32 * t.len(), leva)
            &&& forall|k: int|
                0 <= k < f.treps@.len() ==> holds_at(
                    b,
                    at + 32 * t.len() + leva.len() + joined(trep_boxes(f.treps@).take(k)).len(),
                    boxed(TREP, trep_body(#[trigger] f.treps@[k])),
                )
        }),
{
    let b = mvex_box(t, f);
    let mehd = mehd_wire(f.write_mehd);
    let trex = trex_boxes(t);
    let leva = leva_wire(f.levels@);
    let treps = trep_boxes(f.treps@);
    lemma_box_body(MVEX, mehd + joined(trex) + leva + joined(treps));
    lemma_holds_split(b, 8, mehd + joined(trex) + leva, joined(treps));
    lemma_holds_split(b, 8, mehd + joined(trex), leva);
    lemma_holds_split(b, 8, mehd, joined(trex));
    law_mehd_reads_back(0);
    lemma_box_body(MEHD, mehd_body(0));
    let at = 8 + mehd.len() as int;
    assert forall|k: int| 0 <= k < trex.len() implies (#[trigger] trex[k]).len() == 32 by {
        lemma_trex_len(t[k]);
    }
    lemma_joined_equal_parts(trex, 32);
    assert forall|k: int| 0 <= k < t.len() implies holds_at(
        b,
        at + 32 * k,
        boxed(
            TREX,
            trex_body(
                (#[trigger] t[k]).track_id,
                t[k].trex.duration,
                t[k].trex.size,
                t[k].trex.flags,
            ),
        ),
    ) by {
        lemma_holds_row(b, at, trex, 32, k);
        assert(trex[k] == boxed(
            TREX,
            trex_body(t[k].track_id, t[k].trex.duration, t[k].trex.size, t[k].trex.flags),
        ));
    }
    assert forall|k: int| 0 <= k < f.treps@.len() implies holds_at(
        b,
        at + 32 * t.len() + leva.len() + joined(treps.take(k)).len(),
        boxed(TREP, trep_body(#[trigger] f.treps@[k])),
    ) by {
        lemma_part_in_joined(treps, k);
        assert(treps[k] == boxed(TREP, trep_body(f.treps@[k])));
        lemma_holds_within(
            b,
            at + 32 * t.len() + leva.len(),
            joined(treps),
            joined(treps.take(k)).len() as int,
            treps[k],
        );
    }
}

/// The sample defaults of a track take 32 bytes.
proof fn lemma_trex_len(t: TrackView)
    ensures
        boxed(
            TREX,
            trex_body(t.track_id, t.trex.duration, t.trex.size, t.trex.flags),
        ).len() == 32,
{
    let body = trex_body(t.track_id, t.trex.duration, t.trex.size, t.trex.flags);
    law_trex_reads_back(t.track_id, t.trex.duration, t.trex.size, t.trex.flags);
    lemma_box_body(TREX, body);
}

/// A header that is written is the brands of the file, of which only `mp42`
/// has a minor version, and the movie box. It is written once. It remembers
/// where the length of the presentation is to be recorded if and only if the
/// options ask for that: at eight zero bytes behind the header of a version 1
/// `mehd` box.
pub proof fn law_header_layout(m: MuxView)
    requires
        header_step(m).result is Ok,
        header_step(m).out.len() <= u64::MAX,
    ensures
        ({
            let step = header_step(m);
            let brand = m.options.brand;
            let ftyp = boxed(
                FTYP,
                brands_body(
                    major_of(brand),
                    if brand is Mp4 {
                        0x200
                    } else {
                        0
                    },
                    compatible_of(brand),
                ),
            );
            let moov = init_moov(
                m.tracks,
                m.options.track_edit_lists@,
                m.frag,
                moov_pssh(m.options),
            );
            &&& !m.header_written
            &&& step.after == (MuxView { header_written: true, mehd_at: step.after.mehd_at, ..m })
            &&& moov is Ok
            &&& step.out == ftyp + (moov->Ok_0).0
            &&& step.after.mehd_at is Some <==> m.frag.write_mehd
            &&& step.after.mehd_at matches Some(at) ==> {
                &&& 12 <= at
                &&& at + 8 <= step.out.len()
                &&& step.out.subrange(at - 8, at - 4) == MEHD@
                &&& be32_at(step.out, at - 4) == 0x0100_0000
                &&& be64_at(step.out, at as int) == 0
            }
        }),
{
    let step = header_step(m);
    let t = m.tracks;
    let lists = m.options.track_edit_lists@;
    let pssh = moov_pssh(m.options);
    let ftyp = ftyp_box(m.options.brand);
    if m.frag.write_mehd {
        let moov = (init_moov(t, lists, m.frag, pssh)->Ok_0).0;
        let x = (init_moov(t, lists, m.frag, pssh)->Ok_0).1->0;
        lemma_mehd_in_moov(t, lists, m.frag, pssh);
        lemma_mehd_in_file(ftyp, moov, 16 + x);
    }
}

/// What a reader finds in a file where an empty `mehd` box stands in its
/// movie box.
proof fn lemma_mehd_in_file(ftyp: Seq<u8>, moov: Seq<u8>, x: int)
    requires
        x >= 0,
        holds_at(moov, x, boxed(MEHD, mehd_body(0))),
    ensures
        ({
            let out = ftyp + moov;
            let at = ftyp.len() + x + 12;
            &&& at + 8 <= out.len()
            &&& out.subrange(at - 8, at - 4) == MEHD@
            &&& be32_at(out, at - 4) == 0x0100_0000
            &&& be64_at(out, at) == 0
        }),
{
    law_mehd_reads_back(0);
    lemma_box_body(MEHD, mehd_body(0));
    lemma_numbers_in_file(ftyp, moov, x, boxed(MEHD, mehd_body(0)), mehd_body(0));
}

/// The code and the two numbers of a box of 20 bytes read in a file as in
/// the box.
proof fn lemma_numbers_in_file(
    before: Seq<u8>,
    after: Seq<u8>,
    x: int,
    whole: Seq<u8>,
    body: Seq<u8>,
)
    requires
        x >= 0,
        body.len() == 12,
        whole.len() == 20,
        holds_at(whole, 8, body),
        holds_at(after, x, whole),
    ensures
        ({
            let out = before + after;
            let at = before.len() + x;
            &&& at + 20 <= out.len()
            &&& out.subrange(at + 4, at + 8) == whole.subrange(4, 8)
            &&& be32_at(out, at + 8) == be32_at(body, 0)
            &&& be64_at(out, at + 12) == be64_at(body, 4)
        }),
{
    let out = before + after;
    let at = before.len() + x;
    lemma_holds_whole(out);
    lemma_holds_split(out, 0, before, after);
    lemma_holds_within(out, before.len() as int, after, x, whole);
    lemma_holds_within(out, at, whole, 8, body);
    lemma_read32_within(out, at + 8, body, 0);
    lemma_read64_within(out, at + 8, body, 4);
    assert(out.subrange(at + 4, at + 8) =~= out.subrange(at, at + 20).subrange(4, 8));
}

/// The `mehd` box stands in the movie box behind the headers of `moov` and
/// `mvex`.
proof fn lemma_mehd_in_moov(
    t: Seq<TrackView>,
    lists: Seq<TrackEditList>,
    f: FragmentedOptions,
    pssh: Seq<PsshView>,
)
    requires
        init_moov(t, lists, f, pssh) is Ok,
        f.write_mehd,
    ensures
        ({
            let (moov, at) = init_moov(t, lists, f, pssh)->Ok_0;
            at matches Some(x) && x >= 0 && holds_at(moov, 16 + x, boxed(MEHD, mehd_body(0)))
        }),
{
    let mvhd = boxed(MVHD, mvhd_body(MOVIE_TIME_SCALE, 0, (t.len() + 1) as u32));
    let traks = trak_boxes(t, lists)->Ok_0;
    let headers = pssh_boxes(pssh)->Ok_0;
    let (moov, at) = init_moov(t, lists, f, pssh)->Ok_0;
    lemma_moov_parts(mvhd, traks, mvex_box(t, f), headers);
    law_movie_extends_layout(t, f);
    lemma_holds_within(
        moov,
        8 + mvhd.len() + traks.len() as int,
        mvex_box(t, f),
        8,
        boxed(MEHD, mehd_body(0)),
    );
}

// ---------------------------------------------------------------------
// Overrides
// ---------------------------------------------------------------------

/// An override goes with a stream if and only if it can be written and, where
/// it protects its sample and the stream is protected, its vectors are as
/// wide as the track says. Where it does not go, the refusal says why it
/// cannot be written, else which widths differ.
pub proof fn law_which_overrides_go(m: MuxView, idx: usize, e: SeigView)
    ensures
        override_refusal(m, idx, None) is None,
        override_refusal(m, idx, Some(e)) is None <==> seig_refusal(e) is None && (idx
            < m.tracks.len() && e.is_protected == 1 ==> (m.tracks[idx as int].protection matches Some(
            d,
        ) ==> d.tenc.per_sample_iv_size == e.per_sample_iv_size)),
        override_refusal(m, idx, Some(e)) matches Some(why) ==> match seig_refusal(e) {
            Some(c) => why == MuxError::Cenc(c),
            None => {
                &&& why matches MuxError::OverrideIvSize {
                    stream_index,
                    default_size,
                    override_size,
                }
                &&& stream_index == idx
                &&& m.tracks[idx as int].protection matches Some(d) && default_size
                    == d.tenc.per_sample_iv_size
                &&& override_size == e.per_sample_iv_size
                &&& default_size != override_size
            },
        },
{
}

/// A protected packet whose override goes is taken like any packet with its
/// entry and its override; one whose override does not go changes nothing.
pub proof fn law_protected_packet(
    m: MuxView,
    idx: usize,
    data: Seq<u8>,
    keyframe: bool,
    times: MediaTimes,
    senc: SencSampleView,
    seig: Option<SeigView>,
    position: u64,
)
    ensures
        ({
            let step = protected_step(m, idx, data, keyframe, times, senc, seig, position);
            match override_refusal(m, idx, seig) {
                None => step == packet_step(
                    m,
                    idx,
                    data,
                    keyframe,
                    times,
                    Some((senc, seig)),
                    position,
                ),
                Some(e) => step.after == m && step.out.len() == 0 && step.result == Err::<
                    (),
                    MuxError,
                >(e),
            }
        }),
{
}

} // verus!
