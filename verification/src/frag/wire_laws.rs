//! Fragments read back from the bytes that are written.

use crate::aux_info::{law_saio_reads_back, law_saiz_reads_back, saio_body, saiz_body, size_in_saiz};
use crate::boxes::{EMSG, MDAT, MOOF, PSSH, SAIO, SAIZ, SENC, SIDX, SSIX, STYP, TFHD, TRAF, TRUN};
use crate::bytes::{be16_at, be24_at, be32_at, be64_at, boxed};
use crate::cenc::pssh::{pssh_body, pssh_refusal};
use crate::cenc::senc::{entry_wire, entry_wires, senc_body, subsample_wires};
use crate::cenc::types::{PsshView, SencSampleView};
use crate::emsg::{emsg_body, emsg_wf, EmsgView};
use crate::frag::field_laws::law_sidx_reads_back;
use crate::frag::fields::{mfhd_box, prft_box, sidx_body, tfdt_box};
use crate::frag::model::{
    anchor_from, emsg_boxes, flushed, fragment_tracks, index_wire, meta_of, ssix_wire, MuxView,
    Parts,
};
use crate::frag::moof::{
    all_media, aux_offset, moof_at, moof_body, moof_of, pssh_boxes, traf_box, traf_head,
    traf_middle, traf_refusal, traf_run,
};
use crate::frag::moof_laws::{
    law_aux_info_in_place, law_fragment_size_is_known, law_track_fragment_in_place, media_start,
    traf_start,
};
use crate::frag::mux_laws::{law_indexes_measure_fragment, parts_of, wrote_fragment};
use crate::frag::protect::{
    any_subsamples, aux_oversize, aux_refusal, aux_size, aux_sizes, group_boxes, has_aux_info,
    senc_record,
};
use crate::frag::run::{defaults_of, is_sync, media_of, tfhd_body, total_duration, trun_body};
use crate::frag::track::{wrap32, TrackView};
use crate::levels::{law_ssix_reads_back, ssix_body, SsixLevels};
use crate::options::{compatible_of, major_of, FragmentedOptions};
use crate::reads::{
    lemma_box_body, lemma_read16_within, lemma_read24_within, lemma_read32_within,
    lemma_read64_within,
};
use crate::seqs::{
    holds_at, joined, lemma_holds_split, lemma_holds_whole, lemma_holds_within,
    lemma_joined_equal_parts, lemma_joined_none, lemma_joined_step, lemma_part_in_joined,
};
use crate::styp::brands_body;
use vstd::prelude::*;

verus! {

// ---------------------------------------------------------------------
// A track fragment
// ---------------------------------------------------------------------

/// A track fragment starts with its header and its decode time and ends with
/// its run. Auxiliary information stands right behind the decode time, in
/// three boxes: the entries, their sizes, and where they start.
pub proof fn law_track_fragment_boxes(t: TrackView, data_offset: i32, pos: int)
    ensures
        ({
            let b = traf_box(t, data_offset, pos);
            let tfhd = boxed(TFHD, tfhd_body(t.track_id, defaults_of(t.pending)));
            let trun = boxed(TRUN, trun_body(t.pending, data_offset, defaults_of(t.pending)));
            let senc = boxed(SENC, senc_body(senc_record(t.senc)));
            let saiz = boxed(SAIZ, saiz_body(aux_sizes(t.senc)));
            let at = 28 + tfhd.len() as int;
            &&& b.subrange(4, 8) == TRAF@
            &&& b.len() <= u32::MAX ==> be32_at(b, 0) == b.len()
            &&& holds_at(b, 8, tfhd)
            &&& holds_at(b, 8 + tfhd.len() as int, tfdt_box(t.next_bmdt))
            &&& holds_at(b, b.len() - trun.len(), trun)
            &&& has_aux_info(t.senc) ==> {
                &&& holds_at(b, at, senc)
                &&& holds_at(b, at + senc.len(), saiz)
                &&& holds_at(
                    b,
                    at + senc.len() + saiz.len(),
                    boxed(SAIO, saio_body(aux_offset(t, pos) as u32)),
                )
            }
        }),
{
    reveal(traf_box);
    let b = traf_box(t, data_offset, pos);
    let head = traf_head(t);
    let middle = traf_middle(t, pos);
    let run = traf_run(t, data_offset);
    let tfhd = boxed(TFHD, tfhd_body(t.track_id, defaults_of(t.pending)));
    let tfdt = tfdt_box(t.next_bmdt);
    lemma_box_body(TRAF, head + middle + run);
    lemma_holds_split(b, 8, head + middle, run);
    lemma_holds_split(b, 8, head, middle);
    lemma_holds_split(b, 8, tfhd, tfdt);
    assert(tfdt.len() == 20);
    if has_aux_info(t.senc) {
        let senc = boxed(SENC, senc_body(senc_record(t.senc)));
        let saiz = boxed(SAIZ, saiz_body(aux_sizes(t.senc)));
        let saio = boxed(SAIO, saio_body(aux_offset(t, pos) as u32));
        let groups = group_boxes(t.seig);
        let at = 8 + head.len() as int;
        assert(middle == senc + saiz + saio + groups);
        lemma_holds_split(b, at, senc + saiz + saio, groups);
        lemma_holds_split(b, at, senc + saiz, saio);
        lemma_holds_split(b, at, senc, saiz);
    }
}

/// A movie fragment starts with its number, right behind its header, and
/// then come the protection headers.
pub proof fn law_fragment_starts_with_its_number(
    sequence: u32,
    t: Seq<TrackView>,
    pssh: Seq<PsshView>,
)
    requires
        moof_of(sequence, t, pssh) is Ok,
    ensures
        ({
            let m = moof_of(sequence, t, pssh)->Ok_0;
            &&& m.subrange(4, 8) == MOOF@
            &&& m.len() <= u32::MAX ==> be32_at(m, 0) == m.len()
            &&& holds_at(m, 8, mfhd_box(sequence))
            &&& pssh_boxes(pssh) matches Ok(headers) && holds_at(m, 24, headers)
        }),
{
    reveal(moof_at);
    let first = moof_at(sequence, t, pssh, None)->Ok_0;
    let base = Some(first.len() as int + 8);
    let headers = pssh_boxes(pssh)->Ok_0;
    let head = mfhd_box(sequence) + headers;
    let body = moof_body(t, head, base)->Ok_0;
    let m = moof_of(sequence, t, pssh)->Ok_0;
    lemma_body_starts(t, head, base);
    lemma_box_body(MOOF, body);
    assert(body =~= head + body.skip(head.len() as int));
    lemma_holds_split(m, 8, head, body.skip(head.len() as int));
    lemma_holds_split(m, 8, mfhd_box(sequence), headers);
    assert(mfhd_box(sequence).len() == 16);
}

/// The body of a movie fragment starts with what it is built on.
proof fn lemma_body_starts(t: Seq<TrackView>, head: Seq<u8>, base: Option<int>)
    requires
        moof_body(t, head, base) is Ok,
    ensures
        ({
            let body = moof_body(t, head, base)->Ok_0;
            head.len() <= body.len() && body.subrange(0, head.len() as int) == head
        }),
    decreases t.len(),
{
    let body = moof_body(t, head, base)->Ok_0;
    if t.len() == 0 {
        assert(body.subrange(0, head.len() as int) =~= head);
    } else {
        lemma_body_starts(t.drop_last(), head, base);
        let before = moof_body(t.drop_last(), head, base)->Ok_0;
        assert(body.subrange(0, head.len() as int) =~= before.subrange(0, head.len() as int));
    }
}

// ---------------------------------------------------------------------
// Auxiliary information
// ---------------------------------------------------------------------

/// The sizes that a `saiz` body gives for the samples before the `i`-th, in
/// all.
pub open spec fn sizes_before(saiz: Seq<u8>, i: int) -> int
    decreases i,
{
    if i <= 0 {
        0
    } else {
        sizes_before(saiz, i - 1) + size_in_saiz(saiz, i - 1)
    }
}

/// No entry is too long for its size to fit a byte.
proof fn lemma_sizes_fit(senc: Seq<SencSampleView>, i: int, k: int, maps: bool)
    requires
        0 <= i <= k < senc.len(),
        aux_oversize(senc, i, maps) is None,
    ensures
        aux_size(senc[k], maps) <= 0xFF,
    decreases k - i,
{
    if i < k {
        lemma_sizes_fit(senc, i + 1, k, maps);
    }
}

/// An entry is as long as its size says.
proof fn lemma_entry_len(e: SencSampleView, maps: bool)
    ensures
        entry_wire(e, maps).len() == aux_size(e, maps),
{
    if maps {
        let rows = subsample_wires(e.subsamples);
        lemma_joined_equal_parts(rows, 6);
    }
}

/// The size of each sample that the `saiz` box gives is the length of its
/// entry.
proof fn lemma_size_of_entry(senc: Seq<SencSampleView>, i: int)
    requires
        0 <= i < senc.len(),
        has_aux_info(senc),
        aux_oversize(senc, 0, any_subsamples(senc)) is None,
    ensures
        size_in_saiz(saiz_body(aux_sizes(senc)), i) == entry_wire(
            senc[i],
            any_subsamples(senc),
        ).len(),
{
    let maps = any_subsamples(senc);
    lemma_sizes_fit(senc, 0, i, maps);
    lemma_sizes_fit(senc, 0, 0, maps);
    lemma_entry_len(senc[i], maps);
    assert(aux_sizes(senc)[0] != 0);
    law_saiz_reads_back(aux_sizes(senc), i, 0);
}

/// Entries stand behind the sizes of those before them.
proof fn lemma_entries_before(senc: Seq<SencSampleView>, i: int)
    requires
        0 <= i <= senc.len(),
        has_aux_info(senc),
        aux_oversize(senc, 0, any_subsamples(senc)) is None,
    ensures
        joined(entry_wires(senc, any_subsamples(senc)).take(i)).len() == sizes_before(
            saiz_body(aux_sizes(senc)),
            i,
        ),
    decreases i,
{
    let wires = entry_wires(senc, any_subsamples(senc));
    if i == 0 {
        lemma_joined_none(wires);
    } else {
        lemma_entries_before(senc, i - 1);
        lemma_size_of_entry(senc, i - 1);
        lemma_joined_step(wires, i - 1);
    }
}

/// An offset reads back from where its box stands.
proof fn lemma_saio_reads(m: Seq<u8>, at: int, offset: u32)
    requires
        holds_at(m, at, boxed(SAIO, saio_body(offset))),
    ensures
        m.subrange(at + 4, at + 8) == SAIO@,
        be32_at(m, at + 12) == 1,
        be32_at(m, at + 16) == offset,
{
    let body = saio_body(offset);
    let b = boxed(SAIO, body);
    lemma_box_body(SAIO, body);
    law_saio_reads_back(offset);
    lemma_holds_within(m, at, b, 8, body);
    lemma_read32_within(m, at + 8, body, 4);
    lemma_read32_within(m, at + 8, body, 8);
    assert(m.subrange(at + 4, at + 8) =~= m.subrange(at, at + b.len()).subrange(4, 8));
}

/// An entry stands behind the sizes of those before it.
proof fn lemma_entry_in_place(m: Seq<u8>, at: int, senc: Seq<SencSampleView>, i: int)
    requires
        0 <= i < senc.len(),
        has_aux_info(senc),
        aux_oversize(senc, 0, any_subsamples(senc)) is None,
        holds_at(m, at, joined(entry_wires(senc, any_subsamples(senc)))),
    ensures
        ({
            let entry = entry_wire(senc[i], any_subsamples(senc));
            let saiz = saiz_body(aux_sizes(senc));
            holds_at(m, at + sizes_before(saiz, i), entry) && entry.len() == size_in_saiz(saiz, i)
        }),
{
    let wires = entry_wires(senc, any_subsamples(senc));
    lemma_entries_before(senc, i);
    lemma_size_of_entry(senc, i);
    lemma_part_in_joined(wires, i);
    lemma_holds_within(m, at, joined(wires), joined(wires.take(i)).len() as int, wires[i]);
}

/// The boxes of the auxiliary information stand in the track fragment, where
/// that stands.
proof fn lemma_aux_boxes_in_place(m: Seq<u8>, at: int, t: TrackView, data_offset: i32, pos: int)
    requires
        has_aux_info(t.senc),
        holds_at(m, at, traf_box(t, data_offset, pos)),
    ensures
        ({
            let saiz = boxed(SAIZ, saiz_body(aux_sizes(t.senc)));
            let saiz_at = at + 8 + traf_head(t).len() + boxed(
                SENC,
                senc_body(senc_record(t.senc)),
            ).len();
            &&& holds_at(m, saiz_at, saiz)
            &&& holds_at(
                m,
                saiz_at + saiz.len(),
                boxed(SAIO, saio_body(aux_offset(t, pos) as u32)),
            )
        }),
{
    let b = traf_box(t, data_offset, pos);
    let saiz = boxed(SAIZ, saiz_body(aux_sizes(t.senc)));
    let saio = boxed(SAIO, saio_body(aux_offset(t, pos) as u32));
    law_track_fragment_boxes(t, data_offset, pos);
    assert(tfdt_box(t.next_bmdt).len() == 20);
    let inner = 8 + traf_head(t).len() + boxed(SENC, senc_body(senc_record(t.senc))).len();
    lemma_holds_within(m, at, b, inner as int, saiz);
    lemma_holds_within(m, at, b, inner + saiz.len() as int, saio);
}

/// The auxiliary information of sample `i` of track `k` stands in a movie
/// fragment that could be written where a reader looks for it: from the
/// offset in the `saio` box on, behind the sizes that the `saiz` box gives
/// for the samples before, and it is as long as the size that the `saiz` box
/// gives for the sample.
pub proof fn law_aux_info_of_sample(
    sequence: u32,
    t: Seq<TrackView>,
    pssh: Seq<PsshView>,
    k: int,
    i: int,
)
    requires
        0 <= k < t.len(),
        0 <= i < t[k].senc.len(),
        t[k].pending.len() > 0,
        has_aux_info(t[k].senc),
        moof_of(sequence, t, pssh) is Ok,
    ensures
        ({
            let m = moof_of(sequence, t, pssh)->Ok_0;
            let senc = t[k].senc;
            let saiz = saiz_body(aux_sizes(senc));
            let saiz_at = 8 + traf_start(sequence, t, pssh, k) + 8 + traf_head(t[k]).len() + boxed(
                SENC,
                senc_body(senc_record(senc)),
            ).len();
            let saio_at = saiz_at + 8 + saiz.len();
            let entry = entry_wire(senc[i], any_subsamples(senc));
            &&& holds_at(m, saiz_at, boxed(SAIZ, saiz))
            &&& m.subrange(saio_at + 4, saio_at + 8) == SAIO@
            &&& be32_at(m, saio_at + 12) == 1
            &&& holds_at(m, be32_at(m, saio_at + 16) + sizes_before(saiz, i), entry)
            &&& entry.len() == size_in_saiz(saiz, i)
        }),
{
    let m = moof_of(sequence, t, pssh)->Ok_0;
    let pos = traf_start(sequence, t, pssh, k);
    let senc = t[k].senc;
    let saiz = saiz_body(aux_sizes(senc));
    let at = aux_offset(t[k], pos);
    law_track_fragment_in_place(sequence, t, pssh, k);
    law_aux_info_in_place(sequence, t, pssh, k);
    assert(aux_refusal(senc, t[k].pending.len()) is None) by {
        reveal(traf_refusal);
    }
    lemma_entry_in_place(m, at, senc, i);
    lemma_aux_boxes_in_place(m, 8 + pos, t[k], wrap32(media_start(m.len(), t, k)), pos);
    lemma_box_body(SAIZ, saiz);
    let saio_at = 8 + pos + 8 + traf_head(t[k]).len() + boxed(
        SENC,
        senc_body(senc_record(senc)),
    ).len() + 8 + saiz.len();
    lemma_saio_reads(m, saio_at, at as u32);
}

// ---------------------------------------------------------------------
// A fragment in the file
// ---------------------------------------------------------------------

/// How long the indexes before a fragment are: 52 bytes for the segment
/// index and 28 for the subsegment index behind it.
pub open spec fn indexes_len(f: FragmentedOptions) -> int {
    if f.emit_random_access_indexes && f.emit_ssix {
        80
    } else if f.emit_random_access_indexes {
        52
    } else {
        0
    }
}

/// A segment index is 52 bytes long.
proof fn lemma_sidx_len(
    reference_id: u32,
    timescale: u32,
    earliest: u64,
    size: int,
    duration: u32,
    sap: bool,
)
    requires
        size >= 0,
    ensures
        boxed(SIDX, sidx_body(reference_id, timescale, earliest, size, duration, sap)).len() == 52,
{
    law_sidx_reads_back(reference_id, timescale, earliest, size, duration, sap);
    lemma_box_body(SIDX, sidx_body(reference_id, timescale, earliest, size, duration, sap));
}

/// A subsegment index is 28 bytes long.
proof fn lemma_ssix_len(levels: SsixLevels, meta: u32, media: u32)
    ensures
        boxed(SSIX, ssix_body(levels, meta, media)).len() == 28,
{
    lemma_box_body(SSIX, ssix_body(levels, meta, media));
}

/// The segment index before a fragment, where there is one.
proof fn lemma_index_len(f: FragmentedOptions, t: Seq<TrackView>, p: Parts)
    ensures
        index_wire(f, t, p).len() == if f.emit_random_access_indexes {
            52int
        } else {
            0int
        },
{
    let a = t[anchor_from(t, 0)];
    lemma_sidx_len(
        a.track_id,
        a.time_scale,
        a.next_bmdt,
        (meta_of(p).len() + p.mdat.len()) as int,
        if total_duration(a.pending) > u32::MAX {
            u32::MAX
        } else {
            total_duration(a.pending) as u32
        },
        is_sync(a.pending[0].flags),
    );
}

/// The subsegment index before a fragment, where there is one.
proof fn lemma_subindex_len(f: FragmentedOptions, p: Parts)
    ensures
        ssix_wire(f, p).len() == if f.emit_random_access_indexes && f.emit_ssix {
            28int
        } else {
            0int
        },
{
    lemma_ssix_len(f.ssix_levels, meta_of(p).len() as u32, p.mdat.len() as u32);
}

/// Five parts behind a head.
proof fn lemma_six_parts(
    a: Seq<u8>,
    b: Seq<u8>,
    c: Seq<u8>,
    d: Seq<u8>,
    e: Seq<u8>,
    f: Seq<u8>,
)
    ensures
        ({
            let s = a + (b + c + d + e + f);
            let n = a.len() as int;
            &&& s.len() == n + b.len() + c.len() + d.len() + e.len() + f.len()
            &&& holds_at(s, 0, a)
            &&& holds_at(s, n, b)
            &&& holds_at(s, n + b.len(), c)
            &&& holds_at(s, n + b.len() + c.len(), d)
            &&& holds_at(s, n + b.len() + c.len() + d.len(), e)
            &&& holds_at(s, n + b.len() + c.len() + d.len() + e.len(), f)
        }),
{
    let s = a + (b + c + d + e + f);
    let n = a.len() as int;
    lemma_holds_whole(s);
    lemma_holds_split(s, 0, a, b + c + d + e + f);
    lemma_holds_split(s, n, b + c + d + e, f);
    lemma_holds_split(s, n, b + c + d, e);
    lemma_holds_split(s, n, b + c, d);
    lemma_holds_split(s, n, b, c);
}

/// A fragment in the file is its indexes, then the brands of the segment,
/// the events, the reference time, the movie fragment and its media data, in
/// that order and with nothing between them. The brands are those that were
/// asked for this fragment, else those of the options; there are none
/// without either.
pub proof fn law_fragment_layout(m: MuxView, hold: bool, position: u64)
    requires
        wrote_fragment(m, hold, position),
    ensures
        ({
            let out = flushed(m, hold, position).out;
            let t = fragment_tracks(m, hold);
            let n = indexes_len(m.frag);
            let styp = match m.styp_override {
                Some((major, compatible)) => boxed(STYP, brands_body(major, 0, compatible)),
                None => match m.frag.styp {
                    Some(b) => boxed(STYP, brands_body(major_of(b), 0, compatible_of(b))),
                    None => Seq::empty(),
                },
            };
            let events = emsg_boxes(m.emsg)->0;
            let prft = match m.prft {
                Some(r) => prft_box(r),
                None => Seq::empty(),
            };
            let moof = moof_of((m.sequence + 1) as u32, t, m.pssh)->Ok_0;
            let mdat = boxed(MDAT, all_media(t));
            &&& emsg_boxes(m.emsg) is Some
            &&& moof_of((m.sequence + 1) as u32, t, m.pssh) is Ok
            &&& out.len() == n + styp.len() + events.len() + prft.len() + moof.len() + mdat.len()
            &&& holds_at(out, n, styp)
            &&& holds_at(out, n + styp.len(), events)
            &&& holds_at(out, n + styp.len() + events.len(), prft)
            &&& holds_at(out, n + styp.len() + events.len() + prft.len(), moof)
            &&& holds_at(out, n + styp.len() + events.len() + prft.len() + moof.len(), mdat)
        }),
{
    let t = fragment_tracks(m, hold);
    let p = parts_of(m, hold);
    law_indexes_measure_fragment(m, hold, position);
    lemma_index_len(m.frag, t, p);
    lemma_subindex_len(m.frag, p);
    lemma_six_parts(
        index_wire(m.frag, t, p) + ssix_wire(m.frag, p),
        p.styp,
        p.events,
        p.prft,
        p.moof,
        p.mdat,
    );
}

/// What stands in a run stands in a longer one.
proof fn lemma_held_in_longer(before: Seq<u8>, more: Seq<u8>, at: int, x: Seq<u8>)
    requires
        holds_at(before, at, x),
    ensures
        holds_at(before + more, at, x),
{
    assert((before + more).subrange(at, at + x.len()) =~= before.subrange(at, at + x.len()));
}

/// What is appended stands at the end.
proof fn lemma_held_at_end(before: Seq<u8>, more: Seq<u8>)
    ensures
        holds_at(before + more, before.len() as int, more),
{
    assert((before + more).subrange(
        before.len() as int,
        (before + more).len() as int,
    ) =~= more);
}

/// How long the events before the `i`-th are as boxes.
pub open spec fn events_before(e: Seq<EmsgView>, i: int) -> int
    decreases i,
{
    if i <= 0 {
        0
    } else {
        events_before(e, i - 1) + 8 + emsg_body(e[i - 1]).len()
    }
}

proof fn lemma_events_same(e: Seq<EmsgView>, f: Seq<EmsgView>, i: int)
    requires
        0 <= i <= e.len(),
        i <= f.len(),
        forall|j: int| 0 <= j < i ==> e[j] == f[j],
    ensures
        events_before(e, i) == events_before(f, i),
    decreases i,
{
    if i > 0 {
        lemma_events_same(e, f, i - 1);
    }
}

/// Events can be written if and only if each can. They stand one behind the
/// other, in the order in which they were queued.
pub proof fn law_events_in_order(e: Seq<EmsgView>)
    ensures
        emsg_boxes(e) is Some <==> forall|i: int| 0 <= i < e.len() ==> emsg_wf(#[trigger] e[i]),
        emsg_boxes(e) matches Some(b) ==> b.len() == events_before(e, e.len() as int) && forall|
            i: int,
        |
            0 <= i < e.len() ==> holds_at(
                b,
                events_before(e, i),
                boxed(EMSG, emsg_body(#[trigger] e[i])),
            ),
    decreases e.len(),
{
    if e.len() > 0 {
        let init = e.drop_last();
        let n = init.len() as int;
        law_events_in_order(init);
        assert(forall|i: int| 0 <= i < n ==> init[i] == e[i]);
        assert(e.last() == e[n]);
        if emsg_boxes(e) is Some {
            let before = emsg_boxes(init)->0;
            let b = emsg_boxes(e)->0;
            lemma_events_same(e, init, n);
            assert forall|i: int| 0 <= i < e.len() implies holds_at(
                b,
                events_before(e, i),
                boxed(EMSG, emsg_body(#[trigger] e[i])),
            ) by {
                lemma_events_same(e, init, if i < n {
                    i
                } else {
                    n
                });
                if i < n {
                    assert(init[i] == e[i]);
                    lemma_held_in_longer(
                        before,
                        boxed(EMSG, emsg_body(e[n])),
                        events_before(e, i),
                        boxed(EMSG, emsg_body(e[i])),
                    );
                } else {
                    lemma_held_at_end(before, boxed(EMSG, emsg_body(e[n])));
                }
            }
            lemma_box_body(EMSG, emsg_body(e[n]));
        }
    }
}

/// The first track with pending samples is found.
proof fn lemma_anchor(t: Seq<TrackView>, i: int, a: int)
    requires
        0 <= i <= a < t.len(),
        t[a].pending.len() > 0,
        forall|j: int| i <= j < a ==> (#[trigger] t[j]).pending.len() == 0,
    ensures
        anchor_from(t, i) == a,
    decreases a - i,
{
    if i < a {
        assert(t[i].pending.len() == 0);
        lemma_anchor(t, i + 1, a);
    }
}

/// The segment index of a fragment, read from the file, is about the first
/// track that has samples in the fragment: its number, its clock, the decode
/// time at which the fragment starts and how long its samples last, where 32
/// bits hold that. It measures all that follows the indexes, where 31 bits
/// hold that, and marks a fragment whose first sample is a sync sample.
pub proof fn law_index_reads_back(m: MuxView, hold: bool, position: u64, a: int)
    requires
        wrote_fragment(m, hold, position),
        m.frag.emit_random_access_indexes,
        0 <= a < fragment_tracks(m, hold).len(),
        fragment_tracks(m, hold)[a].pending.len() > 0,
        forall|j: int|
            0 <= j < a ==> (#[trigger] fragment_tracks(m, hold)[j]).pending.len() == 0,
    ensures
        ({
            let out = flushed(m, hold, position).out;
            let t = fragment_tracks(m, hold)[a];
            let measured = out.len() - indexes_len(m.frag);
            &&& be32_at(out, 0) == 52
            &&& out.subrange(4, 8) == SIDX@
            &&& be32_at(out, 8) == 0x0100_0000
            &&& be32_at(out, 12) == t.track_id
            &&& be32_at(out, 16) == t.time_scale
            &&& be64_at(out, 20) == t.next_bmdt
            &&& be64_at(out, 28) == 0
            &&& be16_at(out, 36) == 0
            &&& be16_at(out, 38) == 1
            &&& be32_at(out, 40) < 0x8000_0000
            &&& measured < 0x8000_0000 ==> be32_at(out, 40) == measured
            &&& measured >= 0x8000_0000 ==> be32_at(out, 40) == 0x7FFF_FFFF
            &&& total_duration(t.pending) <= u32::MAX ==> be32_at(out, 44) == total_duration(
                t.pending,
            )
            &&& total_duration(t.pending) > u32::MAX ==> be32_at(out, 44) == u32::MAX
            &&& be32_at(out, 48) == if is_sync(t.pending[0].flags) {
                0x9000_0000u32
            } else {
                0u32
            }
        }),
{
    let t = fragment_tracks(m, hold);
    let p = parts_of(m, hold);
    let out = flushed(m, hold, position).out;
    law_indexes_measure_fragment(m, hold, position);
    lemma_index_len(m.frag, t, p);
    lemma_subindex_len(m.frag, p);
    lemma_anchor(t, 0, a);
    let index = index_wire(m.frag, t, p);
    let ssix = ssix_wire(m.frag, p);
    lemma_holds_whole(out);
    lemma_holds_split(out, 0, index + ssix, meta_of(p) + p.mdat);
    lemma_holds_split(out, 0, index, ssix);
    let size = (meta_of(p).len() + p.mdat.len()) as int;
    assert(size == out.len() - indexes_len(m.frag));
    let ticks = if total_duration(t[a].pending) > u32::MAX {
        u32::MAX
    } else {
        total_duration(t[a].pending) as u32
    };
    lemma_sidx_in_place(
        out,
        t[a].track_id,
        t[a].time_scale,
        t[a].next_bmdt,
        size,
        ticks,
        is_sync(t[a].pending[0].flags),
    );
}

/// A segment index reads back from the start of the bytes that it starts.
proof fn lemma_sidx_in_place(
    out: Seq<u8>,
    reference_id: u32,
    timescale: u32,
    earliest: u64,
    size: int,
    duration: u32,
    sap: bool,
)
    requires
        size >= 0,
        holds_at(
            out,
            0,
            boxed(SIDX, sidx_body(reference_id, timescale, earliest, size, duration, sap)),
        ),
    ensures
        be32_at(out, 0) == 52,
        out.subrange(4, 8) == SIDX@,
        be32_at(out, 8) == 0x0100_0000,
        be32_at(out, 12) == reference_id,
        be32_at(out, 16) == timescale,
        be64_at(out, 20) == earliest,
        be64_at(out, 28) == 0,
        be16_at(out, 36) == 0,
        be16_at(out, 38) == 1,
        be32_at(out, 40) < 0x8000_0000,
        size < 0x8000_0000 ==> be32_at(out, 40) == size,
        size >= 0x8000_0000 ==> be32_at(out, 40) == 0x7FFF_FFFF,
        be32_at(out, 44) == duration,
        be32_at(out, 48) == if sap {
            0x9000_0000u32
        } else {
            0u32
        },
{
    let body = sidx_body(reference_id, timescale, earliest, size, duration, sap);
    let b = boxed(SIDX, body);
    law_sidx_reads_back(reference_id, timescale, earliest, size, duration, sap);
    lemma_box_body(SIDX, body);
    lemma_read32_within(out, 0, b, 0);
    assert(out.subrange(4, 8) =~= out.subrange(0, 52).subrange(4, 8));
    lemma_holds_within(out, 0, b, 8, body);
    lemma_read32_within(out, 8, body, 0);
    lemma_read32_within(out, 8, body, 4);
    lemma_read32_within(out, 8, body, 8);
    lemma_read64_within(out, 8, body, 12);
    lemma_read64_within(out, 8, body, 20);
    lemma_read16_within(out, 8, body, 28);
    lemma_read16_within(out, 8, body, 30);
    lemma_read32_within(out, 8, body, 32);
    lemma_read32_within(out, 8, body, 36);
    lemma_read32_within(out, 8, body, 40);
}

/// The subsegment index of a fragment, read from the file, has one range at
/// the level of metadata that leads from the end of the indexes to the media
/// data, and one at the level of media that is the media data. Together they
/// are what the segment index measures.
pub proof fn law_subsegment_index_reads_back(m: MuxView, hold: bool, position: u64)
    requires
        wrote_fragment(m, hold, position),
        m.frag.emit_random_access_indexes,
        m.frag.emit_ssix,
    ensures
        ({
            let out = flushed(m, hold, position).out;
            let meta = be24_at(out, 73);
            let media = be24_at(out, 77);
            &&& be32_at(out, 52) == 28
            &&& out.subrange(56, 60) == SSIX@
            &&& be32_at(out, 64) == 1
            &&& be32_at(out, 68) == 2
            &&& out[72] == m.frag.ssix_levels.metadata
            &&& out[76] == m.frag.ssix_levels.media
            &&& 80 + meta + media == out.len()
            &&& holds_at(out, 80 + meta, boxed(MDAT, all_media(fragment_tracks(m, hold))))
        }),
{
    let t = fragment_tracks(m, hold);
    let p = parts_of(m, hold);
    let out = flushed(m, hold, position).out;
    law_indexes_measure_fragment(m, hold, position);
    lemma_index_len(m.frag, t, p);
    lemma_subindex_len(m.frag, p);
    let index = index_wire(m.frag, t, p);
    let ssix = ssix_wire(m.frag, p);
    lemma_holds_whole(out);
    lemma_holds_split(out, 0, index + ssix, meta_of(p) + p.mdat);
    lemma_holds_split(out, 0, index, ssix);
    lemma_holds_split(out, 80, meta_of(p), p.mdat);
    lemma_ssix_in_place(
        out,
        m.frag.ssix_levels,
        meta_of(p).len() as u32,
        p.mdat.len() as u32,
    );
}

/// A subsegment index reads back from behind a segment index.
proof fn lemma_ssix_in_place(out: Seq<u8>, levels: SsixLevels, meta: u32, media: u32)
    requires
        meta <= 0xFF_FFFF,
        media <= 0xFF_FFFF,
        holds_at(out, 52, boxed(SSIX, ssix_body(levels, meta, media))),
    ensures
        be32_at(out, 52) == 28,
        out.subrange(56, 60) == SSIX@,
        be32_at(out, 64) == 1,
        be32_at(out, 68) == 2,
        out[72] == levels.metadata,
        be24_at(out, 73) == meta,
        out[76] == levels.media,
        be24_at(out, 77) == media,
{
    let body = ssix_body(levels, meta, media);
    let b = boxed(SSIX, body);
    law_ssix_reads_back(levels, meta, media);
    lemma_box_body(SSIX, body);
    lemma_read32_within(out, 52, b, 0);
    assert(out.subrange(56, 60) =~= out.subrange(52, 80).subrange(4, 8));
    lemma_holds_within(out, 52, b, 8, body);
    lemma_read32_within(out, 60, body, 4);
    lemma_read32_within(out, 60, body, 8);
    lemma_read24_within(out, 60, body, 13);
    lemma_read24_within(out, 60, body, 17);
    assert(out.subrange(60, 80)[12] == out[72]);
    assert(out.subrange(60, 80)[16] == out[76]);
}

/// A fragment that is refused has used up its number and the protection
/// headers that were queued for it, and a keyframe that was to be held back
/// is gone. Nothing is appended, but for the segment index where the
/// subsegment index behind it is refused, because a range of it does not fit
/// 24 bits.
pub proof fn law_refused_fragment(m: MuxView, hold: bool, position: u64)
    requires
        m.sequence < u32::MAX,
        flushed(m, hold, position).result is Err,
    ensures
        ({
            let step = flushed(m, hold, position);
            let after = step.after;
            let e = step.result->Err_0;
            &&& after.sequence == m.sequence + 1
            &&& after.pssh.len() == 0
            &&& after.tracks == fragment_tracks(m, hold)
            &&& after.styp_override == m.styp_override && after.prft == m.prft
            &&& after.header_written == m.header_written
            &&& e is SubsegmentRange || e is SubsegmentLevelRange || step.out.len() == 0
            &&& step.out.len() > 0 ==> {
                &&& m.frag.emit_random_access_indexes && m.frag.emit_ssix
                &&& step.out.len() == 52
                &&& meta_of(parts_of(m, hold)).len() > 0xFF_FFFF || parts_of(m, hold).mdat.len()
                    > 0xFF_FFFF
            }
        }),
{
    lemma_index_len(m.frag, fragment_tracks(m, hold), parts_of(m, hold));
}

/// How long the protection headers before the `i`-th are as boxes.
pub open spec fn headers_before(p: Seq<PsshView>, i: int) -> int
    decreases i,
{
    if i <= 0 {
        0
    } else {
        headers_before(p, i - 1) + 8 + pssh_body(p[i - 1]).len()
    }
}

proof fn lemma_headers_same(p: Seq<PsshView>, q: Seq<PsshView>, i: int)
    requires
        0 <= i <= p.len(),
        i <= q.len(),
        forall|j: int| 0 <= j < i ==> p[j] == q[j],
    ensures
        headers_before(p, i) == headers_before(q, i),
    decreases i,
{
    if i > 0 {
        lemma_headers_same(p, q, i - 1);
    }
}

/// Which lists of protection headers can be written, and how long they are.
proof fn lemma_headers_len(p: Seq<PsshView>)
    ensures
        pssh_boxes(p) is Ok <==> forall|i: int|
            0 <= i < p.len() ==> pssh_refusal(#[trigger] p[i]) is None,
        pssh_boxes(p) matches Ok(b) ==> b.len() == headers_before(p, p.len() as int),
    decreases p.len(),
{
    if p.len() > 0 {
        let init = p.drop_last();
        let n = init.len() as int;
        lemma_headers_len(init);
        lemma_headers_same(p, init, n);
        assert(forall|i: int| 0 <= i < n ==> init[i] == p[i]);
        assert(p.last() == p[n]);
        lemma_box_body(PSSH, pssh_body(p[n]));
    }
}

/// Where one protection header stands among all.
proof fn lemma_header_at(p: Seq<PsshView>, i: int)
    requires
        0 <= i < p.len(),
        pssh_boxes(p) is Ok,
    ensures
        holds_at(pssh_boxes(p)->Ok_0, headers_before(p, i), boxed(PSSH, pssh_body(p[i]))),
    decreases p.len(),
{
    let init = p.drop_last();
    let n = init.len() as int;
    let before = pssh_boxes(init)->Ok_0;
    let last = boxed(PSSH, pssh_body(p[n]));
    assert(pssh_boxes(p)->Ok_0 == before + last);
    lemma_headers_same(p, init, i);
    if i < n {
        lemma_header_at(init, i);
        assert(init[i] == p[i]);
        lemma_held_in_longer(before, last, headers_before(p, i), boxed(PSSH, pssh_body(p[i])));
    } else {
        lemma_headers_len(init);
        lemma_held_at_end(before, last);
    }
}

/// Protection headers can be written if and only if each can. They stand one
/// behind the other, in their order.
pub proof fn law_protection_headers_in_order(p: Seq<PsshView>)
    ensures
        pssh_boxes(p) is Ok <==> forall|i: int|
            0 <= i < p.len() ==> pssh_refusal(#[trigger] p[i]) is None,
        pssh_boxes(p) matches Ok(b) ==> b.len() == headers_before(p, p.len() as int) && forall|
            i: int,
        |
            0 <= i < p.len() ==> holds_at(
                b,
                headers_before(p, i),
                boxed(PSSH, pssh_body(#[trigger] p[i])),
            ),
{
    lemma_headers_len(p);
    if pssh_boxes(p) is Ok {
        let b = pssh_boxes(p)->Ok_0;
        assert forall|i: int| 0 <= i < p.len() implies holds_at(
            b,
            headers_before(p, i),
            boxed(PSSH, pssh_body(#[trigger] p[i])),
        ) by {
            lemma_header_at(p, i);
        }
    }
}

// ---------------------------------------------------------------------
// The order of track fragments
// ---------------------------------------------------------------------

/// The track fragments of a movie fragment follow one another behind its
/// number and the protection headers, in the order of the tracks, and
/// nothing else does. A track without pending samples has none.
pub proof fn law_track_fragments_follow(sequence: u32, t: Seq<TrackView>, pssh: Seq<PsshView>, k: int)
    requires
        moof_of(sequence, t, pssh) is Ok,
        0 <= k < t.len(),
    ensures
        ({
            let m = moof_of(sequence, t, pssh)->Ok_0;
            let at = traf_start(sequence, t, pssh, k);
            &&& pssh_boxes(pssh) matches Ok(headers) && traf_start(sequence, t, pssh, 0) == 16
                + headers.len()
            &&& traf_start(sequence, t, pssh, k + 1) == at + if t[k].pending.len() > 0 {
                traf_box(t[k], 0, at).len() as int
            } else {
                0int
            }
            &&& m.len() == 8 + traf_start(sequence, t, pssh, t.len() as int)
        }),
{
    reveal(moof_at);
    let headers = pssh_boxes(pssh)->Ok_0;
    let head = mfhd_box(sequence) + headers;
    let first = moof_at(sequence, t, pssh, None)->Ok_0;
    let body = moof_body(t, head, None)->Ok_0;
    law_fragment_size_is_known(sequence, t, pssh, None, Some(first.len() as int + 8));
    lemma_box_body(MOOF, body);
    assert(t.take(t.len() as int) =~= t);
    assert(t.take(0) =~= Seq::<TrackView>::empty());
    assert(mfhd_box(sequence).len() == 16);
    lemma_less_is_ok(t, k + 1, head);
    lemma_less_is_ok(t, k, head);
    assert(t.take(k + 1).drop_last() =~= t.take(k));
    assert(t.take(k + 1).last() == t[k]);
}

/// A body that can be written can be written with fewer tracks.
proof fn lemma_less_is_ok(t: Seq<TrackView>, k: int, head: Seq<u8>)
    requires
        0 <= k <= t.len(),
        moof_body(t, head, None) is Ok,
    ensures
        moof_body(t.take(k), head, None) is Ok,
    decreases t.len(),
{
    if k < t.len() {
        assert(t.drop_last().take(k) =~= t.take(k));
        lemma_less_is_ok(t.drop_last(), k, head);
    } else {
        assert(t.take(k) =~= t);
    }
}

/// A track without pending samples leaves no trace in a fragment: neither in
/// the movie fragment nor in the media data.
pub proof fn law_idle_track_leaves_no_trace(
    sequence: u32,
    t: Seq<TrackView>,
    pssh: Seq<PsshView>,
    idle: TrackView,
)
    requires
        idle.pending.len() == 0,
    ensures
        moof_of(sequence, t.push(idle), pssh) == moof_of(sequence, t, pssh),
        all_media(t.push(idle)) == all_media(t),
{
    reveal(moof_at);
    assert(t.push(idle).drop_last() =~= t);
    assert(media_of(idle.pending) =~= Seq::<u8>::empty());
    assert(all_media(t.push(idle)) =~= all_media(t));
}

} // verus!
