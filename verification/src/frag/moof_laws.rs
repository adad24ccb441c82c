//! Where a reader finds what a movie fragment speaks of.

use crate::aux_info::{saio_body, saiz_body};
use crate::boxes::{MDAT, MOOF, SAIO, SAIZ, SENC, TRAF};
use crate::bytes::boxed;
use crate::cenc::senc::{entry_wires, senc_body};
use crate::cenc::types::{flag1, PsshView, SencSampleView};
use crate::frag::error::MuxError;
use crate::frag::fields::mfhd_box;
use crate::frag::moof::{
    all_media, aux_offset, data_offset, moof_at, moof_body, moof_of, pssh_boxes, traf_box,
    traf_head, traf_middle, traf_refusal, traf_run,
};
use crate::frag::protect::{any_subsamples, aux_sizes, group_boxes, has_aux_info, senc_record};
use crate::frag::run::{defaults_of, media_of, trun_body, SampleView};
use crate::frag::track::{wrap32, TrackView};
use crate::seqs::{holds_at, joined, lemma_holds_split, lemma_holds_within};
use vstd::prelude::*;

verus! {

// ---------------------------------------------------------------------
// Sizes
// ---------------------------------------------------------------------

/// A track fragment is as long with one data offset as with another.
proof fn lemma_traf_len(t: TrackView, a: i32, b: i32, pos: int)
    ensures
        traf_box(t, a, pos).len() == traf_box(t, b, pos).len(),
{
    reveal(traf_box);
    let d = defaults_of(t.pending);
    assert(trun_body(t.pending, a, d).len() == trun_body(t.pending, b, d).len());
}

/// The two passes fail alike, or give bodies of one length.
proof fn lemma_body_len(t: Seq<TrackView>, head: Seq<u8>, a: Option<int>, b: Option<int>)
    ensures
        match moof_body(t, head, a) {
            Err(e) => moof_body(t, head, b) == Err::<Seq<u8>, MuxError>(e),
            Ok(x) => moof_body(t, head, b) matches Ok(y) && x.len() == y.len(),
        },
    decreases t.len(),
{
    if t.len() > 0 {
        lemma_body_len(t.drop_last(), head, a, b);
        if let Ok(x) = moof_body(t.drop_last(), head, a) {
            let at = all_media(t.drop_last()).len();
            lemma_traf_len(t.last(), data_offset(a, at), data_offset(b, at), x.len() as int);
        }
    }
}

/// The size of a movie fragment does not depend on its data offsets, nor
/// does whether it can be written: the first pass, which has none, gives
/// the size that the second needs.
pub proof fn law_fragment_size_is_known(
    sequence: u32,
    t: Seq<TrackView>,
    pssh: Seq<PsshView>,
    a: Option<int>,
    b: Option<int>,
)
    ensures
        match moof_at(sequence, t, pssh, a) {
            Err(e) => moof_at(sequence, t, pssh, b) == Err::<Seq<u8>, MuxError>(e),
            Ok(x) => moof_at(sequence, t, pssh, b) matches Ok(y) && x.len() == y.len(),
        },
{
    reveal(moof_at);
    if let Ok(headers) = pssh_boxes(pssh) {
        lemma_body_len(t, mfhd_box(sequence) + headers, a, b);
    }
}

/// How far into the body of the movie fragment the track fragment of track
/// `k` starts.
pub open spec fn traf_start(sequence: u32, t: Seq<TrackView>, pssh: Seq<PsshView>, k: int) -> int {
    match pssh_boxes(pssh) {
        Err(_) => 0,
        Ok(headers) => match moof_body(t.take(k), mfhd_box(sequence) + headers, None) {
            Err(_) => 0,
            Ok(body) => body.len() as int,
        },
    }
}

/// Where the samples of track `k` start, from the first byte of a movie
/// fragment of `size` bytes on.
pub open spec fn media_start(size: nat, t: Seq<TrackView>, k: int) -> int {
    size as int + 8 + all_media(t.take(k)).len()
}

// ---------------------------------------------------------------------
// Track fragments
// ---------------------------------------------------------------------

/// The body with more tracks starts with the body with fewer.
proof fn lemma_body_grows(t: Seq<TrackView>, k: int, head: Seq<u8>, base: Option<int>)
    requires
        0 <= k <= t.len(),
        moof_body(t, head, base) is Ok,
    ensures
        moof_body(t.take(k), head, base) matches Ok(x) && x.len() <= (moof_body(
            t,
            head,
            base,
        )->Ok_0).len() && (moof_body(t, head, base)->Ok_0).subrange(0, x.len() as int) == x,
    decreases t.len(),
{
    let whole = moof_body(t, head, base)->Ok_0;
    if k < t.len() {
        assert(t.drop_last().take(k) =~= t.take(k));
        lemma_body_grows(t.drop_last(), k, head, base);
        let less = moof_body(t.drop_last(), head, base)->Ok_0;
        let x = moof_body(t.take(k), head, base)->Ok_0;
        assert(whole.subrange(0, x.len() as int) =~= less.subrange(0, x.len() as int));
    } else {
        assert(t.take(k) =~= t);
        assert(whole.subrange(0, whole.len() as int) =~= whole);
    }
}

/// The track fragment of track `k` stands in the body where the tracks
/// before it end.
proof fn lemma_traf_in_body(t: Seq<TrackView>, k: int, head: Seq<u8>, base: Option<int>)
    requires
        0 <= k < t.len(),
        t[k].pending.len() > 0,
        moof_body(t, head, base) is Ok,
    ensures
        ({
            let pos = (moof_body(t.take(k), head, base)->Ok_0).len() as int;
            &&& moof_body(t.take(k), head, base) is Ok
            &&& traf_refusal(t[k], pos) is None
            &&& holds_at(
                moof_body(t, head, base)->Ok_0,
                pos,
                traf_box(t[k], data_offset(base, all_media(t.take(k)).len()), pos),
            )
        }),
{
    lemma_body_grows(t, k + 1, head, base);
    let upto = t.take(k + 1);
    assert(upto.drop_last() =~= t.take(k));
    assert(upto.last() == t[k]);
    lemma_body_grows(t, k, head, base);
    let x = moof_body(t.take(k), head, base)->Ok_0;
    let y = moof_body(upto, head, base)->Ok_0;
    let whole = moof_body(t, head, base)->Ok_0;
    let traf = traf_box(
        t[k],
        data_offset(base, all_media(t.take(k)).len()),
        x.len() as int,
    );
    assert(y == x + traf);
    assert(whole.subrange(x.len() as int, y.len() as int) =~= whole.subrange(
        0,
        y.len() as int,
    ).subrange(x.len() as int, y.len() as int));
    assert((x + traf).subrange(x.len() as int, y.len() as int) =~= traf);
}

/// In a movie fragment that could be written, every track with pending
/// samples has its track fragment, whose data offset leads from the first
/// byte of the movie fragment to the first byte of its samples.
pub proof fn law_track_fragment_in_place(
    sequence: u32,
    t: Seq<TrackView>,
    pssh: Seq<PsshView>,
    k: int,
)
    requires
        0 <= k < t.len(),
        t[k].pending.len() > 0,
        moof_of(sequence, t, pssh) is Ok,
    ensures
        ({
            let m = moof_of(sequence, t, pssh)->Ok_0;
            let pos = traf_start(sequence, t, pssh, k);
            &&& traf_refusal(t[k], pos) is None
            &&& holds_at(m, 8 + pos, traf_box(t[k], wrap32(media_start(m.len(), t, k)), pos))
        }),
{
    reveal(moof_at);
    let first = moof_at(sequence, t, pssh, None)->Ok_0;
    let m = moof_of(sequence, t, pssh)->Ok_0;
    let base = Some(first.len() as int + 8);
    law_fragment_size_is_known(sequence, t, pssh, None, base);
    let head = mfhd_box(sequence) + pssh_boxes(pssh)->Ok_0;
    let body = moof_body(t, head, base)->Ok_0;
    lemma_traf_in_body(t, k, head, base);
    lemma_body_len(t.take(k), head, None, base);
    let pos = traf_start(sequence, t, pssh, k);
    let traf = traf_box(t[k], wrap32(media_start(m.len(), t, k)), pos);
    assert(holds_at(body, pos, traf));
    assert(m == boxed(MOOF, body));
    assert(m.subrange(8 + pos, 8 + pos + traf.len()) =~= body.subrange(pos, pos + traf.len()));
}

// ---------------------------------------------------------------------
// Media data
// ---------------------------------------------------------------------

/// The media of the first tracks comes first, then that of track `k`.
proof fn lemma_media_of_track(t: Seq<TrackView>, k: int)
    requires
        0 <= k < t.len(),
    ensures
        holds_at(all_media(t), all_media(t.take(k)).len() as int, media_of(t[k].pending)),
    decreases t.len(),
{
    let init = t.drop_last();
    let all = all_media(t);
    if k < t.len() - 1 {
        lemma_media_of_track(init, k);
        assert(init.take(k) =~= t.take(k));
        let at = all_media(t.take(k)).len() as int;
        let n = media_of(t[k].pending).len() as int;
        assert(all.subrange(at, at + n) =~= all_media(init).subrange(at, at + n));
    } else {
        assert(t.take(k) =~= init);
        let at = all_media(init).len() as int;
        assert(all.subrange(at, all.len() as int) =~= media_of(t[k].pending));
    }
}

/// The data of the first samples comes first, then that of sample `i`.
proof fn lemma_media_of_sample(s: Seq<SampleView>, i: int)
    requires
        0 <= i < s.len(),
    ensures
        holds_at(media_of(s), media_of(s.take(i)).len() as int, s[i].data),
    decreases s.len(),
{
    let init = s.drop_last();
    let parts = Seq::new(s.len(), |j: int| s[j].data);
    let before = Seq::new(init.len(), |j: int| init[j].data);
    assert(parts.drop_last() =~= before);
    let all = media_of(s);
    assert(all == media_of(init) + s.last().data);
    if i < s.len() - 1 {
        lemma_media_of_sample(init, i);
        assert(init.take(i) =~= s.take(i));
        let at = media_of(s.take(i)).len() as int;
        let n = s[i].data.len() as int;
        assert(all.subrange(at, at + n) =~= media_of(init).subrange(at, at + n));
    } else {
        assert(s.take(i) =~= init);
        let at = media_of(init).len() as int;
        assert(all.subrange(at, all.len() as int) =~= s[i].data);
    }
}

/// In a movie fragment followed by its media data, sample `i` of track `k`
/// stands behind the samples before it, counted from where the data offset
/// of its run leads.
pub proof fn law_sample_in_place(
    sequence: u32,
    t: Seq<TrackView>,
    pssh: Seq<PsshView>,
    k: int,
    i: int,
)
    requires
        0 <= k < t.len(),
        0 <= i < t[k].pending.len(),
        moof_of(sequence, t, pssh) is Ok,
    ensures
        ({
            let m = moof_of(sequence, t, pssh)->Ok_0;
            let s = t[k].pending;
            let start = media_start(m.len(), t, k);
            &&& holds_at(
                m + boxed(MDAT, all_media(t)),
                start + media_of(s.take(i)).len(),
                s[i].data,
            )
            &&& start < 0x8000_0000 ==> wrap32(start) == start
        }),
{
    let m = moof_of(sequence, t, pssh)->Ok_0;
    let s = t[k].pending;
    let all = all_media(t);
    let segment = m + boxed(MDAT, all);
    lemma_media_of_track(t, k);
    lemma_media_of_sample(s, i);
    let a = all_media(t.take(k)).len() as int;
    let b = media_of(s.take(i)).len() as int;
    let n = s[i].data.len() as int;
    let track = media_of(s);
    assert(all.subrange(a + b, a + b + n) =~= all.subrange(a, a + track.len()).subrange(b, b + n));
    let at = media_start(m.len(), t, k) + b;
    assert(segment.subrange(at, at + n) =~= all.subrange(a + b, a + b + n));
}

// ---------------------------------------------------------------------
// Auxiliary information
// ---------------------------------------------------------------------

/// The entries of a `senc` box start sixteen bytes into it.
proof fn lemma_senc_entries(senc: Seq<SencSampleView>)
    ensures
        holds_at(
            boxed(SENC, senc_body(senc_record(senc))),
            16,
            joined(entry_wires(senc, any_subsamples(senc))),
        ),
{
    let record = senc_record(senc);
    assert(flag1(record.flags) == any_subsamples(senc));
    let entries = joined(entry_wires(senc, any_subsamples(senc)));
    let whole = boxed(SENC, senc_body(record));
    assert(whole.subrange(16, 16 + entries.len() as int) =~= entries);
}

/// The body of a box starts eight bytes into it.
proof fn lemma_body_in_box(code: [u8; 4], body: Seq<u8>)
    ensures
        holds_at(boxed(code, body), 8, body),
{
    assert(boxed(code, body).subrange(8, 8 + body.len() as int) =~= body);
}

/// The entries of its `senc` box stand in a track fragment behind the
/// headers.
proof fn lemma_traf_aux(t: TrackView, offset: i32, pos: int)
    requires
        has_aux_info(t.senc),
    ensures
        holds_at(
            traf_box(t, offset, pos),
            24 + traf_head(t).len() as int,
            joined(entry_wires(t.senc, any_subsamples(t.senc))),
        ),
{
    reveal(traf_box);
    let head = traf_head(t);
    let senc = boxed(SENC, senc_body(senc_record(t.senc)));
    let saiz = boxed(SAIZ, saiz_body(aux_sizes(t.senc)));
    let saio = boxed(SAIO, saio_body(aux_offset(t, pos) as u32));
    let groups = group_boxes(t.seig);
    let run = traf_run(t, offset);
    let body = head + traf_middle(t, pos) + run;
    assert(traf_middle(t, pos) == senc + saiz + saio + groups);
    assert(body.subrange(0, body.len() as int) =~= body);
    lemma_holds_split(body, 0, head + traf_middle(t, pos), run);
    lemma_holds_split(body, 0, head, traf_middle(t, pos));
    lemma_holds_split(body, head.len() as int, senc + saiz + saio, groups);
    lemma_holds_split(body, head.len() as int, senc + saiz, saio);
    lemma_holds_split(body, head.len() as int, senc, saiz);
    lemma_senc_entries(t.senc);
    let entries = joined(entry_wires(t.senc, any_subsamples(t.senc)));
    lemma_holds_within(body, head.len() as int, senc, 16, entries);
    lemma_body_in_box(TRAF, body);
    lemma_holds_within(boxed(TRAF, body), 8, body, head.len() as int + 16, entries);
}

/// In a movie fragment that could be written, the auxiliary information of
/// track `k` stands where its `saio` box says: there the entries of its
/// `senc` box follow one another.
pub proof fn law_aux_info_in_place(sequence: u32, t: Seq<TrackView>, pssh: Seq<PsshView>, k: int)
    requires
        0 <= k < t.len(),
        t[k].pending.len() > 0,
        has_aux_info(t[k].senc),
        moof_of(sequence, t, pssh) is Ok,
    ensures
        ({
            let m = moof_of(sequence, t, pssh)->Ok_0;
            let at = aux_offset(t[k], traf_start(sequence, t, pssh, k));
            &&& 0 <= at <= u32::MAX
            &&& holds_at(m, at, joined(entry_wires(t[k].senc, any_subsamples(t[k].senc))))
        }),
{
    let m = moof_of(sequence, t, pssh)->Ok_0;
    let pos = traf_start(sequence, t, pssh, k);
    law_track_fragment_in_place(sequence, t, pssh, k);
    let offset = wrap32(media_start(m.len(), t, k));
    let entries = joined(entry_wires(t[k].senc, any_subsamples(t[k].senc)));
    assert(aux_offset(t[k], pos) <= u32::MAX) by {
        reveal(traf_refusal);
    }
    lemma_traf_aux(t[k], offset, pos);
    lemma_holds_within(
        m,
        8 + pos,
        traf_box(t[k], offset, pos),
        24 + traf_head(t[k]).len() as int,
        entries,
    );
}

} // verus!
