//! `moov` of a fragmented file: the tracks without samples, and what to
//! expect of the fragments.

use crate::boxes::{EDTS, ELST, LEVA, MEHD, MOOV, MVEX, MVHD, TRAK, TREP, TREX};
use crate::bytes::{be64, boxed, put_bytes, wrap_box};
use crate::cenc::types::{PsshBox, PsshView};
use crate::edits::{build_elst_box, elst_body, elst_refusal, EditListEntry};
use crate::frag::error::MuxError;
use crate::frag::fields::{build_mehd, build_mvhd, build_trex, mehd_body, mvhd_body, trex_body};
use crate::frag::moof::{build_pssh_boxes, pssh_boxes, pssh_views, track_views};
use crate::frag::track::{FragTrackState, TrackView};
use crate::levels::{build_leva_box, leva_body, LevaEntry};
use crate::options::{FragmentedOptions, TrackEditList};
use crate::seqs::{holds_at, joined, lemma_joined_all, lemma_joined_none, lemma_joined_step};
use crate::tracks::{build_trep_box, trep_body, TrepRecord};
use vstd::prelude::*;

verus! {

/// Ticks per second of the movie's clock.
pub const MOVIE_TIME_SCALE: u32 = 1000;

/// The edits of a track: those of the first list for its stream.
pub open spec fn edits_for(lists: Seq<TrackEditList>, track_id: u32) -> Option<Seq<EditListEntry>>
    decreases lists.len(),
{
    if lists.len() == 0 {
        None
    } else if lists[0].stream_index + 1 == track_id {
        Some(lists[0].entries@)
    } else {
        edits_for(lists.drop_first(), track_id)
    }
}

/// The edit box of a track, where it has edits.
pub open spec fn edts_wire(edits: Option<Seq<EditListEntry>>) -> Seq<u8> {
    match edits {
        Some(e) => boxed(EDTS, boxed(ELST, elst_body(e))),
        None => Seq::empty(),
    }
}

/// The track box of a track.
pub open spec fn trak_box(t: TrackView, edits: Option<Seq<EditListEntry>>) -> Seq<u8> {
    boxed(TRAK, t.tkhd + edts_wire(edits) + t.mdia)
}

/// The track boxes of all tracks, or the first list of edits that cannot be
/// written.
pub open spec fn trak_boxes(t: Seq<TrackView>, lists: Seq<TrackEditList>) -> Result<
    Seq<u8>,
    MuxError,
>
    decreases t.len(),
{
    if t.len() == 0 {
        Ok(Seq::empty())
    } else {
        match trak_boxes(t.drop_last(), lists) {
            Err(e) => Err(e),
            Ok(before) => {
                let edits = edits_for(lists, t.last().track_id);
                match edits {
                    Some(e) => match elst_refusal(e) {
                        Some(why) => Err(MuxError::EditList(why)),
                        None => Ok(before + trak_box(t.last(), edits)),
                    },
                    None => Ok(before + trak_box(t.last(), edits)),
                }
            },
        }
    }
}

/// The sample defaults of all tracks, as boxes.
pub open spec fn trex_boxes(t: Seq<TrackView>) -> Seq<Seq<u8>> {
    Seq::new(
        t.len(),
        |i: int|
            boxed(
                TREX,
                trex_body(t[i].track_id, t[i].trex.duration, t[i].trex.size, t[i].trex.flags),
            ),
    )
}

/// The track extension properties, as boxes.
pub open spec fn trep_boxes(r: Seq<TrepRecord>) -> Seq<Seq<u8>> {
    Seq::new(r.len(), |i: int| boxed(TREP, trep_body(r[i])))
}

/// Room for the length of the presentation, where it is to be recorded.
pub open spec fn mehd_wire(write_mehd: bool) -> Seq<u8> {
    if write_mehd {
        boxed(MEHD, mehd_body(0))
    } else {
        Seq::empty()
    }
}

/// The level assignment, where there are levels.
pub open spec fn leva_wire(levels: Seq<LevaEntry>) -> Seq<u8> {
    if levels.len() > 0 {
        boxed(LEVA, leva_body(levels))
    } else {
        Seq::empty()
    }
}

/// The `mvex` box.
pub open spec fn mvex_box(t: Seq<TrackView>, f: FragmentedOptions) -> Seq<u8> {
    boxed(
        MVEX,
        mehd_wire(f.write_mehd) + joined(trex_boxes(t)) + leva_wire(f.levels@) + joined(
            trep_boxes(f.treps@),
        ),
    )
}

/// The `moov` box of a fragmented file, and how far into its body `mvex`
/// stands, where the length of the presentation is to be recorded; or why
/// it cannot be written.
pub open spec fn init_moov(
    t: Seq<TrackView>,
    lists: Seq<TrackEditList>,
    f: FragmentedOptions,
    pssh: Seq<PsshView>,
) -> Result<(Seq<u8>, Option<int>), MuxError> {
    match trak_boxes(t, lists) {
        Err(e) => Err(e),
        Ok(traks) => if f.levels@.len() > 0xFF {
            Err(MuxError::TooManyLevels)
        } else {
            match pssh_boxes(pssh) {
                Err(e) => Err(e),
                Ok(headers) => {
                    let before = boxed(
                        MVHD,
                        mvhd_body(MOVIE_TIME_SCALE, 0, (t.len() + 1) as u32),
                    ) + traks;
                    Ok(
                        (
                            boxed(MOOV, before + mvex_box(t, f) + headers),
                            if f.write_mehd {
                                Some(before.len() as int)
                            } else {
                                None
                            },
                        ),
                    )
                },
            }
        },
    }
}

/// The first list of edits for a track.
#[verifier::loop_isolation(false)]
fn find_edits(lists: &Vec<TrackEditList>, track_id: u32) -> (r: Option<&Vec<EditListEntry>>)
    ensures
        match r {
            Some(e) => edits_for(lists@, track_id) == Some(e@),
            None => edits_for(lists@, track_id) is None,
        },
{
    let mut i: usize = 0;
    assert(lists@.skip(0) =~= lists@);
    while i < lists.len()
        invariant
            i <= lists.len(),
            edits_for(lists@, track_id) == edits_for(lists@.skip(i as int), track_id),
        decreases lists.len() - i,
    {
        assert(lists@.skip(i as int)[0] == lists@[i as int]);
        if lists[i].stream_index as u128 + 1 == track_id as u128 {
            return Some(&lists[i].entries);
        }
        assert(lists@.skip(i as int).drop_first() =~= lists@.skip(i + 1));
        i = i + 1;
    }
    None
}

/// Serialise the track box of a track.
fn build_trak_init(t: &FragTrackState, edits: Option<&Vec<EditListEntry>>) -> (r: Result<
    Vec<u8>,
    MuxError,
>)
    ensures
        match (r, edits) {
            (Ok(b), Some(e)) => elst_refusal(e@) is None && b@ == trak_box(t@, Some(e@)),
            (Ok(b), None) => b@ == trak_box(t@, None),
            (Err(why), Some(e)) => elst_refusal(e@) matches Some(x) && why == MuxError::EditList(x),
            (Err(_), None) => false,
        },
{
    let mut body: Vec<u8> = Vec::new();
    put_bytes(&mut body, t.setup.tkhd.as_slice());
    match edits {
        Some(e) => match build_elst_box(e.as_slice()) {
            Ok(elst) => put_bytes(&mut body, wrap_box(&EDTS, elst.as_slice()).as_slice()),
            Err(why) => {
                return Err(MuxError::EditList(why));
            },
        },
        None => {},
    }
    put_bytes(&mut body, t.setup.mdia.as_slice());
    proof {
        match edits {
            Some(e) => {
                assert(body@ =~= t@.tkhd + edts_wire(Some(e@)) + t@.mdia);
            },
            None => {
                assert(body@ =~= t@.tkhd + edts_wire(None) + t@.mdia);
            },
        }
    }
    Ok(wrap_box(&TRAK, body.as_slice()))
}

/// The first list of edits that cannot be written decides.
proof fn lemma_trak_err_stays(t: Seq<TrackView>, n: int, lists: Seq<TrackEditList>)
    requires
        0 <= n <= t.len(),
        trak_boxes(t.take(n), lists) is Err,
    ensures
        trak_boxes(t, lists) == trak_boxes(t.take(n), lists),
    decreases t.len(),
{
    if n < t.len() {
        assert(t.drop_last().take(n) =~= t.take(n));
        lemma_trak_err_stays(t.drop_last(), n, lists);
    } else {
        assert(t.take(n) =~= t);
    }
}

/// The track boxes of all tracks.
#[verifier::loop_isolation(false)]
fn build_traks(tracks: &Vec<FragTrackState>, lists: &Vec<TrackEditList>) -> (r: Result<
    Vec<u8>,
    MuxError,
>)
    ensures
        match r {
            Ok(b) => trak_boxes(track_views(tracks@), lists@) == Ok::<Seq<u8>, MuxError>(b@),
            Err(e) => trak_boxes(track_views(tracks@), lists@) == Err::<Seq<u8>, MuxError>(e),
        },
{
    let ghost v = track_views(tracks@);
    let mut out: Vec<u8> = Vec::new();
    let mut i: usize = 0;
    assert(v.take(0) =~= Seq::<TrackView>::empty());
    assert(out@ =~= Seq::<u8>::empty());
    while i < tracks.len()
        invariant
            i <= tracks.len(),
            trak_boxes(v.take(i as int), lists@) == Ok::<Seq<u8>, MuxError>(out@),
        decreases tracks.len() - i,
    {
        assert(v.take(i + 1).drop_last() =~= v.take(i as int));
        assert(v.take(i + 1).last() == v[i as int]);
        match build_trak_init(&tracks[i], find_edits(lists, tracks[i].track_id)) {
            Ok(b) => put_bytes(&mut out, b.as_slice()),
            Err(e) => {
                proof {
                    lemma_trak_err_stays(v, i + 1, lists@);
                }
                return Err(e);
            },
        }
        i = i + 1;
    }
    assert(v.take(tracks.len() as int) =~= v);
    Ok(out)
}

/// Append the sample defaults of all tracks.
fn append_trexes(out: &mut Vec<u8>, tracks: &Vec<FragTrackState>)
    ensures
        final(out)@ == old(out)@ + joined(trex_boxes(track_views(tracks@))),
{
    let ghost v = track_views(tracks@);
    let ghost head = out@;
    let ghost wires = trex_boxes(v);
    let mut i: usize = 0;
    proof {
        lemma_joined_none(wires);
    }
    assert(out@ =~= head + joined(wires.take(0)));
    while i < tracks.len()
        invariant
            i <= tracks.len(),
            v == track_views(tracks@),
            wires == trex_boxes(v),
            out@ == head + joined(wires.take(i as int)),
        decreases tracks.len() - i,
    {
        let t: &FragTrackState = &tracks[i];
        put_bytes(
            out,
            build_trex(
                t.track_id,
                t.trex_default_sample_duration,
                t.trex_default_sample_size,
                t.trex_default_sample_flags,
            ).as_slice(),
        );
        proof {
            lemma_joined_step(wires, i as int);
            assert(v[i as int] == tracks@[i as int]@);
            assert(out@ =~= head + joined(wires.take(i + 1)));
        }
        i = i + 1;
    }
    proof {
        lemma_joined_all(wires);
    }
}

/// Append the track extension properties.
fn append_treps(out: &mut Vec<u8>, treps: &Vec<TrepRecord>)
    ensures
        final(out)@ == old(out)@ + joined(trep_boxes(treps@)),
{
    let ghost head = out@;
    let ghost wires = trep_boxes(treps@);
    let mut i: usize = 0;
    proof {
        lemma_joined_none(wires);
    }
    assert(out@ =~= head + joined(wires.take(0)));
    while i < treps.len()
        invariant
            i <= treps.len(),
            wires == trep_boxes(treps@),
            out@ == head + joined(wires.take(i as int)),
        decreases treps.len() - i,
    {
        put_bytes(out, build_trep_box(&treps[i]).as_slice());
        proof {
            lemma_joined_step(wires, i as int);
            assert(out@ =~= head + joined(wires.take(i + 1)));
        }
        i = i + 1;
    }
    proof {
        lemma_joined_all(wires);
    }
}

/// Serialise the `mvex` box. There is none for more levels than can be
/// counted.
fn build_mvex(tracks: &Vec<FragTrackState>, f: &FragmentedOptions) -> (r: Option<Vec<u8>>)
    ensures
        match r {
            Some(b) => f.levels@.len() <= 0xFF && b@ == mvex_box(track_views(tracks@), *f),
            None => f.levels@.len() > 0xFF,
        },
{
    let mut body: Vec<u8> = Vec::new();
    if f.write_mehd {
        put_bytes(&mut body, build_mehd(0).as_slice());
    }
    assert(body@ =~= mehd_wire(f.write_mehd));
    append_trexes(&mut body, tracks);
    let ghost before = body@;
    if f.levels.len() > 0 {
        match build_leva_box(f.levels.as_slice()) {
            Some(b) => put_bytes(&mut body, b.as_slice()),
            None => {
                return None;
            },
        }
    }
    assert(body@ =~= before + leva_wire(f.levels@));
    append_treps(&mut body, &f.treps);
    Some(wrap_box(&MVEX, body.as_slice()))
}

/// Serialise the `moov` box of a fragmented file.
pub fn build_init_moov(
    tracks: &Vec<FragTrackState>,
    lists: &Vec<TrackEditList>,
    f: &FragmentedOptions,
    pssh: &Vec<PsshBox>,
) -> (r: Result<(Vec<u8>, Option<usize>), MuxError>)
    requires
        tracks@.len() < u32::MAX,
    ensures
        match r {
            Ok((b, at)) => init_moov(track_views(tracks@), lists@, *f, pssh_views(pssh@)) matches Ok(
                (w, p),
            ) && b@ == w && (match (at, p) {
                (Some(x), Some(y)) => x == y,
                (None, None) => true,
                _ => false,
            }),
            Err(e) => init_moov(track_views(tracks@), lists@, *f, pssh_views(pssh@)) == Err::<
                (Seq<u8>, Option<int>),
                MuxError,
            >(e),
        },
{
    let mut body: Vec<u8> = build_mvhd(MOVIE_TIME_SCALE, 0, tracks.len() as u32 + 1);
    match build_traks(tracks, lists) {
        Err(e) => {
            return Err(e);
        },
        Ok(traks) => put_bytes(&mut body, traks.as_slice()),
    }
    let at: Option<usize> = if f.write_mehd {
        Some(body.len())
    } else {
        None
    };
    match build_mvex(tracks, f) {
        None => {
            return Err(MuxError::TooManyLevels);
        },
        Some(mvex) => put_bytes(&mut body, mvex.as_slice()),
    }
    match build_pssh_boxes(pssh) {
        Err(e) => {
            return Err(e);
        },
        Ok(headers) => put_bytes(&mut body, headers.as_slice()),
    }
    Ok((wrap_box(&MOOV, body.as_slice()), at))
}

/// Where the length of the presentation is to be recorded, its eight zero
/// bytes stand behind the headers of `moov`, `mvex` and `mehd`.
pub proof fn law_duration_field_in_place(
    t: Seq<TrackView>,
    lists: Seq<TrackEditList>,
    f: FragmentedOptions,
    pssh: Seq<PsshView>,
)
    requires
        init_moov(t, lists, f, pssh) is Ok,
    ensures
        (init_moov(t, lists, f, pssh)->Ok_0).1 matches Some(at) ==> holds_at(
            (init_moov(t, lists, f, pssh)->Ok_0).0,
            28 + at,
            be64(0),
        ),
{
    let traks = trak_boxes(t, lists)->Ok_0;
    let headers = pssh_boxes(pssh)->Ok_0;
    let before = boxed(MVHD, mvhd_body(MOVIE_TIME_SCALE, 0, (t.len() + 1) as u32)) + traks;
    let mvex = mvex_box(t, f);
    let moov = boxed(MOOV, before + mvex + headers);
    if f.write_mehd {
        assert(mvex.subrange(20, 28) =~= be64(0));
        let at = 8 + before.len() as int;
        assert(moov.subrange(at, at + mvex.len()) =~= mvex);
        assert(moov.subrange(at + 20, at + 28) =~= mvex.subrange(20, 28));
    }
}

} // verus!
