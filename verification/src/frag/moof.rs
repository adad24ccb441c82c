//! `moof` and `mdat`: a movie fragment and its media data.

use crate::boxes::{MDAT, MOOF, PSSH, TFHD, TRAF, TRUN};
use crate::bytes::{boxed, low32, put_bytes, wrap_box};
use crate::cenc::pssh::{build_pssh_box, pssh_body, pssh_refusal};
use crate::cenc::types::{sample_views as senc_views, PsshBox, PsshView};
use crate::frag::error::MuxError;
use crate::frag::fields::{build_mfhd, build_tfdt, mfhd_box, tfdt_box};
use crate::frag::protect::{
    append_traf_cenc_boxes, append_traf_seig_groups, aux_boxes, aux_refusal, find_subsamples,
    group_boxes, groups_refusal, has_aux_info,
};
use crate::frag::run::{
    build_tfhd, build_trun, defaults_of, media_of, sample_views, tfhd_body, trun_body,
    FragmentDefaults, PendingSample,
};
use crate::frag::track::{as_signed, wrap32, FragTrackState, TrackView};
use crate::seqs::{joined, lemma_joined_all, lemma_joined_none, lemma_joined_step};
use vstd::prelude::*;

verus! {

/// The values of tracks.
pub open spec fn track_views(t: Seq<FragTrackState>) -> Seq<TrackView> {
    Seq::new(t.len(), |i: int| t[i]@)
}

// ---------------------------------------------------------------------
// A track fragment
// ---------------------------------------------------------------------

/// The two headers of a track fragment.
pub open spec fn traf_head(t: TrackView) -> Seq<u8> {
    boxed(TFHD, tfhd_body(t.track_id, defaults_of(t.pending))) + tfdt_box(t.next_bmdt)
}

/// How far into the movie fragment the auxiliary information stands, for a
/// track fragment `pos` bytes into the body of the movie fragment: behind
/// the headers of `moof`, `traf` and `senc` and the sample count.
pub open spec fn aux_offset(t: TrackView, pos: int) -> int {
    8 + pos + 8 + traf_head(t).len() + 16
}

/// Why a track fragment cannot be written, if it cannot.
#[verifier::opaque]
pub open spec fn traf_refusal(t: TrackView, pos: int) -> Option<MuxError> {
    if aux_refusal(t.senc, t.pending.len()) is Some {
        aux_refusal(t.senc, t.pending.len())
    } else if groups_refusal(t.seig, t.pending.len()) is Some {
        groups_refusal(t.seig, t.pending.len())
    } else if has_aux_info(t.senc) && aux_offset(t, pos) > u32::MAX {
        Some(MuxError::AuxInfoOffset)
    } else {
        None
    }
}

/// What follows the headers of a track fragment and precedes the run.
pub open spec fn traf_middle(t: TrackView, pos: int) -> Seq<u8> {
    aux_boxes(t.senc, aux_offset(t, pos) as u32) + group_boxes(t.seig)
}

/// The run of a track fragment.
pub open spec fn traf_run(t: TrackView, data_offset: i32) -> Seq<u8> {
    boxed(TRUN, trun_body(t.pending, data_offset, defaults_of(t.pending)))
}

/// A track fragment `pos` bytes into the body of its movie fragment.
#[verifier::opaque]
pub open spec fn traf_box(t: TrackView, data_offset: i32, pos: int) -> Seq<u8> {
    boxed(TRAF, traf_head(t) + traf_middle(t, pos) + traf_run(t, data_offset))
}

/// Serialise a track fragment `pos` bytes into the body of its movie
/// fragment.
pub fn build_traf(t: &FragTrackState, data_offset: i32, pos: usize) -> (r: Result<
    Vec<u8>,
    MuxError,
>)
    ensures
        match r {
            Ok(b) => traf_refusal(t@, pos as int) is None && b@ == traf_box(
                t@,
                data_offset,
                pos as int,
            ),
            Err(e) => traf_refusal(t@, pos as int) == Some(e),
        },
{
    proof {
        reveal(traf_refusal);
        reveal(traf_box);
    }
    let defaults: FragmentDefaults = FragmentDefaults::for_track(&t.pending);
    let mut body: Vec<u8> = build_tfhd(t.track_id, defaults);
    put_bytes(&mut body, build_tfdt(t.next_bmdt).as_slice());
    assert(body@ == traf_head(t@));
    let offset: u128 = 32 + pos as u128 + body.len() as u128;
    assert(offset == aux_offset(t@, pos as int));
    let fits: bool = offset <= 0xFFFF_FFFF;
    let field: u32 = if fits {
        offset as u32
    } else {
        0
    };
    match append_traf_cenc_boxes(&mut body, &t.pending_senc, t.pending.len(), field) {
        Err(e) => {
            return Err(e);
        },
        Ok(_) => {},
    }
    let ghost with_aux = body@;
    match append_traf_seig_groups(&mut body, &t.pending_seig, t.pending.len()) {
        Err(e) => {
            return Err(e);
        },
        Ok(_) => {},
    }
    if !fits && carries_aux_info(t) {
        return Err(MuxError::AuxInfoOffset);
    }
    proof {
        if !has_aux_info(t@.senc) {
            assert(aux_boxes(t@.senc, field) == aux_boxes(
                t@.senc,
                aux_offset(t@, pos as int) as u32,
            ));
        }
    }
    assert(body@ =~= traf_head(t@) + traf_middle(t@, pos as int));
    put_bytes(&mut body, build_trun(&t.pending, data_offset, defaults).as_slice());
    Ok(wrap_box(&TRAF, body.as_slice()))
}

/// Whether a track fragment has auxiliary information.
fn carries_aux_info(t: &FragTrackState) -> (r: bool)
    ensures
        r == has_aux_info(t@.senc),
{
    if t.pending_senc.len() == 0 {
        return false;
    }
    assert(senc_views(t.pending_senc@)[0] == t.pending_senc@[0]@);
    t.pending_senc[0].initialization_vector.len() > 0 || find_subsamples(&t.pending_senc)
}

// ---------------------------------------------------------------------
// The media data
// ---------------------------------------------------------------------

/// The bytes of all pending samples, track by track.
pub open spec fn all_media(t: Seq<TrackView>) -> Seq<u8>
    decreases t.len(),
{
    if t.len() == 0 {
        Seq::empty()
    } else {
        all_media(t.drop_last()) + media_of(t.last().pending)
    }
}

/// Append the bytes of samples.
fn put_media(out: &mut Vec<u8>, pending: &Vec<PendingSample>)
    ensures
        final(out)@ == old(out)@ + media_of(sample_views(pending@)),
{
    let ghost s = sample_views(pending@);
    let ghost parts = Seq::new(s.len(), |i: int| s[i].data);
    let ghost head = out@;
    let mut i: usize = 0;
    proof {
        lemma_joined_none(parts);
    }
    assert(out@ =~= head + joined(parts.take(0)));
    while i < pending.len()
        invariant
            i <= pending.len(),
            s == sample_views(pending@),
            parts == Seq::new(s.len(), |i: int| s[i].data),
            out@ == head + joined(parts.take(i as int)),
        decreases pending.len() - i,
    {
        put_bytes(out, pending[i].data.as_slice());
        proof {
            lemma_joined_step(parts, i as int);
            assert(out@ =~= head + joined(parts.take(i + 1)));
        }
        i = i + 1;
    }
    proof {
        lemma_joined_all(parts);
    }
}

/// Serialise the `mdat` box of the pending samples.
pub fn build_mdat(tracks: &Vec<FragTrackState>) -> (r: Vec<u8>)
    ensures
        r@ == boxed(MDAT, all_media(track_views(tracks@))),
{
    let ghost v = track_views(tracks@);
    let mut payload: Vec<u8> = Vec::new();
    let mut i: usize = 0;
    assert(v.take(0) =~= Seq::<TrackView>::empty());
    while i < tracks.len()
        invariant
            i <= tracks.len(),
            v == track_views(tracks@),
            payload@ == all_media(v.take(i as int)),
        decreases tracks.len() - i,
    {
        put_media(&mut payload, &tracks[i].pending);
        assert(v.take(i + 1).drop_last() =~= v.take(i as int));
        assert(v.take(i + 1).last() == v[i as int]);
        i = i + 1;
    }
    assert(v.take(tracks.len() as int) =~= v);
    wrap_box(&MDAT, payload.as_slice())
}

// ---------------------------------------------------------------------
// The movie fragment
// ---------------------------------------------------------------------

/// The protection system headers as boxes, or the first that cannot be
/// written.
pub open spec fn pssh_boxes(p: Seq<PsshView>) -> Result<Seq<u8>, MuxError>
    decreases p.len(),
{
    if p.len() == 0 {
        Ok(Seq::empty())
    } else {
        match pssh_boxes(p.drop_last()) {
            Err(e) => Err(e),
            Ok(before) => match pssh_refusal(p.last()) {
                Some(e) => Err(MuxError::Cenc(e)),
                None => Ok(before + boxed(PSSH, pssh_body(p.last()))),
            },
        }
    }
}

/// The data offset of a run whose samples start `at` bytes into the media
/// data, when the media data starts at `base`.
pub open spec fn data_offset(base: Option<int>, at: nat) -> i32 {
    match base {
        Some(b) => wrap32(b + at),
        None => 0,
    }
}

/// `head` and the track fragments of all tracks with pending samples, or
/// why one cannot be written.
pub open spec fn moof_body(t: Seq<TrackView>, head: Seq<u8>, base: Option<int>) -> Result<
    Seq<u8>,
    MuxError,
>
    decreases t.len(),
{
    if t.len() == 0 {
        Ok(head)
    } else {
        match moof_body(t.drop_last(), head, base) {
            Err(e) => Err(e),
            Ok(before) => if t.last().pending.len() == 0 {
                Ok(before)
            } else {
                match traf_refusal(t.last(), before.len() as int) {
                    Some(e) => Err(e),
                    None => Ok(
                        before + traf_box(
                            t.last(),
                            data_offset(base, all_media(t.drop_last()).len()),
                            before.len() as int,
                        ),
                    ),
                }
            },
        }
    }
}

/// A movie fragment whose media data starts at `base`.
#[verifier::opaque]
pub open spec fn moof_at(
    sequence: u32,
    t: Seq<TrackView>,
    pssh: Seq<PsshView>,
    base: Option<int>,
) -> Result<Seq<u8>, MuxError> {
    match pssh_boxes(pssh) {
        Err(e) => Err(e),
        Ok(headers) => match moof_body(t, mfhd_box(sequence) + headers, base) {
            Err(e) => Err(e),
            Ok(body) => Ok(boxed(MOOF, body)),
        },
    }
}

/// The movie fragment of the pending samples: its media data follows right
/// behind, with a header of eight bytes.
pub open spec fn moof_of(sequence: u32, t: Seq<TrackView>, pssh: Seq<PsshView>) -> Result<
    Seq<u8>,
    MuxError,
> {
    match moof_at(sequence, t, pssh, None) {
        Err(e) => Err(e),
        Ok(m) => moof_at(sequence, t, pssh, Some(m.len() as int + 8)),
    }
}

/// The values of protection system headers.
pub open spec fn pssh_views(p: Seq<PsshBox>) -> Seq<PsshView> {
    Seq::new(p.len(), |i: int| p[i]@)
}

/// Protection system headers, one after the other.
#[verifier::loop_isolation(false)]
pub fn build_pssh_boxes(pssh: &Vec<PsshBox>) -> (r: Result<Vec<u8>, MuxError>)
    ensures
        match r {
            Ok(b) => pssh_boxes(pssh_views(pssh@)) == Ok::<Seq<u8>, MuxError>(b@),
            Err(e) => pssh_boxes(pssh_views(pssh@)) == Err::<Seq<u8>, MuxError>(e),
        },
{
    let ghost v = pssh_views(pssh@);
    let mut out: Vec<u8> = Vec::new();
    let mut i: usize = 0;
    assert(v.take(0) =~= Seq::<PsshView>::empty());
    assert(out@ =~= Seq::<u8>::empty());
    while i < pssh.len()
        invariant
            i <= pssh.len(),
            pssh_boxes(v.take(i as int)) == Ok::<Seq<u8>, MuxError>(out@),
        decreases pssh.len() - i,
    {
        assert(v.take(i + 1).drop_last() =~= v.take(i as int));
        assert(v.take(i + 1).last() == v[i as int]);
        match build_pssh_box(&pssh[i]) {
            Ok(b) => put_bytes(&mut out, b.as_slice()),
            Err(e) => {
                proof {
                    lemma_pssh_err_stays(v, i + 1);
                }
                return Err(MuxError::Cenc(e));
            },
        }
        i = i + 1;
    }
    assert(v.take(pssh.len() as int) =~= v);
    Ok(out)
}

/// The first header that cannot be written decides.
proof fn lemma_pssh_err_stays(p: Seq<PsshView>, n: int)
    requires
        0 <= n <= p.len(),
        pssh_boxes(p.take(n)) is Err,
    ensures
        pssh_boxes(p) == pssh_boxes(p.take(n)),
    decreases p.len(),
{
    if n < p.len() {
        assert(p.drop_last().take(n) =~= p.take(n));
        lemma_pssh_err_stays(p.drop_last(), n);
    } else {
        assert(p.take(n) =~= p);
    }
}

/// The first track fragment that cannot be written decides.
proof fn lemma_moof_err_stays(t: Seq<TrackView>, n: int, head: Seq<u8>, base: Option<int>)
    requires
        0 <= n <= t.len(),
        moof_body(t.take(n), head, base) is Err,
    ensures
        moof_body(t, head, base) == moof_body(t.take(n), head, base),
    decreases t.len(),
{
    if n < t.len() {
        assert(t.drop_last().take(n) =~= t.take(n));
        lemma_moof_err_stays(t.drop_last(), n, head, base);
    } else {
        assert(t.take(n) =~= t);
    }
}

/// Of the base of a data offset only the low 32 bits count.
proof fn lemma_offset_bits(base: int, at: nat)
    ensures
        data_offset(Some(base), at) == data_offset(Some(base % 0x1_0000_0000), at),
{
    assert((base + at) % 0x1_0000_0000 == (base % 0x1_0000_0000 + at) % 0x1_0000_0000);
}

/// The same of the track fragments.
proof fn lemma_base_bits(t: Seq<TrackView>, head: Seq<u8>, base: int)
    ensures
        moof_body(t, head, Some(base)) == moof_body(t, head, Some(base % 0x1_0000_0000)),
    decreases t.len(),
{
    if t.len() > 0 {
        lemma_base_bits(t.drop_last(), head, base);
        lemma_offset_bits(base, all_media(t.drop_last()).len());
    }
}

/// The same of a whole movie fragment.
proof fn lemma_moof_base_bits(sequence: u32, t: Seq<TrackView>, p: Seq<PsshView>, base: int)
    ensures
        moof_at(sequence, t, p, Some(base)) == moof_at(
            sequence,
            t,
            p,
            Some(base % 0x1_0000_0000),
        ),
{
    reveal(moof_at);
    if let Ok(headers) = pssh_boxes(p) {
        lemma_base_bits(t, mfhd_box(sequence) + headers, base);
    }
}

/// How many bytes samples have, to 32 bits.
fn media_len(pending: &Vec<PendingSample>) -> (r: u32)
    ensures
        r == media_of(sample_views(pending@)).len() % 0x1_0000_0000,
{
    let ghost s = sample_views(pending@);
    let ghost parts = Seq::new(s.len(), |i: int| s[i].data);
    let mut total: u32 = 0;
    let mut i: usize = 0;
    proof {
        lemma_joined_none(parts);
    }
    while i < pending.len()
        invariant
            i <= pending.len(),
            s == sample_views(pending@),
            parts == Seq::new(s.len(), |i: int| s[i].data),
            total == joined(parts.take(i as int)).len() % 0x1_0000_0000,
        decreases pending.len() - i,
    {
        total = total.wrapping_add(low32(pending[i].data.len()));
        proof {
            lemma_joined_step(parts, i as int);
        }
        i = i + 1;
    }
    proof {
        lemma_joined_all(parts);
    }
    total
}

/// The base of data offsets as a number.
pub open spec fn base_of(base: Option<u32>) -> Option<int> {
    match base {
        Some(b) => Some(b as int),
        None => None,
    }
}

/// The data offset of a run whose samples start `at` bytes into the media
/// data, to 32 bits.
fn offset_from(base: Option<u32>, at: u32) -> (r: i32)
    ensures
        forall|n: nat| n % 0x1_0000_0000 == at ==> r == #[trigger] data_offset(base_of(base), n),
{
    match base {
        None => 0,
        Some(b) => {
            let sum: u32 = b.wrapping_add(at);
            assert forall|n: nat| n % 0x1_0000_0000 == at implies wrap32(sum as int)
                == #[trigger] data_offset(base_of(base), n) by {
                assert((b + n) % 0x1_0000_0000 == (b + at) % 0x1_0000_0000);
            }
            as_signed(sum)
        },
    }
}

/// Append the track fragment of one track, if it has pending samples.
fn append_traf(
    body: &mut Vec<u8>,
    tracks: &Vec<FragTrackState>,
    i: usize,
    at: u32,
    base: Option<u32>,
    head: Ghost<Seq<u8>>,
) -> (r: Result<(), MuxError>)
    requires
        i < tracks@.len(),
        moof_body(track_views(tracks@).take(i as int), head@, base_of(base)) == Ok::<
            Seq<u8>,
            MuxError,
        >(old(body)@),
        at == all_media(track_views(tracks@).take(i as int)).len() % 0x1_0000_0000,
    ensures
        match r {
            Ok(_) => moof_body(track_views(tracks@).take(i + 1), head@, base_of(base)) == Ok::<
                Seq<u8>,
                MuxError,
            >(final(body)@),
            Err(e) => moof_body(track_views(tracks@).take(i + 1), head@, base_of(base)) == Err::<
                Seq<u8>,
                MuxError,
            >(e) && final(body)@ == old(body)@,
        },
{
    let ghost v = track_views(tracks@);
    let ghost done = v.take(i as int);
    assert(v.take(i + 1).drop_last() =~= done);
    assert(v.take(i + 1).last() == v[i as int]);
    assert(v[i as int].pending.len() == tracks@[i as int].pending@.len());
    if tracks[i].pending.len() == 0 {
        return Ok(());
    }
    let offset: i32 = offset_from(base, at);
    assert(offset == data_offset(base_of(base), all_media(done).len()));
    match build_traf(&tracks[i], offset, body.len()) {
        Err(e) => Err(e),
        Ok(b) => {
            put_bytes(body, b.as_slice());
            Ok(())
        },
    }
}

/// `head` and the track fragments of all tracks with pending samples.
#[verifier::loop_isolation(false)]
fn build_trafs(head: Vec<u8>, tracks: &Vec<FragTrackState>, base: Option<u32>) -> (r: Result<
    Vec<u8>,
    MuxError,
>)
    ensures
        match r {
            Ok(b) => moof_body(track_views(tracks@), head@, base_of(base)) == Ok::<
                Seq<u8>,
                MuxError,
            >(b@),
            Err(e) => moof_body(track_views(tracks@), head@, base_of(base)) == Err::<
                Seq<u8>,
                MuxError,
            >(e),
        },
{
    let ghost v = track_views(tracks@);
    let ghost start = head@;
    let mut body: Vec<u8> = head;
    let mut at: u32 = 0;
    let mut i: usize = 0;
    assert(v.take(0) =~= Seq::<TrackView>::empty());
    while i < tracks.len()
        invariant
            i <= tracks.len(),
            moof_body(v.take(i as int), start, base_of(base)) == Ok::<Seq<u8>, MuxError>(body@),
            at == all_media(v.take(i as int)).len() % 0x1_0000_0000,
        decreases tracks.len() - i,
    {
        match append_traf(&mut body, tracks, i, at, base, Ghost(start)) {
            Err(e) => {
                proof {
                    lemma_moof_err_stays(v, i + 1, start, base_of(base));
                }
                return Err(e);
            },
            Ok(_) => {},
        }
        at = at.wrapping_add(media_len(&tracks[i].pending));
        assert(v.take(i + 1).drop_last() =~= v.take(i as int));
        assert(v.take(i + 1).last() == v[i as int]);
        i = i + 1;
    }
    assert(v.take(tracks.len() as int) =~= v);
    Ok(body)
}

/// Serialise a movie fragment whose media data starts at `base`.
fn build_moof_inner(
    sequence: u32,
    tracks: &Vec<FragTrackState>,
    pssh: &Vec<PsshBox>,
    base: Option<u32>,
) -> (r: Result<Vec<u8>, MuxError>)
    ensures
        match r {
            Ok(b) => moof_at(sequence, track_views(tracks@), pssh_views(pssh@), base_of(base))
                == Ok::<Seq<u8>, MuxError>(b@),
            Err(e) => moof_at(sequence, track_views(tracks@), pssh_views(pssh@), base_of(base))
                == Err::<Seq<u8>, MuxError>(e),
        },
{
    reveal(moof_at);
    let mut body: Vec<u8> = build_mfhd(sequence);
    match build_pssh_boxes(pssh) {
        Err(e) => {
            return Err(e);
        },
        Ok(headers) => put_bytes(&mut body, headers.as_slice()),
    }
    match build_trafs(body, tracks, base) {
        Err(e) => Err(e),
        Ok(whole) => Ok(wrap_box(&MOOF, whole.as_slice())),
    }
}

/// Serialise the movie fragment of the pending samples. Its size, which the
/// data offsets need, comes from a first pass without them.
pub fn build_moof(sequence: u32, tracks: &Vec<FragTrackState>, pssh: &Vec<PsshBox>) -> (r: Result<
    Vec<u8>,
    MuxError,
>)
    ensures
        match r {
            Ok(b) => moof_of(sequence, track_views(tracks@), pssh_views(pssh@)) == Ok::<
                Seq<u8>,
                MuxError,
            >(b@),
            Err(e) => moof_of(sequence, track_views(tracks@), pssh_views(pssh@)) == Err::<
                Seq<u8>,
                MuxError,
            >(e),
        },
{
    match build_moof_inner(sequence, tracks, pssh, None) {
        Err(e) => Err(e),
        Ok(sized) => {
            let base: u32 = low32(sized.len()).wrapping_add(8);
            assert(base == (sized@.len() as int + 8) % 0x1_0000_0000);
            proof {
                lemma_moof_base_bits(
                    sequence,
                    track_views(tracks@),
                    pssh_views(pssh@),
                    sized@.len() as int + 8,
                );
            }
            build_moof_inner(sequence, tracks, pssh, Some(base))
        },
    }
}

} // verus!
