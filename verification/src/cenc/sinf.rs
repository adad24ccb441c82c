//! `sinf`: the protection scheme information of a protected sample entry.

use crate::boxes::{FRMA, SCHI, SCHM, SINF, TENC};
use crate::bytes::{be32, be32_at, boxed, put_bytes, put_u32, wrap_box};
use crate::cenc::error::CencError;
use crate::cenc::scheme::{decision_of, scheme_of, CencSchemeDecision};
use crate::cenc::tenc::{build_tenc_box, law_tenc_build_parse, tenc_body, tenc_of, tenc_refusal};
use crate::cenc::types::{CencScheme, TencBox, TencView};
use crate::reads::{lemma_box_body, lemma_read32, lemma_wire32};
use crate::seqs::{holds_at, lemma_holds_split, lemma_holds_within};
use vstd::prelude::*;

verus! {

/// The three boxes of a `sinf` body: the unprotected format, the scheme and
/// its version, the track defaults.
pub open spec fn sinf_body(
    original_format: [u8; 4],
    scheme_type: [u8; 4],
    scheme_version: u32,
    t: TencView,
) -> Seq<u8> {
    boxed(FRMA, original_format@) + boxed(
        SCHM,
        seq![0u8, 0, 0, 0] + scheme_type@ + be32(scheme_version),
    ) + boxed(SCHI, boxed(TENC, tenc_body(t)))
}

/// Why a `sinf` box cannot be written, if it cannot: the scheme and the
/// defaults do not fit together, or the defaults cannot be written.
pub open spec fn sinf_refusal(scheme_type: [u8; 4], t: TencView) -> Option<CencError> {
    match decision_of(scheme_of(scheme_type), t) {
        Err(e) => Some(e),
        Ok(_) => tenc_refusal(t),
    }
}

/// Serialise the `sinf` box of a protected sample entry.
pub fn build_sinf_box(
    original_format: [u8; 4],
    scheme_type: [u8; 4],
    scheme_version: u32,
    tenc: &TencBox,
) -> (r: Result<Vec<u8>, CencError>)
    ensures
        match r {
            Ok(b) => sinf_refusal(scheme_type, tenc@) is None && b@ == boxed(
                SINF,
                sinf_body(original_format, scheme_type, scheme_version, tenc@),
            ),
            Err(e) => sinf_refusal(scheme_type, tenc@) == Some(e),
        },
{
    match CencSchemeDecision::new(CencScheme::from_fourcc(&scheme_type), tenc.duplicate()) {
        Err(e) => {
            return Err(e);
        },
        Ok(_) => {},
    }
    let tenc_bytes: Vec<u8> = match build_tenc_box(tenc) {
        Err(e) => {
            return Err(e);
        },
        Ok(b) => b,
    };
    let frma: Vec<u8> = wrap_box(&FRMA, &original_format);
    let mut schm_body: Vec<u8> = Vec::new();
    put_u32(&mut schm_body, 0);
    put_bytes(&mut schm_body, &scheme_type);
    put_u32(&mut schm_body, scheme_version);
    assert(schm_body@ =~= seq![0u8, 0, 0, 0] + scheme_type@ + be32(scheme_version));
    let schm: Vec<u8> = wrap_box(&SCHM, schm_body.as_slice());
    let schi: Vec<u8> = wrap_box(&SCHI, tenc_bytes.as_slice());
    let mut body: Vec<u8> = Vec::new();
    put_bytes(&mut body, frma.as_slice());
    put_bytes(&mut body, schm.as_slice());
    put_bytes(&mut body, schi.as_slice());
    assert(body@ =~= sinf_body(original_format, scheme_type, scheme_version, tenc@));
    Ok(wrap_box(&SINF, body.as_slice()))
}

/// The body of a box stands eight bytes into it.
proof fn lemma_body_at(code: [u8; 4], body: Seq<u8>)
    ensures
        boxed(code, body).len() == 8 + body.len(),
        boxed(code, body).skip(8) == body,
{
    assert(boxed(code, body).skip(8) =~= body);
}

/// Where three boxes one after the other stand.
proof fn lemma_three(a: Seq<u8>, b: Seq<u8>, c: Seq<u8>)
    ensures
        (a + b + c).subrange(0, a.len() as int) == a,
        (a + b + c).subrange(a.len() as int, (a.len() + b.len()) as int) == b,
        (a + b + c).skip((a.len() + b.len()) as int) == c,
{
    assert((a + b + c).subrange(0, a.len() as int) =~= a);
    assert((a + b + c).subrange(a.len() as int, (a.len() + b.len()) as int) =~= b);
    assert((a + b + c).skip((a.len() + b.len()) as int) =~= c);
}

/// The scheme, its version and the track defaults stand in a `sinf` box
/// where its layout says, and the defaults read back as they were given.
pub proof fn law_sinf_defaults_read_back(
    original_format: [u8; 4],
    scheme_type: [u8; 4],
    scheme_version: u32,
    t: TencView,
)
    requires
        t.kid.len() == 16,
        sinf_refusal(scheme_type, t) is None,
    ensures
        ({
            let b = boxed(SINF, sinf_body(original_format, scheme_type, scheme_version, t));
            &&& holds_at(b, 16, original_format@)
            &&& holds_at(b, 32, scheme_type@)
            &&& holds_at(b, 36, be32(scheme_version))
            &&& holds_at(b, 56, tenc_body(t))
            &&& tenc_of(b.skip(56)) == Ok::<TencView, CencError>(t)
        }),
{
    let frma = boxed(FRMA, original_format@);
    let head = seq![0u8, 0, 0, 0];
    let schm = boxed(SCHM, head + scheme_type@ + be32(scheme_version));
    let tenc = boxed(TENC, tenc_body(t));
    let schi = boxed(SCHI, tenc);
    let body = frma + schm + schi;
    let b = boxed(SINF, body);
    lemma_body_at(FRMA, original_format@);
    lemma_body_at(SCHM, head + scheme_type@ + be32(scheme_version));
    lemma_three(head, scheme_type@, be32(scheme_version));
    lemma_body_at(TENC, tenc_body(t));
    lemma_body_at(SCHI, tenc);
    lemma_three(frma, schm, schi);
    lemma_body_at(SINF, body);
    assert(b.subrange(16, 20) =~= frma.skip(8));
    assert(b.subrange(32, 36) =~= schm.skip(8).subrange(4, 8));
    assert(b.subrange(36, 40) =~= schm.skip(8).skip(8));
    assert(b.skip(56) =~= schi.skip(8).skip(8));
    assert(b.subrange(56, b.len() as int) =~= b.skip(56));
    law_tenc_build_parse(t, Seq::empty());
    assert(tenc_body(t) + Seq::<u8>::empty() =~= tenc_body(t));
}

/// A `sinf` box holds the unprotected format, the scheme with its version,
/// and the track defaults, each in its own box, in that order and with
/// nothing between them.
pub proof fn law_sinf_layout(
    original_format: [u8; 4],
    scheme_type: [u8; 4],
    scheme_version: u32,
    t: TencView,
)
    ensures
        ({
            let b = boxed(SINF, sinf_body(original_format, scheme_type, scheme_version, t));
            &&& b.len() == 56 + tenc_body(t).len()
            &&& b.subrange(4, 8) == SINF@
            &&& holds_at(b, 8, boxed(FRMA, original_format@))
            &&& be32_at(b, 20) == 20
            &&& b.subrange(24, 28) == SCHM@
            &&& be32_at(b, 28) == 0
            &&& b.subrange(32, 36) == scheme_type@
            &&& be32_at(b, 36) == scheme_version
            &&& holds_at(b, 40, boxed(SCHI, boxed(TENC, tenc_body(t))))
        }),
{
    lemma_box_body(TENC, tenc_body(t));
    lemma_sinf_parts(original_format, scheme_type, scheme_version, boxed(TENC, tenc_body(t)));
}

/// Where the boxes of a `sinf` box stand, whatever the last one holds.
proof fn lemma_sinf_parts(
    original_format: [u8; 4],
    scheme_type: [u8; 4],
    scheme_version: u32,
    rest: Seq<u8>,
)
    ensures
        ({
            let frma = boxed(FRMA, original_format@);
            let schm = boxed(SCHM, seq![0u8, 0, 0, 0] + scheme_type@ + be32(scheme_version));
            let b = boxed(SINF, frma + schm + boxed(SCHI, rest));
            &&& b.len() == 48 + rest.len()
            &&& b.subrange(4, 8) == SINF@
            &&& holds_at(b, 8, frma)
            &&& be32_at(b, 20) == 20
            &&& b.subrange(24, 28) == SCHM@
            &&& be32_at(b, 28) == 0
            &&& b.subrange(32, 36) == scheme_type@
            &&& be32_at(b, 36) == scheme_version
            &&& holds_at(b, 40, boxed(SCHI, rest))
        }),
{
    let frma = boxed(FRMA, original_format@);
    let schm = boxed(SCHM, seq![0u8, 0, 0, 0] + scheme_type@ + be32(scheme_version));
    let schi = boxed(SCHI, rest);
    let b = boxed(SINF, frma + schm + schi);
    lemma_wire32(scheme_version);
    lemma_box_body(FRMA, original_format@);
    lemma_box_body(SCHM, seq![0u8, 0, 0, 0] + scheme_type@ + be32(scheme_version));
    lemma_box_body(SCHI, rest);
    lemma_box_body(SINF, frma + schm + schi);
    lemma_holds_split(b, 8, frma + schm, schi);
    lemma_holds_split(b, 8, frma, schm);
    lemma_scheme_in(b, 20, scheme_type, scheme_version);
}

/// What a reader finds where a scheme box stands.
proof fn lemma_scheme_in(b: Seq<u8>, at: int, scheme_type: [u8; 4], scheme_version: u32)
    requires
        holds_at(b, at, boxed(SCHM, seq![0u8, 0, 0, 0] + scheme_type@ + be32(scheme_version))),
    ensures
        be32_at(b, at) == 20,
        b.subrange(at + 4, at + 8) == SCHM@,
        be32_at(b, at + 8) == 0,
        b.subrange(at + 12, at + 16) == scheme_type@,
        be32_at(b, at + 16) == scheme_version,
{
    let head = seq![0u8, 0, 0, 0];
    let version = be32(scheme_version);
    let body = head + scheme_type@ + version;
    let x = boxed(SCHM, body);
    lemma_wire32(scheme_version);
    lemma_box_body(SCHM, body);
    assert(b.subrange(at, at + x.len()) == x);
    assert(b.subrange(at + 4, at + 8) =~= x.subrange(4, 8));
    lemma_holds_within(b, at, x, 8, body);
    lemma_holds_split(b, at + 8, head + scheme_type@, version);
    lemma_holds_split(b, at + 8, head, scheme_type@);
    lemma_read32(b, at, x);
    lemma_read32(b, at + 8, head);
    lemma_read32(b, at + 16, version);
}

} // verus!
