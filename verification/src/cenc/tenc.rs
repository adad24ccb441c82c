//! `tenc` and `seig`: the encryption parameters of a track and of a sample
//! group.

use crate::boxes::TENC;
use crate::bytes::{boxed, copy_range, id16_at, put_bytes, put_u8, wrap_box};
use crate::cenc::error::{Carrier, CencError};
use crate::cenc::types::{agrees, opt_bytes, SeigEntry, SeigView, TencBox, TencView};
use vstd::prelude::*;

verus! {

/// The IV widths in use.
pub open spec fn iv_width(n: int) -> bool {
    n == 0 || n == 8 || n == 16
}

/// A constant IV is there exactly where the samples are protected and carry
/// no IV of their own.
pub open spec fn wants_constant_iv(is_protected: u8, iv_size: u8) -> bool {
    is_protected == 1 && iv_size == 0
}

/// The constant IV that follows the fixed fields at `at`.
pub open spec fn constant_iv_of(
    c: Carrier,
    s: Seq<u8>,
    at: int,
    is_protected: u8,
    iv_size: u8,
) -> Result<Option<Seq<u8>>, CencError> {
    if wants_constant_iv(is_protected, iv_size) {
        if s.len() < at + 1 {
            Err(CencError::MissingConstantIvSize(c))
        } else if s[at] != 8 && s[at] != 16 {
            Err(CencError::ConstantIvSize(c, s[at] as u64))
        } else if s.len() < at + 1 + s[at] {
            Err(CencError::TruncatedConstantIv(c))
        } else {
            Ok(Some(s.subrange(at + 1, at + 1 + s[at])))
        }
    } else if !iv_width(iv_size as int) {
        Err(CencError::IvSize(c, iv_size as u64))
    } else {
        Ok(None)
    }
}

/// The record that a `tenc` body holds.
pub open spec fn tenc_of(s: Seq<u8>) -> Result<TencView, CencError> {
    if s.len() < 4 {
        Err(CencError::MissingHeader(Carrier::Tenc))
    } else if s.len() < 24 {
        Err(CencError::ShortPayload(Carrier::Tenc))
    } else {
        match constant_iv_of(Carrier::Tenc, s, 24, s[6], s[7]) {
            Err(e) => Err(e),
            Ok(iv) => Ok(
                TencView {
                    version: s[0],
                    is_protected: s[6],
                    per_sample_iv_size: s[7],
                    kid: s.subrange(8, 24),
                    crypt_byte_block: if s[0] == 0 {
                        0
                    } else {
                        s[5] / 16
                    },
                    skip_byte_block: if s[0] == 0 {
                        0
                    } else {
                        s[5] % 16
                    },
                    constant_iv: iv,
                },
            ),
        }
    }
}

/// The record that a `seig` entry holds. Bytes after its fields are ignored.
pub open spec fn seig_of(s: Seq<u8>) -> Result<SeigView, CencError> {
    if s.len() < 20 {
        Err(CencError::ShortPayload(Carrier::Seig))
    } else {
        match constant_iv_of(Carrier::Seig, s, 20, s[2], s[3]) {
            Err(e) => Err(e),
            Ok(iv) => Ok(
                SeigView {
                    crypt_byte_block: s[1] / 16,
                    skip_byte_block: s[1] % 16,
                    is_protected: s[2],
                    per_sample_iv_size: s[3],
                    kid: s.subrange(4, 20),
                    constant_iv: iv,
                },
            ),
        }
    }
}

/// Why the IV fields of a record cannot be written, if they cannot.
pub open spec fn iv_refusal(
    c: Carrier,
    is_protected: u8,
    iv_size: u8,
    constant_iv: Option<Seq<u8>>,
) -> Option<CencError> {
    if !iv_width(iv_size as int) {
        Some(CencError::BuildIvSize(c, iv_size as u64))
    } else {
        match constant_iv {
            Some(iv) => if !wants_constant_iv(is_protected, iv_size) {
                Some(CencError::ConstantIvNotRequired(c))
            } else if iv.len() != 8 && iv.len() != 16 {
                Some(CencError::BuildConstantIvSize(c, iv.len() as u64))
            } else {
                None
            },
            None => if wants_constant_iv(is_protected, iv_size) {
                Some(CencError::ConstantIvRequired(c))
            } else {
                None
            },
        }
    }
}

/// Why a `tenc` record cannot be written, if it cannot.
pub open spec fn tenc_refusal(t: TencView) -> Option<CencError> {
    if t.version > 1 {
        Some(CencError::UndefinedVersion(Carrier::Tenc, t.version))
    } else if t.version == 0 && (t.crypt_byte_block != 0 || t.skip_byte_block != 0) {
        Some(CencError::PatternNeedsVersionOne)
    } else if t.crypt_byte_block > 15 || t.skip_byte_block > 15 {
        Some(CencError::PatternComponent(Carrier::Tenc))
    } else {
        iv_refusal(Carrier::Tenc, t.is_protected, t.per_sample_iv_size, t.constant_iv)
    }
}

/// Why a `seig` entry cannot be written, if it cannot.
pub open spec fn seig_refusal(e: SeigView) -> Option<CencError> {
    if e.crypt_byte_block > 15 || e.skip_byte_block > 15 {
        Some(CencError::PatternComponent(Carrier::Seig))
    } else {
        iv_refusal(Carrier::Seig, e.is_protected, e.per_sample_iv_size, e.constant_iv)
    }
}

/// A constant IV on the wire: its size, then its bytes.
pub open spec fn constant_iv_wire(iv: Option<Seq<u8>>) -> Seq<u8> {
    match iv {
        Some(b) => seq![b.len() as u8] + b,
        None => Seq::empty(),
    }
}

/// The body of a `tenc` box.
pub open spec fn tenc_body(t: TencView) -> Seq<u8> {
    seq![
        t.version,
        0,
        0,
        0,
        0,
        (t.crypt_byte_block * 16 + t.skip_byte_block) as u8,
        t.is_protected,
        t.per_sample_iv_size,
    ] + t.kid + constant_iv_wire(t.constant_iv)
}

/// A `seig` entry on the wire.
pub open spec fn seig_body(e: SeigView) -> Seq<u8> {
    seq![
        0,
        (e.crypt_byte_block * 16 + e.skip_byte_block) as u8,
        e.is_protected,
        e.per_sample_iv_size,
    ] + e.kid + constant_iv_wire(e.constant_iv)
}

// ---------------------------------------------------------------------
// Parsing
// ---------------------------------------------------------------------

fn parse_constant_iv(
    c: Carrier,
    body: &[u8],
    at: usize,
    is_protected: u8,
    iv_size: u8,
) -> (r: Result<Option<Vec<u8>>, CencError>)
    requires
        at <= body@.len(),
    ensures
        match r {
            Ok(iv) => constant_iv_of(c, body@, at as int, is_protected, iv_size) == Ok::<
                Option<Seq<u8>>,
                CencError,
            >(opt_bytes(iv)),
            Err(e) => constant_iv_of(c, body@, at as int, is_protected, iv_size) == Err::<
                Option<Seq<u8>>,
                CencError,
            >(e),
        },
{
    if is_protected == 1 && iv_size == 0 {
        if body.len() == at {
            return Err(CencError::MissingConstantIvSize(c));
        }
        let size: u8 = body[at];
        if size != 8 && size != 16 {
            return Err(CencError::ConstantIvSize(c, size as u64));
        }
        let start: usize = at + 1;
        if body.len() - start < size as usize {
            return Err(CencError::TruncatedConstantIv(c));
        }
        Ok(Some(copy_range(body, start, start + size as usize)))
    } else if !(iv_size == 0 || iv_size == 8 || iv_size == 16) {
        Err(CencError::IvSize(c, iv_size as u64))
    } else {
        Ok(None)
    }
}

/// Parse a `tenc` body: what follows the box header.
pub fn parse_tenc(body: &[u8]) -> (r: Result<TencBox, CencError>)
    ensures
        agrees(r, tenc_of(body@)),
{
    if body.len() < 4 {
        return Err(CencError::MissingHeader(Carrier::Tenc));
    }
    if body.len() < 24 {
        return Err(CencError::ShortPayload(Carrier::Tenc));
    }
    let version: u8 = body[0];
    let packed: u8 = if version == 0 {
        0
    } else {
        body[5]
    };
    match parse_constant_iv(Carrier::Tenc, body, 24, body[6], body[7]) {
        Err(e) => Err(e),
        Ok(iv) => Ok(
            TencBox {
                version,
                default_is_protected: body[6],
                default_per_sample_iv_size: body[7],
                default_kid: id16_at(body, 8),
                default_crypt_byte_block: packed / 16,
                default_skip_byte_block: packed % 16,
                default_constant_iv: iv,
            },
        ),
    }
}

/// Parse a `seig` sample-group entry.
pub fn parse_seig(body: &[u8]) -> (r: Result<SeigEntry, CencError>)
    ensures
        agrees(r, seig_of(body@)),
{
    if body.len() < 20 {
        return Err(CencError::ShortPayload(Carrier::Seig));
    }
    match parse_constant_iv(Carrier::Seig, body, 20, body[2], body[3]) {
        Err(e) => Err(e),
        Ok(iv) => Ok(
            SeigEntry {
                crypt_byte_block: body[1] / 16,
                skip_byte_block: body[1] % 16,
                is_protected: body[2],
                per_sample_iv_size: body[3],
                kid: id16_at(body, 4),
                constant_iv: iv,
            },
        ),
    }
}

// ---------------------------------------------------------------------
// Building
// ---------------------------------------------------------------------

fn check_iv_fields(
    c: Carrier,
    is_protected: u8,
    iv_size: u8,
    constant_iv: &Option<Vec<u8>>,
) -> (r: Option<CencError>)
    ensures
        r == iv_refusal(c, is_protected, iv_size, opt_bytes(*constant_iv)),
{
    if !(iv_size == 0 || iv_size == 8 || iv_size == 16) {
        return Some(CencError::BuildIvSize(c, iv_size as u64));
    }
    let wanted: bool = is_protected == 1 && iv_size == 0;
    match constant_iv {
        Some(iv) => if !wanted {
            Some(CencError::ConstantIvNotRequired(c))
        } else if iv.len() != 8 && iv.len() != 16 {
            Some(CencError::BuildConstantIvSize(c, iv.len() as u64))
        } else {
            None
        },
        None => if wanted {
            Some(CencError::ConstantIvRequired(c))
        } else {
            None
        },
    }
}

fn put_constant_iv(out: &mut Vec<u8>, iv: &Option<Vec<u8>>)
    requires
        opt_bytes(*iv) matches Some(b) ==> b.len() < 256,
    ensures
        final(out)@ == old(out)@ + constant_iv_wire(opt_bytes(*iv)),
{
    if let Some(b) = iv {
        put_u8(out, b.len() as u8);
        put_bytes(out, b.as_slice());
    }
    assert(out@ =~= old(out)@ + constant_iv_wire(opt_bytes(*iv)));
}

/// Serialise a `tenc` box. Records that would not parse back are refused.
pub fn build_tenc_box(tenc: &TencBox) -> (r: Result<Vec<u8>, CencError>)
    ensures
        match r {
            Ok(b) => tenc_refusal(tenc@) is None && b@ == boxed(TENC, tenc_body(tenc@)),
            Err(e) => tenc_refusal(tenc@) == Some(e),
        },
{
    if tenc.version > 1 {
        return Err(CencError::UndefinedVersion(Carrier::Tenc, tenc.version));
    }
    if tenc.version == 0 && (tenc.default_crypt_byte_block != 0 || tenc.default_skip_byte_block
        != 0) {
        return Err(CencError::PatternNeedsVersionOne);
    }
    if tenc.default_crypt_byte_block > 15 || tenc.default_skip_byte_block > 15 {
        return Err(CencError::PatternComponent(Carrier::Tenc));
    }
    if let Some(e) = check_iv_fields(
        Carrier::Tenc,
        tenc.default_is_protected,
        tenc.default_per_sample_iv_size,
        &tenc.default_constant_iv,
    ) {
        return Err(e);
    }
    let mut body: Vec<u8> = Vec::new();
    body.push(tenc.version);
    body.push(0);
    body.push(0);
    body.push(0);
    body.push(0);
    body.push(tenc.default_crypt_byte_block * 16 + tenc.default_skip_byte_block);
    body.push(tenc.default_is_protected);
    body.push(tenc.default_per_sample_iv_size);
    put_bytes(&mut body, &tenc.default_kid);
    put_constant_iv(&mut body, &tenc.default_constant_iv);
    assert(body@ =~= tenc_body(tenc@));
    Ok(wrap_box(&TENC, body.as_slice()))
}

/// Serialise a `seig` entry. Records that would not parse back are refused.
pub fn build_seig_entry(entry: &SeigEntry) -> (r: Result<Vec<u8>, CencError>)
    ensures
        match r {
            Ok(b) => seig_refusal(entry@) is None && b@ == seig_body(entry@),
            Err(e) => seig_refusal(entry@) == Some(e),
        },
{
    if entry.crypt_byte_block > 15 || entry.skip_byte_block > 15 {
        return Err(CencError::PatternComponent(Carrier::Seig));
    }
    if let Some(e) = check_iv_fields(
        Carrier::Seig,
        entry.is_protected,
        entry.per_sample_iv_size,
        &entry.constant_iv,
    ) {
        return Err(e);
    }
    let mut out: Vec<u8> = Vec::new();
    out.push(0);
    out.push(entry.crypt_byte_block * 16 + entry.skip_byte_block);
    out.push(entry.is_protected);
    out.push(entry.per_sample_iv_size);
    put_bytes(&mut out, &entry.kid);
    put_constant_iv(&mut out, &entry.constant_iv);
    assert(out@ =~= seig_body(entry@));
    Ok(out)
}

// ---------------------------------------------------------------------
// Laws
// ---------------------------------------------------------------------

/// A `tenc` record that can be written parses back as it was, also with
/// more bytes behind it.
pub proof fn law_tenc_build_parse(t: TencView, tail: Seq<u8>)
    requires
        t.kid.len() == 16,
        tenc_refusal(t) is None,
    ensures
        tenc_of(tenc_body(t) + tail) == Ok::<TencView, CencError>(t),
{
    let s = tenc_body(t) + tail;
    assert(s.subrange(8, 24) =~= t.kid);
    if let Some(iv) = t.constant_iv {
        assert(s[24] == iv.len());
        assert(s.subrange(25, 25 + iv.len() as int) =~= iv);
    }
}

/// Every `tenc` body that parses, at a version that has a layout, gives a
/// record that can be written.
pub proof fn law_tenc_parsed_is_buildable(s: Seq<u8>)
    ensures
        tenc_of(s) matches Ok(t) ==> t.kid.len() == 16 && (t.version <= 1 ==> tenc_refusal(
            t,
        ) is None),
{
}

/// Parsing, writing and parsing again gives the same `tenc` record.
pub proof fn law_tenc_parse_build_parse(s: Seq<u8>)
    ensures
        tenc_of(s) matches Ok(t) ==> (tenc_refusal(t) is None ==> tenc_of(tenc_body(t)) == Ok::<
            TencView,
            CencError,
        >(t)),
{
    if let Ok(t) = tenc_of(s) {
        if tenc_refusal(t) is None {
            law_tenc_build_parse(t, Seq::empty());
            assert(tenc_body(t) + Seq::<u8>::empty() =~= tenc_body(t));
        }
    }
}

/// A `tenc` body whose reserved bytes and flags are zero is written again
/// byte for byte, up to the end of its fields.
pub proof fn law_tenc_rebuild_is_byte_exact(s: Seq<u8>)
    requires
        s.len() >= 24,
        s[0] <= 1,
        s[1] == 0,
        s[2] == 0,
        s[3] == 0,
        s[4] == 0,
        s[0] == 0 ==> s[5] == 0,
    ensures
        tenc_of(s) matches Ok(t) ==> tenc_body(t) == s.subrange(0, tenc_body(t).len() as int),
{
    if let Ok(t) = tenc_of(s) {
        assert(tenc_body(t) =~= s.subrange(0, tenc_body(t).len() as int));
    }
}

/// A `seig` entry that can be written parses back as it was, also with more
/// bytes behind it.
pub proof fn law_seig_build_parse(e: SeigView, tail: Seq<u8>)
    requires
        e.kid.len() == 16,
        seig_refusal(e) is None,
    ensures
        seig_of(seig_body(e) + tail) == Ok::<SeigView, CencError>(e),
{
    let s = seig_body(e) + tail;
    assert(s.subrange(4, 20) =~= e.kid);
    if let Some(iv) = e.constant_iv {
        assert(s[20] == iv.len());
        assert(s.subrange(21, 21 + iv.len() as int) =~= iv);
    }
}

/// Every `seig` entry that parses can be written, and parses again to the
/// same record.
pub proof fn law_seig_parse_build_parse(s: Seq<u8>)
    ensures
        seig_of(s) matches Ok(e) ==> seig_refusal(e) is None && seig_of(seig_body(e)) == Ok::<
            SeigView,
            CencError,
        >(e),
{
    if let Ok(e) = seig_of(s) {
        law_seig_build_parse(e, Seq::empty());
        assert(seig_body(e) + Seq::<u8>::empty() =~= seig_body(e));
    }
}

/// Bytes behind the fields of a `seig` entry change nothing.
pub proof fn law_seig_ignores_trailing_bytes(s: Seq<u8>, tail: Seq<u8>)
    ensures
        seig_of(s) matches Ok(e) ==> seig_of(s + tail) == Ok::<SeigView, CencError>(e),
{
    if let Ok(e) = seig_of(s) {
        let t = s + tail;
        assert(t.subrange(4, 20) =~= s.subrange(4, 20));
        if wants_constant_iv(s[2], s[3]) {
            let n = s[20] as int;
            assert(t.subrange(21, 21 + n) =~= s.subrange(21, 21 + n));
        }
    }
}

/// A constant IV that is cut off is refused.
proof fn lemma_cut_constant_iv(c: Carrier, s: Seq<u8>, at: int, iv: Seq<u8>)
    requires
        at <= s.len() < at + 1 + iv.len(),
        iv.len() == 8 || iv.len() == 16,
        s.len() > at ==> s[at] == iv.len(),
    ensures
        constant_iv_of(c, s, at, 1, 0) is Err,
{
}

/// Every body shorter than a written `tenc` body is refused.
pub proof fn law_truncated_tenc_is_refused(t: TencView, cut: int)
    requires
        t.kid.len() == 16,
        tenc_refusal(t) is None,
        0 <= cut < tenc_body(t).len(),
    ensures
        tenc_of(tenc_body(t).take(cut)) is Err,
{
    let s = tenc_body(t).take(cut);
    if cut >= 24 {
        assert(s[6] == t.is_protected && s[7] == t.per_sample_iv_size);
        let iv = t.constant_iv->0;
        if cut > 24 {
            assert(s[24] == iv.len());
        }
        lemma_cut_constant_iv(Carrier::Tenc, s, 24, iv);
    }
}

/// Everything shorter than a written `seig` entry is refused.
pub proof fn law_truncated_seig_is_refused(e: SeigView, cut: int)
    requires
        e.kid.len() == 16,
        seig_refusal(e) is None,
        0 <= cut < seig_body(e).len(),
    ensures
        seig_of(seig_body(e).take(cut)) is Err,
{
    let s = seig_body(e).take(cut);
    if cut >= 20 {
        assert(s[2] == e.is_protected && s[3] == e.per_sample_iv_size);
        let iv = e.constant_iv->0;
        if cut > 20 {
            assert(s[20] == iv.len());
        }
        lemma_cut_constant_iv(Carrier::Seig, s, 20, iv);
    }
}

} // verus!
