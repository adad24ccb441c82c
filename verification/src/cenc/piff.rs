//! The PIFF `uuid` boxes: the forms that `tenc`, `senc` and `pssh` had
//! before they got types of their own.

use crate::boxes::UUID;
use crate::bytes::{
    be24, be24_at, boxed, id16_at, lemma_be24_at, put_bytes, put_u24, put_u32, put_u8,
    u24_at, wrap_box,
};
use crate::cenc::error::{Carrier, CencError};
use crate::cenc::pssh::{
    law_pssh_build_parse, law_truncated_pssh_is_refused, parse_pssh, pssh_body, pssh_ids_wf,
    pssh_of, pssh_refusal,
};
use crate::cenc::scheme::{decision_of, mode_of, CencSchemeDecision};
use crate::cenc::senc::{
    build_senc_sample_table, law_parsed_table_is_buildable, law_table_build_parse,
    law_truncated_table_is_refused, min_entry, parse_senc_sample_table, shared_iv_size, table_of,
    table_refusal, table_wire, MAX_EMPTY_ENTRIES,
};
use crate::cenc::tenc::iv_width;
use crate::cenc::types::{
    agrees, copy_samples, flag0, flag1, sample_views, CencScheme, CipherMode, PsshBox, PsshView,
    SencBox, SencSample, SencSampleView, SencView, TencBox, TencView,
};
use vstd::prelude::*;

verus! {

/// The user type of the PIFF sample encryption box.
pub const PIFF_SENC_USERTYPE: [u8; 16] = [
    0xA2,
    0x39,
    0x4F,
    0x52,
    0x5A,
    0x9B,
    0x4F,
    0x14,
    0xA2,
    0x44,
    0x6C,
    0x42,
    0x7C,
    0x64,
    0x8D,
    0xF4,
];

/// The user type of the PIFF track encryption box.
pub const PIFF_TENC_USERTYPE: [u8; 16] = [
    0x89,
    0x74,
    0xDB,
    0xCE,
    0x7B,
    0xE7,
    0x4C,
    0x51,
    0x84,
    0xF9,
    0x71,
    0x48,
    0xF9,
    0x88,
    0x25,
    0x54,
];

/// The user type of the PIFF protection system header box.
pub const PIFF_PSSH_USERTYPE: [u8; 16] = [
    0xD0,
    0x8A,
    0x4F,
    0x18,
    0x10,
    0xF3,
    0x4A,
    0x82,
    0xB6,
    0xC8,
    0x32,
    0xD8,
    0xAB,
    0xA1,
    0x83,
    0xD3,
];

/// PIFF algorithm number: not encrypted.
pub const PIFF_ALGORITHM_NONE: u32 = 0x0;

/// PIFF algorithm number: AES-128 in counter mode.
pub const PIFF_ALGORITHM_AES_CTR: u32 = 0x1;

/// PIFF algorithm number: AES-128 in CBC mode.
pub const PIFF_ALGORITHM_AES_CBC: u32 = 0x2;

/// A `uuid` box: the user type stands between the header and the body.
pub open spec fn uuid_boxed(usertype: [u8; 16], body: Seq<u8>) -> Seq<u8> {
    boxed(UUID, usertype@ + body)
}

/// Put `body` into a `uuid` box.
pub fn wrap_uuid_box(usertype: &[u8; 16], body: &[u8]) -> (r: Vec<u8>)
    ensures
        r@ == uuid_boxed(*usertype, body@),
{
    let mut inner: Vec<u8> = Vec::new();
    put_bytes(&mut inner, usertype);
    put_bytes(&mut inner, body);
    assert(inner@ =~= usertype@ + body@);
    wrap_box(&UUID, inner.as_slice())
}

// ---------------------------------------------------------------------
// Track encryption
// ---------------------------------------------------------------------

/// The PIFF track encryption record.
#[derive(Clone, Debug, PartialEq, Eq)]
pub struct PiffTencBox {
    /// The algorithm number, 24 bits on the wire.
    pub algorithm_id: u32,
    /// Width of the per-sample IV: 0, 8 or 16.
    pub iv_size: u8,
    /// The default key identifier.
    pub kid: [u8; 16],
}

/// The value of a [`PiffTencBox`] and of a [`PiffSencOverride`].
#[verifier::ext_equal]
pub struct PiffParamsView {
    pub algorithm_id: u32,
    pub iv_size: u8,
    pub kid: Seq<u8>,
}

impl View for PiffTencBox {
    type V = PiffParamsView;

    open spec fn view(&self) -> PiffParamsView {
        PiffParamsView { algorithm_id: self.algorithm_id, iv_size: self.iv_size, kid: self.kid@ }
    }
}

/// The scheme that a PIFF algorithm number stands for.
pub open spec fn piff_scheme(algorithm_id: u32) -> Option<CencScheme> {
    if algorithm_id == PIFF_ALGORITHM_AES_CTR {
        Some(CencScheme::Cenc)
    } else if algorithm_id == PIFF_ALGORITHM_AES_CBC {
        Some(CencScheme::Cbc1)
    } else {
        None
    }
}

/// A PIFF track record as track defaults.
pub open spec fn piff_as_tenc(p: PiffParamsView) -> TencView {
    TencView {
        version: 0,
        is_protected: if p.algorithm_id != PIFF_ALGORITHM_NONE {
            1
        } else {
            0
        },
        per_sample_iv_size: p.iv_size,
        kid: p.kid,
        crypt_byte_block: 0,
        skip_byte_block: 0,
        constant_iv: None,
    }
}

impl PiffTencBox {
    /// The scheme that the algorithm number stands for.
    pub fn scheme(&self) -> (r: Option<CencScheme>)
        ensures
            r == piff_scheme(self.algorithm_id),
    {
        if self.algorithm_id == PIFF_ALGORITHM_AES_CTR {
            Some(CencScheme::Cenc)
        } else if self.algorithm_id == PIFF_ALGORITHM_AES_CBC {
            Some(CencScheme::Cbc1)
        } else {
            None
        }
    }

    /// The AES mode that the algorithm number stands for.
    pub fn cipher_mode(&self) -> (r: Option<CipherMode>)
        ensures
            r == match piff_scheme(self.algorithm_id) {
                Some(s) => mode_of(s),
                None => None,
            },
    {
        match self.scheme() {
            Some(s) => s.cipher_mode(),
            None => None,
        }
    }

    /// The record as track defaults.
    pub fn to_tenc(&self) -> (r: TencBox)
        ensures
            r@ == piff_as_tenc(self@),
    {
        TencBox {
            version: 0,
            default_is_protected: if self.algorithm_id != PIFF_ALGORITHM_NONE {
                1
            } else {
                0
            },
            default_per_sample_iv_size: self.iv_size,
            default_kid: self.kid,
            default_crypt_byte_block: 0,
            default_skip_byte_block: 0,
            default_constant_iv: None,
        }
    }

    /// The routing decision for the record, where it names a cipher.
    pub fn scheme_decision(&self) -> (r: Result<CencSchemeDecision, CencError>)
        ensures
            agrees(
                r,
                match piff_scheme(self.algorithm_id) {
                    Some(s) => decision_of(s, piff_as_tenc(self@)),
                    None => Err(CencError::NoCipher(self.algorithm_id)),
                },
            ),
    {
        match self.scheme() {
            Some(s) => CencSchemeDecision::new(s, self.to_tenc()),
            None => Err(CencError::NoCipher(self.algorithm_id)),
        }
    }
}

/// The twenty bytes of algorithm, IV width and KID at `at`.
pub open spec fn piff_params_at(s: Seq<u8>, at: int) -> PiffParamsView {
    PiffParamsView {
        algorithm_id: be24_at(s, at),
        iv_size: s[at + 3],
        kid: s.subrange(at + 4, at + 20),
    }
}

/// The same on the wire.
pub open spec fn piff_params_wire(p: PiffParamsView) -> Seq<u8> {
    be24(p.algorithm_id) + seq![p.iv_size] + p.kid
}

/// The record that a PIFF track encryption body holds.
pub open spec fn piff_tenc_of(s: Seq<u8>) -> Result<PiffParamsView, CencError> {
    if s.len() < 4 {
        Err(CencError::MissingHeader(Carrier::PiffTenc))
    } else if s[0] != 0 {
        Err(CencError::UndefinedVersion(Carrier::PiffTenc, s[0]))
    } else if s.len() < 24 {
        Err(CencError::ShortPayload(Carrier::PiffTenc))
    } else if !iv_width(s[7] as int) {
        Err(CencError::IvSize(Carrier::PiffTenc, s[7] as u64))
    } else {
        Ok(piff_params_at(s, 4))
    }
}

/// Why a PIFF track record cannot be written, if it cannot.
pub open spec fn piff_tenc_refusal(p: PiffParamsView) -> Option<CencError> {
    if p.algorithm_id > 0xFF_FFFF {
        Some(CencError::AlgorithmTooLarge(Carrier::PiffTenc))
    } else if !iv_width(p.iv_size as int) {
        Some(CencError::BuildIvSize(Carrier::PiffTenc, p.iv_size as u64))
    } else {
        None
    }
}

/// The body of a PIFF track encryption box, after the user type.
pub open spec fn piff_tenc_body(p: PiffParamsView) -> Seq<u8> {
    seq![0u8, 0, 0, 0] + piff_params_wire(p)
}

/// Parse a PIFF track encryption body: what follows the user type.
pub fn parse_piff_tenc(body: &[u8]) -> (r: Result<PiffTencBox, CencError>)
    ensures
        agrees(r, piff_tenc_of(body@)),
{
    if body.len() < 4 {
        return Err(CencError::MissingHeader(Carrier::PiffTenc));
    }
    if body[0] != 0 {
        return Err(CencError::UndefinedVersion(Carrier::PiffTenc, body[0]));
    }
    if body.len() < 24 {
        return Err(CencError::ShortPayload(Carrier::PiffTenc));
    }
    let iv_size: u8 = body[7];
    if !(iv_size == 0 || iv_size == 8 || iv_size == 16) {
        return Err(CencError::IvSize(Carrier::PiffTenc, iv_size as u64));
    }
    Ok(PiffTencBox { algorithm_id: u24_at(body, 4), iv_size, kid: id16_at(body, 8) })
}

fn put_params(out: &mut Vec<u8>, algorithm_id: u32, iv_size: u8, kid: &[u8; 16])
    ensures
        final(out)@ == old(out)@ + piff_params_wire(
            (PiffParamsView { algorithm_id, iv_size, kid: kid@ }),
        ),
{
    put_u24(out, algorithm_id);
    put_u8(out, iv_size);
    put_bytes(out, kid);
    assert(out@ =~= old(out)@ + piff_params_wire(
        PiffParamsView { algorithm_id, iv_size, kid: kid@ },
    ));
}

/// Serialise a PIFF track encryption box. Records that would not parse back
/// are refused.
pub fn build_piff_tenc_box(tenc: &PiffTencBox) -> (r: Result<Vec<u8>, CencError>)
    ensures
        match r {
            Ok(b) => piff_tenc_refusal(tenc@) is None && b@ == uuid_boxed(
                PIFF_TENC_USERTYPE,
                piff_tenc_body(tenc@),
            ),
            Err(e) => piff_tenc_refusal(tenc@) == Some(e),
        },
{
    if tenc.algorithm_id > 0xFF_FFFF {
        return Err(CencError::AlgorithmTooLarge(Carrier::PiffTenc));
    }
    if !(tenc.iv_size == 0 || tenc.iv_size == 8 || tenc.iv_size == 16) {
        return Err(CencError::BuildIvSize(Carrier::PiffTenc, tenc.iv_size as u64));
    }
    let mut body: Vec<u8> = Vec::new();
    put_u32(&mut body, 0);
    put_params(&mut body, tenc.algorithm_id, tenc.iv_size, &tenc.kid);
    assert(body@ =~= piff_tenc_body(tenc@));
    Ok(wrap_uuid_box(&PIFF_TENC_USERTYPE, body.as_slice()))
}

// ---------------------------------------------------------------------
// Sample encryption
// ---------------------------------------------------------------------

/// The parameters that a PIFF sample encryption box may carry in place of
/// the track defaults.
#[derive(Clone, Copy, Debug, PartialEq, Eq)]
pub struct PiffSencOverride {
    /// The algorithm number, 24 bits on the wire.
    pub algorithm_id: u32,
    /// Width of every IV in the box: 0, 8 or 16.
    pub iv_size: u8,
    /// The key identifier of the samples.
    pub kid: [u8; 16],
}

impl View for PiffSencOverride {
    type V = PiffParamsView;

    open spec fn view(&self) -> PiffParamsView {
        PiffParamsView { algorithm_id: self.algorithm_id, iv_size: self.iv_size, kid: self.kid@ }
    }
}

/// The PIFF sample encryption record.
#[derive(Clone, Debug, PartialEq, Eq)]
pub struct PiffSencBox {
    /// The 24-bit flags: bit 0 for the override, bit 1 for subsample maps.
    pub flags: u32,
    /// The override.
    pub override_params: Option<PiffSencOverride>,
    /// The entries.
    pub samples: Vec<SencSample>,
}

/// The value of a [`PiffSencBox`].
#[verifier::ext_equal]
pub struct PiffSencView {
    pub flags: u32,
    pub override_params: Option<PiffParamsView>,
    pub samples: Seq<SencSampleView>,
}

/// The value of an optional override.
pub open spec fn override_view(o: Option<PiffSencOverride>) -> Option<PiffParamsView> {
    match o {
        Some(p) => Some(p@),
        None => None,
    }
}

impl View for PiffSencBox {
    type V = PiffSencView;

    open spec fn view(&self) -> PiffSencView {
        PiffSencView {
            flags: self.flags,
            override_params: override_view(self.override_params),
            samples: sample_views(self.samples@),
        }
    }
}

/// A PIFF sample record as a `senc` record: of the flags only the subsample
/// bit is kept.
pub open spec fn piff_as_senc(p: PiffSencView) -> SencView {
    SencView {
        flags: if flag1(p.flags) {
            2
        } else {
            0
        },
        samples: p.samples,
    }
}

impl PiffSencBox {
    /// Whether the entries carry subsample maps.
    pub fn uses_subsample_encryption(&self) -> (r: bool)
        ensures
            r == flag1(self.flags),
    {
        (self.flags / 2) % 2 == 1
    }

    /// Whether the box overrides the track defaults.
    pub fn has_override(&self) -> (r: bool)
        ensures
            r == flag0(self.flags),
    {
        self.flags % 2 == 1
    }

    /// The record as a `senc` record.
    pub fn to_senc(&self) -> (r: SencBox)
        ensures
            r@ == piff_as_senc(self@),
    {
        SencBox {
            flags: if self.uses_subsample_encryption() {
                2
            } else {
                0
            },
            samples: copy_samples(&self.samples),
        }
    }
}

/// The override that the flags announce.
pub open spec fn override_of(s: Seq<u8>) -> Option<PiffParamsView> {
    if flag0(be24_at(s, 1)) {
        Some(piff_params_at(s, 4))
    } else {
        None
    }
}

/// Where the table starts: behind the override, if there is one.
pub open spec fn piff_table_at(overridden: bool) -> int {
    if overridden {
        24
    } else {
        4
    }
}

/// The IV width: that of the override, else the track's.
pub open spec fn piff_iv_size(o: Option<PiffParamsView>, default_iv_size: int) -> int {
    match o {
        Some(p) => p.iv_size as int,
        None => default_iv_size,
    }
}

/// The record that a PIFF sample encryption body holds, under the track's
/// IV width.
pub open spec fn piff_senc_of(s: Seq<u8>, default_iv_size: u8) -> Result<PiffSencView, CencError> {
    if s.len() < 4 {
        Err(CencError::MissingHeader(Carrier::PiffSenc))
    } else if s[0] != 0 {
        Err(CencError::UndefinedVersion(Carrier::PiffSenc, s[0]))
    } else if flag0(be24_at(s, 1)) && s.len() < 24 {
        Err(CencError::TruncatedOverride)
    } else if !iv_width(piff_iv_size(override_of(s), default_iv_size as int)) {
        Err(
            CencError::IvSize(
                Carrier::PiffSenc,
                piff_iv_size(override_of(s), default_iv_size as int) as u64,
            ),
        )
    } else {
        match table_of(
            s,
            piff_table_at(flag0(be24_at(s, 1))),
            flag1(be24_at(s, 1)),
            piff_iv_size(override_of(s), default_iv_size as int),
        ) {
            Err(e) => Err(e),
            Ok(samples) => Ok(
                PiffSencView { flags: be24_at(s, 1), override_params: override_of(s), samples },
            ),
        }
    }
}

/// The IV width that a record is written with.
pub open spec fn piff_write_iv_size(p: PiffSencView) -> int {
    piff_iv_size(p.override_params, shared_iv_size(p.samples))
}

/// Why a PIFF sample record cannot be written, if it cannot.
pub open spec fn piff_senc_refusal(p: PiffSencView) -> Option<CencError> {
    if p.flags > 0xFF_FFFF {
        Some(CencError::FlagsTooLarge(Carrier::PiffSenc))
    } else if flag0(p.flags) != p.override_params is Some {
        Some(CencError::OverrideDisagrees)
    } else if p.override_params is Some && p.override_params->0.algorithm_id > 0xFF_FFFF {
        Some(CencError::AlgorithmTooLarge(Carrier::PiffSenc))
    } else if !iv_width(piff_write_iv_size(p)) {
        Some(CencError::BuildIvSize(Carrier::PiffSenc, piff_write_iv_size(p) as u64))
    } else {
        table_refusal(p.samples, piff_write_iv_size(p), flag1(p.flags))
    }
}

/// An optional override on the wire.
pub open spec fn override_wire(o: Option<PiffParamsView>) -> Seq<u8> {
    match o {
        Some(p) => piff_params_wire(p),
        None => Seq::empty(),
    }
}

/// The body of a PIFF sample encryption box, after the user type.
pub open spec fn piff_senc_body(p: PiffSencView) -> Seq<u8> {
    seq![0u8] + be24(p.flags) + override_wire(p.override_params) + table_wire(
        p.samples,
        flag1(p.flags),
    )
}

/// Parse a PIFF sample encryption body: what follows the user type.
pub fn parse_piff_senc(body: &[u8], default_iv_size: u8) -> (r: Result<PiffSencBox, CencError>)
    ensures
        agrees(r, piff_senc_of(body@, default_iv_size)),
{
    if body.len() < 4 {
        return Err(CencError::MissingHeader(Carrier::PiffSenc));
    }
    if body[0] != 0 {
        return Err(CencError::UndefinedVersion(Carrier::PiffSenc, body[0]));
    }
    let flags: u32 = u24_at(body, 1);
    let use_subsamples: bool = (flags / 2) % 2 == 1;
    let mut at: usize = 4;
    let mut iv_size: u8 = default_iv_size;
    let mut override_params: Option<PiffSencOverride> = None;
    if flags % 2 == 1 {
        if body.len() < 24 {
            return Err(CencError::TruncatedOverride);
        }
        let params: PiffSencOverride = PiffSencOverride {
            algorithm_id: u24_at(body, 4),
            iv_size: body[7],
            kid: id16_at(body, 8),
        };
        iv_size = params.iv_size;
        override_params = Some(params);
        at = 24;
    }
    if !(iv_size == 0 || iv_size == 8 || iv_size == 16) {
        return Err(CencError::IvSize(Carrier::PiffSenc, iv_size as u64));
    }
    match parse_senc_sample_table(body, at, use_subsamples, iv_size as usize) {
        Err(e) => Err(e),
        Ok(samples) => Ok(PiffSencBox { flags, override_params, samples }),
    }
}

/// Serialise a PIFF sample encryption box. Records that would not parse back
/// are refused.
pub fn build_piff_senc_box(senc: &PiffSencBox) -> (r: Result<Vec<u8>, CencError>)
    ensures
        match r {
            Ok(b) => piff_senc_refusal(senc@) is None && b@ == uuid_boxed(
                PIFF_SENC_USERTYPE,
                piff_senc_body(senc@),
            ),
            Err(e) => piff_senc_refusal(senc@) == Some(e),
        },
{
    if senc.flags > 0xFF_FFFF {
        return Err(CencError::FlagsTooLarge(Carrier::PiffSenc));
    }
    if senc.has_override() != senc.override_params.is_some() {
        return Err(CencError::OverrideDisagrees);
    }
    let iv_size: usize = match &senc.override_params {
        Some(o) => {
            if o.algorithm_id > 0xFF_FFFF {
                return Err(CencError::AlgorithmTooLarge(Carrier::PiffSenc));
            }
            o.iv_size as usize
        },
        None => if senc.samples.len() == 0 {
            0
        } else {
            senc.samples[0].initialization_vector.len()
        },
    };
    assert(iv_size == piff_write_iv_size(senc@));
    if !(iv_size == 0 || iv_size == 8 || iv_size == 16) {
        return Err(CencError::BuildIvSize(Carrier::PiffSenc, iv_size as u64));
    }
    let mut body: Vec<u8> = Vec::new();
    put_u8(&mut body, 0);
    put_u24(&mut body, senc.flags);
    if let Some(o) = &senc.override_params {
        put_params(&mut body, o.algorithm_id, o.iv_size, &o.kid);
    }
    assert(body@ =~= seq![0u8] + be24(senc.flags) + override_wire(senc@.override_params));
    match build_senc_sample_table(
        &mut body,
        senc.samples.as_slice(),
        iv_size,
        senc.uses_subsample_encryption(),
    ) {
        Err(e) => Err(e),
        Ok(_) => Ok(wrap_uuid_box(&PIFF_SENC_USERTYPE, body.as_slice())),
    }
}

// ---------------------------------------------------------------------
// Protection system header
// ---------------------------------------------------------------------

/// The record that a PIFF protection system header body holds: that of a
/// `pssh` body of version 0.
pub open spec fn piff_pssh_of(s: Seq<u8>) -> Result<PsshView, CencError> {
    if s.len() > 0 && s[0] != 0 {
        Err(CencError::UndefinedVersion(Carrier::PiffPssh, s[0]))
    } else {
        pssh_of(s)
    }
}

/// Why a record cannot be written in PIFF form, if it cannot.
pub open spec fn piff_pssh_refusal(p: PsshView) -> Option<CencError> {
    if p.version != 0 {
        Some(CencError::PiffVersionedPssh)
    } else if p.kids.len() > 0 {
        Some(CencError::PiffKids)
    } else if p.data.len() > u32::MAX {
        Some(CencError::DataTooLarge(Carrier::PiffPssh))
    } else {
        None
    }
}

/// Parse a PIFF protection system header body: what follows the user type.
pub fn parse_piff_pssh(body: &[u8]) -> (r: Result<PsshBox, CencError>)
    ensures
        agrees(r, piff_pssh_of(body@)),
{
    if body.len() > 0 && body[0] != 0 {
        return Err(CencError::UndefinedVersion(Carrier::PiffPssh, body[0]));
    }
    parse_pssh(body)
}

/// Serialise a PIFF protection system header box, whose body is that of the
/// `pssh` box. Records that would not parse back are refused.
pub fn build_piff_pssh_box(pssh: &PsshBox) -> (r: Result<Vec<u8>, CencError>)
    ensures
        match r {
            Ok(b) => piff_pssh_refusal(pssh@) is None && b@ == uuid_boxed(
                PIFF_PSSH_USERTYPE,
                pssh_body(pssh@),
            ),
            Err(e) => piff_pssh_refusal(pssh@) == Some(e),
        },
{
    if pssh.version != 0 {
        return Err(CencError::PiffVersionedPssh);
    }
    if pssh.kids.len() > 0 {
        return Err(CencError::PiffKids);
    }
    if pssh.data.len() as u64 > u32::MAX as u64 {
        return Err(CencError::DataTooLarge(Carrier::PiffPssh));
    }
    let mut body: Vec<u8> = Vec::new();
    put_u32(&mut body, 0);
    put_bytes(&mut body, &pssh.system_id);
    put_u32(&mut body, pssh.data.len() as u32);
    put_bytes(&mut body, pssh.data.as_slice());
    assert(body@ =~= pssh_body(pssh@));
    Ok(wrap_uuid_box(&PIFF_PSSH_USERTYPE, body.as_slice()))
}

// ---------------------------------------------------------------------
// Laws
// ---------------------------------------------------------------------

proof fn lemma_params_round_trip(s: Seq<u8>, at: int, p: PiffParamsView)
    requires
        0 <= at,
        at + 20 <= s.len(),
        p.kid.len() == 16,
        p.algorithm_id <= 0xFF_FFFF,
        s.subrange(at, at + 20) == piff_params_wire(p),
    ensures
        piff_params_at(s, at) == p,
{
    let w = piff_params_wire(p);
    let t = s.subrange(at, at + 20);
    assert(s.subrange(at, at + 3) =~= t.subrange(0, 3));
    assert(t.subrange(0, 3) =~= be24(p.algorithm_id));
    lemma_be24_at(s, at, p.algorithm_id);
    assert(s[at + 3] == t[3]);
    assert(s.subrange(at + 4, at + 20) =~= t.subrange(4, 20));
    assert(t.subrange(4, 20) =~= p.kid);
}

/// A PIFF track record that can be written parses back as it was, and
/// nothing shorter than its body parses.
pub proof fn law_piff_tenc_round_trip(p: PiffParamsView, tail: Seq<u8>, cut: int)
    requires
        p.kid.len() == 16,
        piff_tenc_refusal(p) is None,
        0 <= cut < piff_tenc_body(p).len(),
    ensures
        piff_tenc_of(piff_tenc_body(p) + tail) == Ok::<PiffParamsView, CencError>(p),
        piff_tenc_of(piff_tenc_body(p).take(cut)) is Err,
{
    let s = piff_tenc_body(p) + tail;
    assert(s.subrange(4, 24) =~= piff_params_wire(p));
    lemma_params_round_trip(s, 4, p);
}

/// Every PIFF track body that parses gives a record that can be written.
pub proof fn law_piff_tenc_parsed_is_buildable(s: Seq<u8>)
    ensures
        piff_tenc_of(s) matches Ok(p) ==> p.kid.len() == 16 && piff_tenc_refusal(p) is None,
{
}

proof fn lemma_piff_senc_fields(p: PiffSencView, s: Seq<u8>)
    requires
        p.override_params matches Some(o) ==> o.kid.len() == 16,
        piff_senc_refusal(p) is None,
        s.len() >= 4 + override_wire(p.override_params).len(),
        s.subrange(0, 4 + override_wire(p.override_params).len() as int) == seq![0u8] + be24(
            p.flags,
        ) + override_wire(p.override_params),
    ensures
        s[0] == 0,
        be24_at(s, 1) == p.flags,
        override_of(s) == p.override_params,
        piff_table_at(flag0(p.flags)) == 4 + override_wire(p.override_params).len(),
{
    let n = 4 + override_wire(p.override_params).len() as int;
    let t = s.subrange(0, n);
    assert(s[0] == t[0]);
    assert(s.subrange(1, 4) =~= t.subrange(1, 4));
    assert(t.subrange(1, 4) =~= be24(p.flags));
    lemma_be24_at(s, 1, p.flags);
    if let Some(o) = p.override_params {
        assert(s.subrange(4, 24) =~= t.subrange(4, 24));
        assert(t.subrange(4, 24) =~= piff_params_wire(o));
        lemma_params_round_trip(s, 4, o);
    }
}

/// A PIFF sample record that can be written parses back as it was: with an
/// override under any track width, else under its own.
pub proof fn law_piff_senc_build_parse(p: PiffSencView, default_iv_size: u8, tail: Seq<u8>)
    requires
        p.override_params matches Some(o) ==> o.kid.len() == 16,
        piff_senc_refusal(p) is None,
        p.override_params is None ==> default_iv_size == shared_iv_size(p.samples),
        min_entry(flag1(p.flags), piff_write_iv_size(p)) == 0 ==> p.samples.len()
            <= MAX_EMPTY_ENTRIES,
    ensures
        piff_senc_of(piff_senc_body(p) + tail, default_iv_size) == Ok::<PiffSencView, CencError>(p),
{
    let s = piff_senc_body(p) + tail;
    let n = 4 + override_wire(p.override_params).len() as int;
    assert(s.subrange(0, n) =~= seq![0u8] + be24(p.flags) + override_wire(p.override_params));
    lemma_piff_senc_fields(p, s);
    let w = table_wire(p.samples, flag1(p.flags));
    assert(s.subrange(n, n + w.len()) =~= w);
    law_table_build_parse(s, n, p.samples, piff_write_iv_size(p), flag1(p.flags));
}

/// Every body shorter than a written PIFF sample body is refused.
pub proof fn law_truncated_piff_senc_is_refused(p: PiffSencView, default_iv_size: u8, cut: int)
    requires
        p.override_params matches Some(o) ==> o.kid.len() == 16,
        piff_senc_refusal(p) is None,
        p.override_params is None ==> default_iv_size == shared_iv_size(p.samples),
        0 <= cut < piff_senc_body(p).len(),
    ensures
        piff_senc_of(piff_senc_body(p).take(cut), default_iv_size) is Err,
{
    let s = piff_senc_body(p);
    let t = s.take(cut);
    let n = 4 + override_wire(p.override_params).len() as int;
    let head = seq![0u8] + be24(p.flags) + override_wire(p.override_params);
    assert(s.subrange(0, n) =~= head);
    if cut >= n {
        assert(t.subrange(0, n) =~= head);
        lemma_piff_senc_fields(p, t);
        let w = table_wire(p.samples, flag1(p.flags));
        assert(s.subrange(n, s.len() as int) =~= w);
        law_truncated_table_is_refused(
            s,
            n,
            p.samples,
            piff_write_iv_size(p),
            flag1(p.flags),
            cut,
        );
    } else if cut >= 4 {
        assert(t.subrange(1, 4) =~= be24(p.flags));
        lemma_be24_at(t, 1, p.flags);
    }
}

/// Every PIFF sample body that parses gives a record that can be written
/// and that parses again to the same record.
pub proof fn law_piff_senc_parse_build_parse(s: Seq<u8>, default_iv_size: u8)
    ensures
        piff_senc_of(s, default_iv_size) matches Ok(p) ==> piff_senc_refusal(p) is None
            && piff_senc_of(piff_senc_body(p), default_iv_size) == Ok::<
            PiffSencView,
            CencError,
        >(p),
{
    if let Ok(p) = piff_senc_of(s, default_iv_size) {
        let iv = piff_iv_size(override_of(s), default_iv_size as int);
        let at = piff_table_at(flag0(p.flags));
        assert(be24_at(s, 1) <= 0xFF_FFFF);
        law_parsed_table_is_buildable(s, at, flag1(p.flags), iv);
        if p.samples.len() == 0 {
            assert(table_refusal(p.samples, 0, flag1(p.flags)) is None);
        }
        if let Some(o) = p.override_params {
            assert(o.algorithm_id <= 0xFF_FFFF);
        }
        assert(piff_senc_refusal(p) is None);
        let t = piff_senc_body(p);
        let n = 4 + override_wire(p.override_params).len() as int;
        assert(t.subrange(0, n) =~= seq![0u8] + be24(p.flags) + override_wire(p.override_params));
        lemma_piff_senc_fields(p, t);
        let w = table_wire(p.samples, flag1(p.flags));
        assert(t.subrange(n, n + w.len()) =~= w);
        law_table_build_parse(t, n, p.samples, iv, flag1(p.flags));
    }
}

/// A record that can be written in PIFF form can be written as a `pssh` box
/// with the same body, and that body parses back as the record.
pub proof fn law_piff_pssh_body_is_pssh_body(p: PsshView, tail: Seq<u8>)
    requires
        pssh_ids_wf(p),
        piff_pssh_refusal(p) is None,
    ensures
        pssh_refusal(p) is None,
        piff_pssh_of(pssh_body(p) + tail) == Ok::<PsshView, CencError>(p),
        pssh_of(pssh_body(p) + tail) == Ok::<PsshView, CencError>(p),
{
    law_pssh_build_parse(p, tail);
    assert((pssh_body(p) + tail)[0] == p.version);
}

/// Every body shorter than a written PIFF protection system header body is
/// refused.
pub proof fn law_truncated_piff_pssh_is_refused(p: PsshView, cut: int)
    requires
        pssh_ids_wf(p),
        piff_pssh_refusal(p) is None,
        0 <= cut < pssh_body(p).len(),
    ensures
        piff_pssh_of(pssh_body(p).take(cut)) is Err,
{
    law_truncated_pssh_is_refused(p, cut);
}

} // verus!
