//! Protection schemes and the routing decision built from one.

use crate::bytes::same_code;
use crate::cenc::error::CencError;
use crate::cenc::types::{agrees, CencScheme, CipherMode, IvSupply, SeigEntry, TencBox, TencView};
use vstd::prelude::*;

verus! {

/// `cenc`
pub const SCHEME_CENC: [u8; 4] = [0x63, 0x65, 0x6e, 0x63];

/// `cbc1`
pub const SCHEME_CBC1: [u8; 4] = [0x63, 0x62, 0x63, 0x31];

/// `cens`
pub const SCHEME_CENS: [u8; 4] = [0x63, 0x65, 0x6e, 0x73];

/// `cbcs`
pub const SCHEME_CBCS: [u8; 4] = [0x63, 0x62, 0x63, 0x73];

/// The scheme that a four-character code names.
pub open spec fn scheme_of(code: [u8; 4]) -> CencScheme {
    if code == SCHEME_CENC {
        CencScheme::Cenc
    } else if code == SCHEME_CBC1 {
        CencScheme::Cbc1
    } else if code == SCHEME_CENS {
        CencScheme::Cens
    } else if code == SCHEME_CBCS {
        CencScheme::Cbcs
    } else {
        CencScheme::Unknown(code)
    }
}

/// The four-character code of a scheme.
pub open spec fn code_of(s: CencScheme) -> [u8; 4] {
    match s {
        CencScheme::Cenc => SCHEME_CENC,
        CencScheme::Cbc1 => SCHEME_CBC1,
        CencScheme::Cens => SCHEME_CENS,
        CencScheme::Cbcs => SCHEME_CBCS,
        CencScheme::Unknown(c) => c,
    }
}

/// The AES mode of a scheme.
pub open spec fn mode_of(s: CencScheme) -> Option<CipherMode> {
    match s {
        CencScheme::Cenc | CencScheme::Cens => Some(CipherMode::Ctr),
        CencScheme::Cbc1 | CencScheme::Cbcs => Some(CipherMode::Cbc),
        CencScheme::Unknown(_) => None,
    }
}

/// Whether a scheme encrypts by pattern.
pub open spec fn patterned(s: CencScheme) -> bool {
    s is Cens || s is Cbcs
}

/// The `tenc` version that a scheme pins.
pub open spec fn pinned_version(s: CencScheme) -> Option<u8> {
    match s {
        CencScheme::Cenc | CencScheme::Cbc1 => Some(0u8),
        CencScheme::Cens | CencScheme::Cbcs => Some(1u8),
        CencScheme::Unknown(_) => None,
    }
}

/// Whether a scheme is one that a four-character code names: an unknown
/// scheme does not carry a registered code.
pub open spec fn canonical(s: CencScheme) -> bool {
    match s {
        CencScheme::Unknown(c) => c != SCHEME_CENC && c != SCHEME_CBC1 && c != SCHEME_CENS && c
            != SCHEME_CBCS,
        _ => true,
    }
}

/// A code is that of the scheme it names.
pub proof fn law_code_of_named_scheme(code: [u8; 4])
    ensures
        code_of(scheme_of(code)) == code,
        canonical(scheme_of(code)),
{
}

/// A scheme's code names that scheme.
pub proof fn law_scheme_named_by_its_code(s: CencScheme)
    requires
        canonical(s),
    ensures
        scheme_of(code_of(s)) == s,
{
    assert(SCHEME_CENC@[1] == 0x65 && SCHEME_CENC@[3] == 0x63);
    assert(SCHEME_CBC1@[1] == 0x62 && SCHEME_CBC1@[3] == 0x31);
    assert(SCHEME_CENS@[1] == 0x65 && SCHEME_CENS@[3] == 0x73);
    assert(SCHEME_CBCS@[1] == 0x62 && SCHEME_CBCS@[3] == 0x73);
}

impl CencScheme {
    /// The scheme that a four-character code names.
    pub fn from_fourcc(fourcc: &[u8; 4]) -> (r: CencScheme)
        ensures
            r == scheme_of(*fourcc),
    {
        if same_code(fourcc, &SCHEME_CENC) {
            CencScheme::Cenc
        } else if same_code(fourcc, &SCHEME_CBC1) {
            CencScheme::Cbc1
        } else if same_code(fourcc, &SCHEME_CENS) {
            CencScheme::Cens
        } else if same_code(fourcc, &SCHEME_CBCS) {
            CencScheme::Cbcs
        } else {
            CencScheme::Unknown(*fourcc)
        }
    }

    /// The four-character code of the scheme.
    pub fn fourcc(&self) -> (r: [u8; 4])
        ensures
            r == code_of(*self),
    {
        match self {
            CencScheme::Cenc => SCHEME_CENC,
            CencScheme::Cbc1 => SCHEME_CBC1,
            CencScheme::Cens => SCHEME_CENS,
            CencScheme::Cbcs => SCHEME_CBCS,
            CencScheme::Unknown(c) => *c,
        }
    }

    /// The AES mode of the scheme, nothing for an unknown one.
    pub fn cipher_mode(&self) -> (r: Option<CipherMode>)
        ensures
            r == mode_of(*self),
    {
        match self {
            CencScheme::Cenc | CencScheme::Cens => Some(CipherMode::Ctr),
            CencScheme::Cbc1 | CencScheme::Cbcs => Some(CipherMode::Cbc),
            CencScheme::Unknown(_) => None,
        }
    }

    /// Whether the scheme encrypts by pattern.
    pub fn uses_pattern_encryption(&self) -> (r: bool)
        ensures
            r == patterned(*self),
    {
        match self {
            CencScheme::Cens | CencScheme::Cbcs => true,
            _ => false,
        }
    }

    /// The `tenc` version that the scheme pins, nothing for an unknown one.
    pub fn required_tenc_version(&self) -> (r: Option<u8>)
        ensures
            r == pinned_version(*self),
    {
        match self {
            CencScheme::Cenc | CencScheme::Cbc1 => Some(0),
            CencScheme::Cens | CencScheme::Cbcs => Some(1),
            CencScheme::Unknown(_) => None,
        }
    }
}

/// A scheme and the track defaults it applies to.
#[derive(Clone, Debug, PartialEq, Eq)]
pub struct CencSchemeDecision {
    /// The scheme.
    pub scheme: CencScheme,
    /// The track defaults.
    pub tenc: TencBox,
}

/// The value of a [`CencSchemeDecision`].
#[verifier::ext_equal]
pub struct DecisionView {
    pub scheme: CencScheme,
    pub tenc: TencView,
}

impl View for CencSchemeDecision {
    type V = DecisionView;

    open spec fn view(&self) -> DecisionView {
        DecisionView { scheme: self.scheme, tenc: self.tenc@ }
    }
}

/// The decision for a scheme and its track defaults: the version must be
/// the pinned one and a pattern scheme needs a pattern.
pub open spec fn decision_of(scheme: CencScheme, tenc: TencView) -> Result<
    DecisionView,
    CencError,
> {
    if pinned_version(scheme) is Some && pinned_version(scheme) != Some(tenc.version) {
        Err(
            CencError::VersionMismatch {
                scheme: code_of(scheme),
                required: pinned_version(scheme)->0,
                found: tenc.version,
            },
        )
    } else if patterned(scheme) && tenc.crypt_byte_block == 0 && tenc.skip_byte_block == 0 {
        Err(CencError::ZeroPattern { scheme: code_of(scheme) })
    } else {
        Ok(DecisionView { scheme, tenc })
    }
}

/// Where the IVs come from, given the protection flag and the IV width.
pub open spec fn supply_of(is_protected: u8, iv_size: u8) -> IvSupply {
    if is_protected == 0 {
        IvSupply::Unprotected
    } else if is_protected == 1 && iv_size == 0 {
        IvSupply::Constant
    } else {
        IvSupply::PerSample { size: iv_size }
    }
}

fn iv_supply_for(is_protected: u8, iv_size: u8) -> (r: IvSupply)
    ensures
        r == supply_of(is_protected, iv_size),
{
    if is_protected == 0 {
        IvSupply::Unprotected
    } else if is_protected == 1 && iv_size == 0 {
        IvSupply::Constant
    } else {
        IvSupply::PerSample { size: iv_size }
    }
}

impl CencSchemeDecision {
    /// Join a scheme and the track defaults, where they fit together.
    pub fn new(scheme: CencScheme, tenc: TencBox) -> (r: Result<CencSchemeDecision, CencError>)
        ensures
            agrees(r, decision_of(scheme, tenc@)),
    {
        if let Some(required) = scheme.required_tenc_version() {
            if tenc.version != required {
                return Err(
                    CencError::VersionMismatch {
                        scheme: scheme.fourcc(),
                        required,
                        found: tenc.version,
                    },
                );
            }
        }
        if scheme.uses_pattern_encryption() && tenc.default_crypt_byte_block == 0
            && tenc.default_skip_byte_block == 0 {
            return Err(CencError::ZeroPattern { scheme: scheme.fourcc() });
        }
        Ok(CencSchemeDecision { scheme, tenc })
    }

    /// The AES mode of the decision's scheme.
    pub fn cipher_mode(&self) -> (r: Option<CipherMode>)
        ensures
            r == mode_of(self.scheme),
    {
        self.scheme.cipher_mode()
    }

    /// Whether the decision's scheme encrypts by pattern.
    pub fn uses_pattern_encryption(&self) -> (r: bool)
        ensures
            r == patterned(self.scheme),
    {
        self.scheme.uses_pattern_encryption()
    }

    /// Where the IVs of the track come from.
    pub fn iv_supply(&self) -> (r: IvSupply)
        ensures
            r == supply_of(
                self.tenc.default_is_protected,
                self.tenc.default_per_sample_iv_size,
            ),
    {
        iv_supply_for(self.tenc.default_is_protected, self.tenc.default_per_sample_iv_size)
    }
}

impl SeigEntry {
    /// Where the IVs of the group come from.
    pub fn iv_supply(&self) -> (r: IvSupply)
        ensures
            r == supply_of(self.is_protected, self.per_sample_iv_size),
    {
        iv_supply_for(self.is_protected, self.per_sample_iv_size)
    }

    /// Whether the group has a pattern.
    pub fn uses_pattern_encryption(&self) -> (r: bool)
        ensures
            r == (self.crypt_byte_block != 0 || self.skip_byte_block != 0),
    {
        self.crypt_byte_block != 0 || self.skip_byte_block != 0
    }
}

} // verus!
