//! The Common Encryption records and the values they stand for.

use crate::cenc::error::CencError;
use vstd::prelude::*;

verus! {

/// The protection schemes.
#[derive(Clone, Copy, Debug, PartialEq, Eq)]
pub enum CencScheme {
    /// `cenc`: AES-CTR over full samples or subsamples, no pattern.
    Cenc,
    /// `cbc1`: AES-CBC over full samples or subsamples, no pattern.
    Cbc1,
    /// `cens`: AES-CTR over subsamples, with a pattern.
    Cens,
    /// `cbcs`: AES-CBC over subsamples, with a pattern.
    Cbcs,
    /// Any other four-character code, kept as it came.
    Unknown([u8; 4]),
}

/// The AES mode of operation.
#[derive(Clone, Copy, Debug, PartialEq, Eq, Structural)]
pub enum CipherMode {
    /// Counter mode.
    Ctr,
    /// Cipher block chaining.
    Cbc,
}

/// Where the initialization vector of a sample comes from.
#[derive(Clone, Copy, Debug, PartialEq, Eq, Structural)]
pub enum IvSupply {
    /// Stored with each sample, `size` bytes wide.
    PerSample { size: u8 },
    /// One constant for every sample of the track or group.
    Constant,
    /// The sample is not encrypted.
    Unprotected,
}

/// `tenc`: the encryption defaults of a track.
#[derive(Clone, Debug, PartialEq, Eq)]
pub struct TencBox {
    /// 0 for plain per-sample IVs, 1 where a pattern is in use.
    pub version: u8,
    /// 1 where the samples are encrypted by default.
    pub default_is_protected: u8,
    /// Width of the per-sample IV: 0, 8 or 16.
    pub default_per_sample_iv_size: u8,
    /// The default key identifier.
    pub default_kid: [u8; 16],
    /// Encrypted blocks of the pattern.
    pub default_crypt_byte_block: u8,
    /// Skipped blocks of the pattern.
    pub default_skip_byte_block: u8,
    /// The constant IV of a protected track without per-sample IVs.
    pub default_constant_iv: Option<Vec<u8>>,
}

/// The value of a [`TencBox`].
#[verifier::ext_equal]
pub struct TencView {
    pub version: u8,
    pub is_protected: u8,
    pub per_sample_iv_size: u8,
    pub kid: Seq<u8>,
    pub crypt_byte_block: u8,
    pub skip_byte_block: u8,
    pub constant_iv: Option<Seq<u8>>,
}

/// The bytes of an optional vector.
pub open spec fn opt_bytes(o: Option<Vec<u8>>) -> Option<Seq<u8>> {
    match o {
        Some(v) => Some(v@),
        None => None,
    }
}

impl View for TencBox {
    type V = TencView;

    open spec fn view(&self) -> TencView {
        TencView {
            version: self.version,
            is_protected: self.default_is_protected,
            per_sample_iv_size: self.default_per_sample_iv_size,
            kid: self.default_kid@,
            crypt_byte_block: self.default_crypt_byte_block,
            skip_byte_block: self.default_skip_byte_block,
            constant_iv: opt_bytes(self.default_constant_iv),
        }
    }
}

/// Copy an optional vector.
pub fn copy_opt_bytes(o: &Option<Vec<u8>>) -> (r: Option<Vec<u8>>)
    ensures
        opt_bytes(r) == opt_bytes(*o),
{
    match o {
        Some(v) => Some(vstd::slice::slice_to_vec(v.as_slice())),
        None => None,
    }
}

impl TencBox {
    /// A copy of the record.
    pub fn duplicate(&self) -> (r: TencBox)
        ensures
            r@ == self@,
    {
        TencBox {
            version: self.version,
            default_is_protected: self.default_is_protected,
            default_per_sample_iv_size: self.default_per_sample_iv_size,
            default_kid: self.default_kid,
            default_crypt_byte_block: self.default_crypt_byte_block,
            default_skip_byte_block: self.default_skip_byte_block,
            default_constant_iv: copy_opt_bytes(&self.default_constant_iv),
        }
    }
}

/// `seig`: a sample group's override of the track defaults.
#[derive(Clone, Debug, PartialEq, Eq)]
pub struct SeigEntry {
    /// Encrypted blocks of the pattern.
    pub crypt_byte_block: u8,
    /// Skipped blocks of the pattern.
    pub skip_byte_block: u8,
    /// 1 where the samples of the group are encrypted.
    pub is_protected: u8,
    /// Width of the per-sample IV: 0, 8 or 16.
    pub per_sample_iv_size: u8,
    /// The key identifier of the group.
    pub kid: [u8; 16],
    /// The constant IV of a protected group without per-sample IVs.
    pub constant_iv: Option<Vec<u8>>,
}

/// The value of a [`SeigEntry`].
#[verifier::ext_equal]
pub struct SeigView {
    pub crypt_byte_block: u8,
    pub skip_byte_block: u8,
    pub is_protected: u8,
    pub per_sample_iv_size: u8,
    pub kid: Seq<u8>,
    pub constant_iv: Option<Seq<u8>>,
}

impl View for SeigEntry {
    type V = SeigView;

    open spec fn view(&self) -> SeigView {
        SeigView {
            crypt_byte_block: self.crypt_byte_block,
            skip_byte_block: self.skip_byte_block,
            is_protected: self.is_protected,
            per_sample_iv_size: self.per_sample_iv_size,
            kid: self.kid@,
            constant_iv: opt_bytes(self.constant_iv),
        }
    }
}

/// `pssh`: the header of one content protection system.
#[derive(Clone, Debug, PartialEq, Eq)]
pub struct PsshBox {
    /// 0 without the KID list, 1 with it.
    pub version: u8,
    /// The protection system's UUID.
    pub system_id: [u8; 16],
    /// The KIDs the data applies to.
    pub kids: Vec<[u8; 16]>,
    /// The system's own payload.
    pub data: Vec<u8>,
}

/// The value of a [`PsshBox`].
#[verifier::ext_equal]
pub struct PsshView {
    pub version: u8,
    pub system_id: Seq<u8>,
    pub kids: Seq<Seq<u8>>,
    pub data: Seq<u8>,
}

/// The bytes of a list of 16-byte identifiers.
pub open spec fn id_views(ids: Seq<[u8; 16]>) -> Seq<Seq<u8>> {
    Seq::new(ids.len(), |i: int| ids[i]@)
}

impl View for PsshBox {
    type V = PsshView;

    open spec fn view(&self) -> PsshView {
        PsshView {
            version: self.version,
            system_id: self.system_id@,
            kids: id_views(self.kids@),
            data: self.data@,
        }
    }
}

/// One `(clear, protected)` pair of a subsample table.
#[derive(Clone, Copy, Debug, PartialEq, Eq, Structural)]
pub struct SubsampleEntry {
    /// Bytes left in the clear.
    pub bytes_of_clear_data: u16,
    /// Bytes that are encrypted.
    pub bytes_of_protected_data: u32,
}

/// One sample of a `senc` table.
#[derive(Clone, Debug, PartialEq, Eq)]
pub struct SencSample {
    /// The sample's IV, empty under a constant IV.
    pub initialization_vector: Vec<u8>,
    /// The sample's subsample map.
    pub subsamples: Vec<SubsampleEntry>,
}

/// The value of a [`SencSample`].
#[verifier::ext_equal]
pub struct SencSampleView {
    pub iv: Seq<u8>,
    pub subsamples: Seq<SubsampleEntry>,
}

impl View for SencSample {
    type V = SencSampleView;

    open spec fn view(&self) -> SencSampleView {
        SencSampleView { iv: self.initialization_vector@, subsamples: self.subsamples@ }
    }
}

/// The values of a table of samples.
pub open spec fn sample_views(s: Seq<SencSample>) -> Seq<SencSampleView> {
    Seq::new(s.len(), |i: int| s[i]@)
}

impl SencSample {
    /// A copy of the sample.
    pub fn duplicate(&self) -> (r: SencSample)
        ensures
            r@ == self@,
    {
        SencSample {
            initialization_vector: vstd::slice::slice_to_vec(self.initialization_vector.as_slice()),
            subsamples: vstd::slice::slice_to_vec(self.subsamples.as_slice()),
        }
    }
}

/// Copy a table of samples.
pub fn copy_samples(s: &Vec<SencSample>) -> (r: Vec<SencSample>)
    ensures
        sample_views(r@) == sample_views(s@),
{
    let mut out: Vec<SencSample> = Vec::new();
    let mut i: usize = 0;
    while i < s.len()
        invariant
            i <= s.len(),
            out.len() == i,
            forall|j: int| 0 <= j < i ==> out@[j]@ == s@[j]@,
        decreases s.len() - i,
    {
        out.push(s[i].duplicate());
        i = i + 1;
    }
    assert(sample_views(out@) =~= sample_views(s@));
    out
}

/// `senc`: IVs and subsample maps, one entry per sample.
#[derive(Clone, Debug, PartialEq, Eq)]
pub struct SencBox {
    /// The 24-bit flags; bit 1 says that subsample maps are present.
    pub flags: u32,
    /// The entries.
    pub samples: Vec<SencSample>,
}

/// The value of a [`SencBox`].
#[verifier::ext_equal]
pub struct SencView {
    pub flags: u32,
    pub samples: Seq<SencSampleView>,
}

impl View for SencBox {
    type V = SencView;

    open spec fn view(&self) -> SencView {
        SencView { flags: self.flags, samples: sample_views(self.samples@) }
    }
}

/// Bit 0 of a flags word.
pub open spec fn flag0(flags: u32) -> bool {
    flags % 2 == 1
}

/// Bit 1 of a flags word.
pub open spec fn flag1(flags: u32) -> bool {
    (flags / 2) % 2 == 1
}

impl SencBox {
    /// Whether the entries carry subsample maps.
    pub fn uses_subsample_encryption(&self) -> (r: bool)
        ensures
            r == flag1(self.flags),
    {
        (self.flags / 2) % 2 == 1
    }
}

/// A parsed record agrees with the value that its bytes stand for.
pub open spec fn agrees<T: View>(r: Result<T, CencError>, s: Result<T::V, CencError>) -> bool {
    match r {
        Ok(t) => s == Ok::<T::V, CencError>(t@),
        Err(e) => s == Err::<T::V, CencError>(e),
    }
}

} // verus!
