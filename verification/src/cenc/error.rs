//! Why a Common Encryption record was refused.

use crate::text::{
    counted, decimal, hexadecimal, plain, push_char, push_decimal, push_hexadecimal, push_text,
};
use vstd::prelude::*;

verus! {

/// The record that an error speaks of.
#[derive(Clone, Copy, Debug, PartialEq, Eq, Structural)]
pub enum Carrier {
    /// `tenc`, the track defaults.
    Tenc,
    /// `seig`, a sample-group override.
    Seig,
    /// `pssh`, a protection system header.
    Pssh,
    /// `senc`, the per-sample table.
    Senc,
    /// The PIFF `uuid` form of `tenc`.
    PiffTenc,
    /// The PIFF `uuid` form of `senc`.
    PiffSenc,
    /// The PIFF `uuid` form of `pssh`.
    PiffPssh,
}

/// Why a Common Encryption record was refused.
#[derive(Clone, Copy, Debug, PartialEq, Eq)]
pub enum CencError {
    /// The scheme pins another `tenc` version.
    VersionMismatch { scheme: [u8; 4], required: u8, found: u8 },
    /// A pattern scheme with an all-zero pattern.
    ZeroPattern { scheme: [u8; 4] },
    /// The four bytes of version and flags are not all there.
    MissingHeader(Carrier),
    /// The fixed part of the payload is not all there.
    ShortPayload(Carrier),
    /// The version byte names no layout.
    UndefinedVersion(Carrier, u8),
    /// A constant IV is due and its size byte is missing.
    MissingConstantIvSize(Carrier),
    /// The constant IV's size is neither 8 nor 16.
    ConstantIvSize(Carrier, u64),
    /// The same of a constant IV that is to be written.
    BuildConstantIvSize(Carrier, u64),
    /// The constant IV is cut off.
    TruncatedConstantIv(Carrier),
    /// An IV size that is none of 0, 8 and 16.
    IvSize(Carrier, u64),
    /// The same of an IV that is to be written.
    BuildIvSize(Carrier, u64),
    /// `pssh` version 1 without its KID count.
    MissingKidCount,
    /// The KID array is cut off.
    TruncatedKids,
    /// `pssh` without its data size.
    MissingDataSize,
    /// The `pssh` data is cut off.
    TruncatedData,
    /// The sample count is larger than the bytes can hold.
    UnbackedSampleCount,
    /// A per-sample IV is cut off.
    TruncatedIv,
    /// A sample's subsample count is missing.
    MissingSubsampleCount,
    /// A sample's subsample table is cut off.
    TruncatedSubsamples,
    /// The override triple of a PIFF `senc` is cut off.
    TruncatedOverride,
    /// A pattern pair on a version 0 `tenc`.
    PatternNeedsVersionOne,
    /// A pattern component that does not fit its 4-bit field.
    PatternComponent(Carrier),
    /// A constant IV is due and there is none.
    ConstantIvRequired(Carrier),
    /// A constant IV is there and none is due.
    ConstantIvNotRequired(Carrier),
    /// KIDs on a version 0 `pssh`.
    KidsNeedVersionOne,
    /// More KIDs than a 32-bit count can name.
    KidCountTooLarge,
    /// More data than a 32-bit size can name.
    DataTooLarge(Carrier),
    /// Flags that do not fit their 24-bit field.
    FlagsTooLarge(Carrier),
    /// More samples than a 32-bit count can name.
    SampleCountTooLarge,
    /// A sample's IV is not as long as the first one.
    IvLengthDiffers { index: usize, length: usize, shared: usize },
    /// More subsamples than a 16-bit count can name.
    SubsampleCountTooLarge { index: usize },
    /// Subsamples on a sample of a table without them.
    UnexpectedSubsamples { index: usize },
    /// An algorithm number that does not fit its 24-bit field.
    AlgorithmTooLarge(Carrier),
    /// The override bit and the override triple disagree.
    OverrideDisagrees,
    /// A PIFF `pssh` with a version other than 0.
    PiffVersionedPssh,
    /// A PIFF `pssh` with KIDs.
    PiffKids,
    /// An algorithm number that names no cipher.
    NoCipher(u32),
    /// The track default is unprotected, so there is nothing to plan.
    Unprotected,
    /// The scheme is not one of the four registered ones.
    UnknownScheme,
    /// A subsample with neither clear nor protected bytes.
    BothZero { index: usize },
    /// The end of a subsample does not fit 64 bits.
    RunLengthOverflow,
    /// A subsample ends past the sample.
    PastSampleLen { index: usize, end: u64, sample_len: u64 },
    /// The subsamples do not cover the sample.
    SubsampleTotal { total: u64, sample_len: u64 },
}

// ---------------------------------------------------------------------
// Messages
// ---------------------------------------------------------------------

/// A four-character code as text, with a question mark for each byte that
/// is not printable.
pub open spec fn printable(code: Seq<u8>) -> Seq<char> {
    Seq::new(
        code.len(),
        |i: int|
            if 0x20 <= code[i] <= 0x7E {
                code[i] as char
            } else {
                '?'
            },
    )
}

/// Append a four-character code.
fn push_code(s: &mut String, code: &[u8; 4])
    ensures
        final(s)@ == old(s)@ + printable(code@),
{
    let mut i: usize = 0;
    while i < 4
        invariant
            i <= 4,
            s@ == old(s)@ + printable(code@).take(i as int),
        decreases 4 - i,
    {
        let c: char = if 0x20 <= code[i] && code[i] <= 0x7E {
            code[i] as char
        } else {
            '?'
        };
        push_char(s, c);
        assert(printable(code@).take(i + 1) =~= printable(code@).take(i as int).push(c));
        i = i + 1;
    }
    assert(printable(code@).take(4) =~= printable(code@));
}

/// What a message calls a record.
pub open spec fn carrier_text(c: Carrier) -> Seq<char> {
    match c {
        Carrier::Tenc => "MP4 tenc"@,
        Carrier::Seig => "CENC seig"@,
        Carrier::Pssh => "MP4 pssh"@,
        Carrier::Senc => "MP4 senc"@,
        Carrier::PiffTenc => "PIFF tenc"@,
        Carrier::PiffSenc => "PIFF senc"@,
        Carrier::PiffPssh => "PIFF pssh"@,
    }
}

/// What a message calls the constant IV of a record.
pub open spec fn constant_iv_text(c: Carrier) -> Seq<char> {
    if c == Carrier::Tenc {
        "default_constant_IV"@
    } else {
        "constant_IV"@
    }
}

/// What a message calls the IV size of a record that is read.
pub open spec fn iv_size_text(c: Carrier) -> Seq<char> {
    match c {
        Carrier::Tenc => "default_Per_Sample_IV_Size"@,
        Carrier::Seig => "Per_Sample_IV_Size"@,
        Carrier::PiffTenc => "default_IV_size"@,
        Carrier::PiffSenc => "IV_size"@,
        _ => "per_sample_iv_size"@,
    }
}

/// What a message calls the IV size of a record that is written.
pub open spec fn build_iv_size_text(c: Carrier) -> Seq<char> {
    match c {
        Carrier::Senc | Carrier::PiffSenc => "per-sample IV length"@,
        _ => iv_size_text(c),
    }
}

impl Carrier {
    /// What a message calls the record.
    pub fn name(self) -> (r: &'static str)
        ensures
            r@ == carrier_text(self),
    {
        match self {
            Carrier::Tenc => "MP4 tenc",
            Carrier::Seig => "CENC seig",
            Carrier::Pssh => "MP4 pssh",
            Carrier::Senc => "MP4 senc",
            Carrier::PiffTenc => "PIFF tenc",
            Carrier::PiffSenc => "PIFF senc",
            Carrier::PiffPssh => "PIFF pssh",
        }
    }

    /// What a message calls the constant IV.
    fn constant_iv(self) -> (r: &'static str)
        ensures
            r@ == constant_iv_text(self),
    {
        match self {
            Carrier::Tenc => "default_constant_IV",
            _ => "constant_IV",
        }
    }

    /// What a message calls the IV size of a record that is read.
    fn iv_size(self) -> (r: &'static str)
        ensures
            r@ == iv_size_text(self),
    {
        match self {
            Carrier::Tenc => "default_Per_Sample_IV_Size",
            Carrier::Seig => "Per_Sample_IV_Size",
            Carrier::PiffTenc => "default_IV_size",
            Carrier::PiffSenc => "IV_size",
            _ => "per_sample_iv_size",
        }
    }

    /// What a message calls the IV size of a record that is written.
    fn build_iv_size(self) -> (r: &'static str)
        ensures
            r@ == build_iv_size_text(self),
    {
        match self {
            Carrier::Senc | Carrier::PiffSenc => "per-sample IV length",
            _ => self.iv_size(),
        }
    }
}

/// Start a message about a record.
fn about(c: Carrier, what: &str) -> (r: String)
    ensures
        r@ == carrier_text(c) + what@,
{
    let mut s: String = String::new();
    push_text(&mut s, c.name());
    push_text(&mut s, what);
    assert(s@ =~= carrier_text(c) + what@);
    s
}

/// A message about a field of a record and a number.
fn about_field(c: Carrier, colon: &str, field: &str, middle: &str, n: u64, end: &str) -> (r: String)
    ensures
        r@ == carrier_text(c) + colon@ + field@ + middle@ + decimal(n as nat) + end@,
{
    let mut s: String = about(c, colon);
    push_text(&mut s, field);
    push_text(&mut s, middle);
    push_decimal(&mut s, n);
    push_text(&mut s, end);
    s
}

/// The message that stands for an error.
pub open spec fn cenc_error_text(e: CencError) -> Seq<char> {
    match e {
        CencError::VersionMismatch { scheme, required, found } => "CENC scheme decision: scheme "@
            + printable(scheme@) + " requires tenc version "@ + decimal(required as nat)
            + " but tenc.version = "@ + decimal(found as nat),
        CencError::ZeroPattern { scheme } => "CENC scheme decision: pattern-encryption scheme "@
            + printable(scheme@) + " requires non-zero (crypt_byte_block, skip_byte_block)"@,
        CencError::MissingHeader(c) => carrier_text(c) + ": missing FullBox header"@,
        CencError::ShortPayload(c) => carrier_text(c) + ": short payload"@,
        CencError::UndefinedVersion(c, n) => carrier_text(c) + if c == Carrier::Tenc {
            " build: undefined version "@
        } else {
            ": undefined version "@
        } + decimal(n as nat),
        CencError::MissingConstantIvSize(c) => carrier_text(c)
            + ": missing "@ + constant_iv_text(c) + "_size when isProtected==1 && IV_size==0"@,
        CencError::ConstantIvSize(c, n) => carrier_text(c)
            + ": "@ + constant_iv_text(c) + "_size "@ + decimal(n as nat) + " not in {8, 16}"@,
        CencError::BuildConstantIvSize(c, n) => carrier_text(c)
            + " build: "@ + constant_iv_text(c) + " length "@ + decimal(n as nat)
            + " not in {8, 16}"@,
        CencError::TruncatedConstantIv(c) => {
            carrier_text(c) + ": truncated "@ + constant_iv_text(c)
        },
        CencError::IvSize(c, n) => carrier_text(c)
            + ": "@ + iv_size_text(c) + " "@ + decimal(n as nat) + " not in {0, 8, 16}"@,
        CencError::BuildIvSize(c, n) => carrier_text(c)
            + " build: "@ + build_iv_size_text(c) + " "@ + decimal(n as nat)
            + " not in {0, 8, 16}"@,
        CencError::MissingKidCount => "MP4 pssh: missing KID_count"@,
        CencError::TruncatedKids => "MP4 pssh: truncated KID array"@,
        CencError::MissingDataSize => "MP4 pssh: missing DataSize"@,
        CencError::TruncatedData => "MP4 pssh: truncated Data"@,
        CencError::UnbackedSampleCount => {
            "MP4 senc: sample_count exceeds what the box bytes can back"@
        },
        CencError::TruncatedIv => "MP4 senc: truncated InitializationVector"@,
        CencError::MissingSubsampleCount => "MP4 senc: missing subsample_count"@,
        CencError::TruncatedSubsamples => "MP4 senc: truncated subsample table"@,
        CencError::TruncatedOverride => "PIFF senc: truncated override triple"@,
        CencError::PatternNeedsVersionOne => "MP4 tenc build: pattern pair requires version 1"@,
        CencError::PatternComponent(c) => {
            carrier_text(c) + " build: pattern component exceeds its 4-bit field"@
        },
        CencError::ConstantIvRequired(c) => {
            carrier_text(c) + " build: isProtected==1 && IV_size==0 requires a constant IV"@
        },
        CencError::ConstantIvNotRequired(c) => {
            carrier_text(c) + " build: constant IV present but not required (would not round-trip)"@
        },
        CencError::KidsNeedVersionOne => "MP4 pssh build: KID list requires version >= 1"@,
        CencError::KidCountTooLarge => "MP4 pssh build: KID_count exceeds u32"@,
        CencError::DataTooLarge(c) => carrier_text(c) + " build: DataSize exceeds u32"@,
        CencError::FlagsTooLarge(c) => carrier_text(c) + " build: flags exceed the 24-bit field"@,
        CencError::SampleCountTooLarge => "MP4 senc build: sample_count exceeds u32"@,
        CencError::IvLengthDiffers { index, length, shared } => "MP4 senc build: sample "@
            + decimal(index as nat) + " IV length "@ + decimal(length as nat)
            + " differs from the shared width "@ + decimal(shared as nat),
        CencError::SubsampleCountTooLarge { index } => {
            "MP4 senc build: sample "@ + decimal(index as nat) + " subsample_count exceeds u16"@
        },
        CencError::UnexpectedSubsamples { index } => "MP4 senc build: sample "@
            + decimal(index as nat) + " carries subsamples but UseSubSampleEncryption is clear"@,
        CencError::AlgorithmTooLarge(c) => carrier_text(c) + if c == Carrier::PiffSenc {
            " build: override AlgorithmID exceeds its 24-bit field"@
        } else {
            " build: AlgorithmID exceeds its 24-bit field"@
        },
        CencError::OverrideDisagrees => {
            "PIFF senc build: flags & 1 disagrees with the override triple's presence"@
        },
        CencError::PiffVersionedPssh => {
            "PIFF pssh build: only the version-0 pssh layout exists in PIFF"@
        },
        CencError::PiffKids => {
            "PIFF pssh build: KID list requires the CENC v1 pssh, not the PIFF uuid form"@
        },
        CencError::NoCipher(id) => {
            "PIFF tenc: AlgorithmID 0x"@ + hexadecimal(id as nat) + " names no cipher"@
        },
        CencError::Unprotected => {
            "MP4 cenc cipher plan: track default is unprotected (IvSupply::None) — no plan"@
        },
        CencError::UnknownScheme => {
            "MP4 cenc cipher plan: unknown scheme — caller supplies its own dialect walker"@
        },
        CencError::BothZero { index } => "MP4 cenc cipher plan: subsample "@
            + decimal(index as nat) + " is both-zero (§9.5.1 prohibition)"@,
        CencError::RunLengthOverflow => "MP4 cenc cipher plan: subsample run-length overflow"@,
        CencError::PastSampleLen { index, end, sample_len } => "MP4 cenc cipher plan: subsample "@
            + decimal(index as nat) + " ends at "@ + decimal(end as nat) + " past sample_len "@
            + decimal(sample_len as nat),
        CencError::SubsampleTotal { total, sample_len } => "MP4 cenc cipher plan: subsample total "@
            + decimal(total as nat) + " != sample_len "@ + decimal(sample_len as nat)
            + " (§9.5.1)"@,
    }
}

impl CencError {
    /// The message that stands for the error.
    pub fn message(&self) -> (r: String)
        ensures
            r@ == cenc_error_text(*self),
    {
        match *self {
            CencError::VersionMismatch { scheme, required, found } => {
                let mut s: String = String::new();
                push_text(&mut s, "CENC scheme decision: scheme ");
                push_code(&mut s, &scheme);
                push_text(&mut s, " requires tenc version ");
                push_decimal(&mut s, required as u64);
                push_text(&mut s, " but tenc.version = ");
                push_decimal(&mut s, found as u64);
                assert(s@ =~= cenc_error_text(*self));
                s
            },
            CencError::ZeroPattern { scheme } => {
                let mut s: String = String::new();
                push_text(&mut s, "CENC scheme decision: pattern-encryption scheme ");
                push_code(&mut s, &scheme);
                push_text(&mut s, " requires non-zero (crypt_byte_block, skip_byte_block)");
                assert(s@ =~= cenc_error_text(*self));
                s
            },
            CencError::MissingHeader(c) => about(c, ": missing FullBox header"),
            CencError::ShortPayload(c) => about(c, ": short payload"),
            CencError::UndefinedVersion(c, n) => {
                let mut s: String = about(
                    c,
                    if c == Carrier::Tenc {
                        " build: undefined version "
                    } else {
                        ": undefined version "
                    },
                );
                push_decimal(&mut s, n as u64);
                s
            },
            CencError::MissingConstantIvSize(c) => {
                let mut s: String = about(c, ": missing ");
                push_text(&mut s, c.constant_iv());
                push_text(&mut s, "_size when isProtected==1 && IV_size==0");
                s
            },
            CencError::ConstantIvSize(c, n) => {
                about_field(c, ": ", c.constant_iv(), "_size ", n, " not in {8, 16}")
            },
            CencError::BuildConstantIvSize(c, n) => {
                about_field(c, " build: ", c.constant_iv(), " length ", n, " not in {8, 16}")
            },
            CencError::TruncatedConstantIv(c) => {
                let mut s: String = about(c, ": truncated ");
                push_text(&mut s, c.constant_iv());
                s
            },
            CencError::IvSize(c, n) => {
                about_field(c, ": ", c.iv_size(), " ", n, " not in {0, 8, 16}")
            },
            CencError::BuildIvSize(c, n) => {
                about_field(c, " build: ", c.build_iv_size(), " ", n, " not in {0, 8, 16}")
            },
            CencError::MissingKidCount => plain("MP4 pssh: missing KID_count"),
            CencError::TruncatedKids => plain("MP4 pssh: truncated KID array"),
            CencError::MissingDataSize => plain("MP4 pssh: missing DataSize"),
            CencError::TruncatedData => plain("MP4 pssh: truncated Data"),
            CencError::UnbackedSampleCount => {
                plain("MP4 senc: sample_count exceeds what the box bytes can back")
            },
            CencError::TruncatedIv => plain("MP4 senc: truncated InitializationVector"),
            CencError::MissingSubsampleCount => plain("MP4 senc: missing subsample_count"),
            CencError::TruncatedSubsamples => plain("MP4 senc: truncated subsample table"),
            CencError::TruncatedOverride => plain("PIFF senc: truncated override triple"),
            CencError::PatternNeedsVersionOne => {
                plain("MP4 tenc build: pattern pair requires version 1")
            },
            CencError::PatternComponent(c) => {
                about(c, " build: pattern component exceeds its 4-bit field")
            },
            CencError::ConstantIvRequired(c) => {
                about(c, " build: isProtected==1 && IV_size==0 requires a constant IV")
            },
            CencError::ConstantIvNotRequired(c) => {
                about(c, " build: constant IV present but not required (would not round-trip)")
            },
            CencError::KidsNeedVersionOne => {
                plain("MP4 pssh build: KID list requires version >= 1")
            },
            CencError::KidCountTooLarge => plain("MP4 pssh build: KID_count exceeds u32"),
            CencError::DataTooLarge(c) => about(c, " build: DataSize exceeds u32"),
            CencError::FlagsTooLarge(c) => about(c, " build: flags exceed the 24-bit field"),
            CencError::SampleCountTooLarge => plain("MP4 senc build: sample_count exceeds u32"),
            CencError::IvLengthDiffers { index, length, shared } => {
                let mut s: String = String::new();
                push_text(&mut s, "MP4 senc build: sample ");
                push_decimal(&mut s, index as u64);
                push_text(&mut s, " IV length ");
                push_decimal(&mut s, length as u64);
                push_text(&mut s, " differs from the shared width ");
                push_decimal(&mut s, shared as u64);
                assert(s@ =~= cenc_error_text(*self));
                s
            },
            CencError::SubsampleCountTooLarge { index } => {
                counted("MP4 senc build: sample ", index as u64, " subsample_count exceeds u16")
            },
            CencError::UnexpectedSubsamples { index } => counted(
                "MP4 senc build: sample ",
                index as u64,
                " carries subsamples but UseSubSampleEncryption is clear",
            ),
            CencError::AlgorithmTooLarge(c) => about(
                c,
                if c == Carrier::PiffSenc {
                    " build: override AlgorithmID exceeds its 24-bit field"
                } else {
                    " build: AlgorithmID exceeds its 24-bit field"
                },
            ),
            CencError::OverrideDisagrees => {
                plain("PIFF senc build: flags & 1 disagrees with the override triple's presence")
            },
            CencError::PiffVersionedPssh => {
                plain("PIFF pssh build: only the version-0 pssh layout exists in PIFF")
            },
            CencError::PiffKids => {
                plain("PIFF pssh build: KID list requires the CENC v1 pssh, not the PIFF uuid form")
            },
            CencError::NoCipher(id) => {
                let mut s: String = String::new();
                push_text(&mut s, "PIFF tenc: AlgorithmID 0x");
                push_hexadecimal(&mut s, id as u64);
                push_text(&mut s, " names no cipher");
                assert(s@ =~= cenc_error_text(*self));
                s
            },
            CencError::Unprotected => plain(
                "MP4 cenc cipher plan: track default is unprotected (IvSupply::None) — no plan",
            ),
            CencError::UnknownScheme => plain(
                "MP4 cenc cipher plan: unknown scheme — caller supplies its own dialect walker",
            ),
            CencError::BothZero { index } => counted(
                "MP4 cenc cipher plan: subsample ",
                index as u64,
                " is both-zero (§9.5.1 prohibition)",
            ),
            CencError::RunLengthOverflow => {
                plain("MP4 cenc cipher plan: subsample run-length overflow")
            },
            CencError::PastSampleLen { index, end, sample_len } => {
                let mut s: String = String::new();
                push_text(&mut s, "MP4 cenc cipher plan: subsample ");
                push_decimal(&mut s, index as u64);
                push_text(&mut s, " ends at ");
                push_decimal(&mut s, end as u64);
                push_text(&mut s, " past sample_len ");
                push_decimal(&mut s, sample_len as u64);
                assert(s@ =~= cenc_error_text(*self));
                s
            },
            CencError::SubsampleTotal { total, sample_len } => {
                let mut s: String = String::new();
                push_text(&mut s, "MP4 cenc cipher plan: subsample total ");
                push_decimal(&mut s, total as u64);
                push_text(&mut s, " != sample_len ");
                push_decimal(&mut s, sample_len as u64);
                push_text(&mut s, " (§9.5.1)");
                assert(s@ =~= cenc_error_text(*self));
                s
            },
        }
    }
}

} // verus!
