//! An input for each refusal of a Common Encryption record.

use oxideav_mp4::cenc::{
    build_piff_pssh_box, build_piff_senc_box, build_piff_tenc_box, build_pssh_box,
    build_seig_entry, build_senc_box, build_tenc_box, parse_piff_pssh, parse_piff_senc,
    parse_piff_tenc, parse_pssh, parse_seig, parse_senc, parse_tenc, plan_sample_cipher, Carrier,
    CencError, CencScheme, CencSchemeDecision, PiffSencBox, PiffSencOverride, PiffTencBox, PsshBox,
    SeigEntry, SencBox, SencSample, SubsampleEntry, TencBox,
};

fn refused<T: std::fmt::Debug>(r: Result<T, CencError>, e: CencError, text: &str) {
    let got = r.unwrap_err();
    assert_eq!(got, e);
    assert_eq!(got.message(), text);
}

fn tenc(version: u8) -> TencBox {
    TencBox {
        version,
        default_is_protected: 1,
        default_per_sample_iv_size: 8,
        default_kid: [7; 16],
        default_crypt_byte_block: 0,
        default_skip_byte_block: 0,
        default_constant_iv: None,
    }
}

fn seig() -> SeigEntry {
    SeigEntry {
        crypt_byte_block: 0,
        skip_byte_block: 0,
        is_protected: 1,
        per_sample_iv_size: 8,
        kid: [7; 16],
        constant_iv: None,
    }
}

fn pssh(version: u8) -> PsshBox {
    PsshBox {
        version,
        system_id: [9; 16],
        kids: Vec::new(),
        data: vec![1, 2],
    }
}

fn sample(iv: usize, rows: usize) -> SencSample {
    SencSample {
        initialization_vector: vec![3; iv],
        subsamples: vec![
            SubsampleEntry {
                bytes_of_clear_data: 1,
                bytes_of_protected_data: 2,
            };
            rows
        ],
    }
}

/// Version, flags, two bytes of pattern, the protection flag, the IV size
/// and a KID.
fn tenc_body(is_protected: u8, iv_size: u8, tail: &[u8]) -> Vec<u8> {
    let mut b = vec![0, 0, 0, 0, 0, 0, is_protected, iv_size];
    b.extend_from_slice(&[7; 16]);
    b.extend_from_slice(tail);
    b
}

#[test]
fn scheme_decisions_that_do_not_hold() {
    refused(
        CencSchemeDecision::new(CencScheme::Cenc, tenc(1)),
        CencError::VersionMismatch {
            scheme: *b"cenc",
            required: 0,
            found: 1,
        },
        "CENC scheme decision: scheme cenc requires tenc version 0 but tenc.version = 1",
    );
    refused(
        CencSchemeDecision::new(CencScheme::Cbcs, tenc(1)),
        CencError::ZeroPattern { scheme: *b"cbcs" },
        "CENC scheme decision: pattern-encryption scheme cbcs requires non-zero \
         (crypt_byte_block, skip_byte_block)",
    );
}

#[test]
fn track_defaults_that_do_not_read() {
    refused(
        parse_tenc(&[0, 0, 0]),
        CencError::MissingHeader(Carrier::Tenc),
        "MP4 tenc: missing FullBox header",
    );
    refused(
        parse_tenc(&[0; 23]),
        CencError::ShortPayload(Carrier::Tenc),
        "MP4 tenc: short payload",
    );
    refused(
        parse_tenc(&tenc_body(1, 0, &[])),
        CencError::MissingConstantIvSize(Carrier::Tenc),
        "MP4 tenc: missing default_constant_IV_size when isProtected==1 && IV_size==0",
    );
    refused(
        parse_tenc(&tenc_body(1, 0, &[9])),
        CencError::ConstantIvSize(Carrier::Tenc, 9),
        "MP4 tenc: default_constant_IV_size 9 not in {8, 16}",
    );
    refused(
        parse_tenc(&tenc_body(1, 0, &[8, 1, 2])),
        CencError::TruncatedConstantIv(Carrier::Tenc),
        "MP4 tenc: truncated default_constant_IV",
    );
    refused(
        parse_tenc(&tenc_body(1, 12, &[])),
        CencError::IvSize(Carrier::Tenc, 12),
        "MP4 tenc: default_Per_Sample_IV_Size 12 not in {0, 8, 16}",
    );
}

#[test]
fn track_defaults_that_cannot_be_written() {
    refused(
        build_tenc_box(&tenc(2)),
        CencError::UndefinedVersion(Carrier::Tenc, 2),
        "MP4 tenc build: undefined version 2",
    );
    let mut t = tenc(0);
    t.default_skip_byte_block = 9;
    refused(
        build_tenc_box(&t),
        CencError::PatternNeedsVersionOne,
        "MP4 tenc build: pattern pair requires version 1",
    );
    let mut t = tenc(1);
    t.default_crypt_byte_block = 16;
    refused(
        build_tenc_box(&t),
        CencError::PatternComponent(Carrier::Tenc),
        "MP4 tenc build: pattern component exceeds its 4-bit field",
    );
    let mut t = tenc(0);
    t.default_per_sample_iv_size = 4;
    refused(
        build_tenc_box(&t),
        CencError::BuildIvSize(Carrier::Tenc, 4),
        "MP4 tenc build: default_Per_Sample_IV_Size 4 not in {0, 8, 16}",
    );
    t.default_per_sample_iv_size = 0;
    refused(
        build_tenc_box(&t),
        CencError::ConstantIvRequired(Carrier::Tenc),
        "MP4 tenc build: isProtected==1 && IV_size==0 requires a constant IV",
    );
    t.default_constant_iv = Some(vec![1; 7]);
    refused(
        build_tenc_box(&t),
        CencError::BuildConstantIvSize(Carrier::Tenc, 7),
        "MP4 tenc build: default_constant_IV length 7 not in {8, 16}",
    );
    t.default_is_protected = 0;
    refused(
        build_tenc_box(&t),
        CencError::ConstantIvNotRequired(Carrier::Tenc),
        "MP4 tenc build: constant IV present but not required (would not round-trip)",
    );
}

#[test]
fn group_overrides_are_refused_alike() {
    let body = |iv_size: u8, tail: &[u8]| tenc_body(1, iv_size, tail)[4..].to_vec();
    refused(
        parse_seig(&[0; 19]),
        CencError::ShortPayload(Carrier::Seig),
        "CENC seig: short payload",
    );
    refused(
        parse_seig(&body(0, &[])),
        CencError::MissingConstantIvSize(Carrier::Seig),
        "CENC seig: missing constant_IV_size when isProtected==1 && IV_size==0",
    );
    refused(
        parse_seig(&body(0, &[3])),
        CencError::ConstantIvSize(Carrier::Seig, 3),
        "CENC seig: constant_IV_size 3 not in {8, 16}",
    );
    refused(
        parse_seig(&body(0, &[16, 0])),
        CencError::TruncatedConstantIv(Carrier::Seig),
        "CENC seig: truncated constant_IV",
    );
    refused(
        parse_seig(&body(5, &[])),
        CencError::IvSize(Carrier::Seig, 5),
        "CENC seig: Per_Sample_IV_Size 5 not in {0, 8, 16}",
    );
    let mut e = seig();
    e.skip_byte_block = 16;
    refused(
        build_seig_entry(&e),
        CencError::PatternComponent(Carrier::Seig),
        "CENC seig build: pattern component exceeds its 4-bit field",
    );
    let mut e = seig();
    e.per_sample_iv_size = 7;
    refused(
        build_seig_entry(&e),
        CencError::BuildIvSize(Carrier::Seig, 7),
        "CENC seig build: Per_Sample_IV_Size 7 not in {0, 8, 16}",
    );
}

#[test]
fn system_headers_that_do_not_hold() {
    refused(
        parse_pssh(&[0; 19]),
        CencError::ShortPayload(Carrier::Pssh),
        "MP4 pssh: short payload",
    );
    let mut b = vec![1, 0, 0, 0];
    b.extend_from_slice(&[9; 16]);
    refused(
        parse_pssh(&b),
        CencError::MissingKidCount,
        "MP4 pssh: missing KID_count",
    );
    b.extend_from_slice(&[0, 0, 0, 1]);
    refused(
        parse_pssh(&b),
        CencError::TruncatedKids,
        "MP4 pssh: truncated KID array",
    );
    b.extend_from_slice(&[4; 16]);
    refused(
        parse_pssh(&b),
        CencError::MissingDataSize,
        "MP4 pssh: missing DataSize",
    );
    b.extend_from_slice(&[0, 0, 0, 3, 1, 2]);
    refused(
        parse_pssh(&b),
        CencError::TruncatedData,
        "MP4 pssh: truncated Data",
    );
    b.push(3);
    assert_eq!(parse_pssh(&b).unwrap().data, vec![1, 2, 3]);
    let mut p = pssh(0);
    p.kids.push([1; 16]);
    refused(
        build_pssh_box(&p),
        CencError::KidsNeedVersionOne,
        "MP4 pssh build: KID list requires version >= 1",
    );
}

#[test]
fn sample_tables_that_do_not_read() {
    refused(
        parse_senc(&[0; 8], 5),
        CencError::IvSize(Carrier::Senc, 5),
        "MP4 senc: per_sample_iv_size 5 not in {0, 8, 16}",
    );
    refused(
        parse_senc(&[0; 7], 8),
        CencError::ShortPayload(Carrier::Senc),
        "MP4 senc: short payload",
    );
    refused(
        parse_senc(&[0, 0, 0, 0, 0, 0, 0, 2, 1, 1, 1, 1, 1, 1, 1, 1], 8),
        CencError::UnbackedSampleCount,
        "MP4 senc: sample_count exceeds what the box bytes can back",
    );
    // Two entries, of which the first takes bytes that the second needs.
    let mut b = vec![0, 0, 0, 2, 0, 0, 0, 2];
    b.extend_from_slice(&[1; 8]);
    b.extend_from_slice(&[0, 1, 0, 1, 0, 0, 0, 2]);
    let iv_start = b.len();
    b.extend_from_slice(&[2; 8]);
    b.extend_from_slice(&[0, 1, 0, 1, 0, 0, 0, 2]);
    assert_eq!(parse_senc(&b, 8).unwrap().samples.len(), 2);
    refused(
        parse_senc(&b[..iv_start + 4], 8),
        CencError::TruncatedIv,
        "MP4 senc: truncated InitializationVector",
    );
    refused(
        parse_senc(&b[..iv_start + 9], 8),
        CencError::MissingSubsampleCount,
        "MP4 senc: missing subsample_count",
    );
    refused(
        parse_senc(&b[..iv_start + 15], 8),
        CencError::TruncatedSubsamples,
        "MP4 senc: truncated subsample table",
    );
}

#[test]
fn sample_tables_that_cannot_be_written() {
    let with = |flags: u32, samples: Vec<SencSample>| build_senc_box(&SencBox { flags, samples });
    refused(
        with(0x100_0000, vec![]),
        CencError::FlagsTooLarge(Carrier::Senc),
        "MP4 senc build: flags exceed the 24-bit field",
    );
    refused(
        with(0, vec![sample(5, 0)]),
        CencError::BuildIvSize(Carrier::Senc, 5),
        "MP4 senc build: per-sample IV length 5 not in {0, 8, 16}",
    );
    refused(
        with(0, vec![sample(8, 0), sample(16, 0)]),
        CencError::IvLengthDiffers {
            index: 1,
            length: 16,
            shared: 8,
        },
        "MP4 senc build: sample 1 IV length 16 differs from the shared width 8",
    );
    refused(
        with(2, vec![sample(8, 0), sample(8, 65_536)]),
        CencError::SubsampleCountTooLarge { index: 1 },
        "MP4 senc build: sample 1 subsample_count exceeds u16",
    );
    refused(
        with(0, vec![sample(8, 1)]),
        CencError::UnexpectedSubsamples { index: 0 },
        "MP4 senc build: sample 0 carries subsamples but UseSubSampleEncryption is clear",
    );
}

#[test]
fn piff_records_that_do_not_read() {
    refused(
        parse_piff_tenc(&[0, 0]),
        CencError::MissingHeader(Carrier::PiffTenc),
        "PIFF tenc: missing FullBox header",
    );
    refused(
        parse_piff_tenc(&[1; 24]),
        CencError::UndefinedVersion(Carrier::PiffTenc, 1),
        "PIFF tenc: undefined version 1",
    );
    refused(
        parse_piff_tenc(&[0; 23]),
        CencError::ShortPayload(Carrier::PiffTenc),
        "PIFF tenc: short payload",
    );
    let mut b = [0; 24];
    b[7] = 3;
    refused(
        parse_piff_tenc(&b),
        CencError::IvSize(Carrier::PiffTenc, 3),
        "PIFF tenc: default_IV_size 3 not in {0, 8, 16}",
    );
    refused(
        parse_piff_senc(&[0], 8),
        CencError::MissingHeader(Carrier::PiffSenc),
        "PIFF senc: missing FullBox header",
    );
    refused(
        parse_piff_senc(&[2; 8], 8),
        CencError::UndefinedVersion(Carrier::PiffSenc, 2),
        "PIFF senc: undefined version 2",
    );
    refused(
        parse_piff_senc(&[0, 0, 0, 1, 0, 0, 1], 8),
        CencError::TruncatedOverride,
        "PIFF senc: truncated override triple",
    );
    refused(
        parse_piff_senc(&[0; 8], 9),
        CencError::IvSize(Carrier::PiffSenc, 9),
        "PIFF senc: IV_size 9 not in {0, 8, 16}",
    );
    refused(
        parse_piff_pssh(&[1; 24]),
        CencError::UndefinedVersion(Carrier::PiffPssh, 1),
        "PIFF pssh: undefined version 1",
    );
}

#[test]
fn piff_records_that_cannot_be_written() {
    let mut t = PiffTencBox {
        algorithm_id: 0x100_0000,
        iv_size: 8,
        kid: [7; 16],
    };
    refused(
        build_piff_tenc_box(&t),
        CencError::AlgorithmTooLarge(Carrier::PiffTenc),
        "PIFF tenc build: AlgorithmID exceeds its 24-bit field",
    );
    t.algorithm_id = 0xAB;
    refused(
        t.scheme_decision(),
        CencError::NoCipher(0xAB),
        "PIFF tenc: AlgorithmID 0xab names no cipher",
    );
    t.iv_size = 1;
    refused(
        build_piff_tenc_box(&t),
        CencError::BuildIvSize(Carrier::PiffTenc, 1),
        "PIFF tenc build: default_IV_size 1 not in {0, 8, 16}",
    );
    let params = PiffSencOverride {
        algorithm_id: 0x100_0000,
        iv_size: 8,
        kid: [7; 16],
    };
    let mut s = PiffSencBox {
        flags: 0x100_0001,
        override_params: Some(params),
        samples: vec![],
    };
    refused(
        build_piff_senc_box(&s),
        CencError::FlagsTooLarge(Carrier::PiffSenc),
        "PIFF senc build: flags exceed the 24-bit field",
    );
    s.flags = 0;
    refused(
        build_piff_senc_box(&s),
        CencError::OverrideDisagrees,
        "PIFF senc build: flags & 1 disagrees with the override triple's presence",
    );
    s.flags = 1;
    refused(
        build_piff_senc_box(&s),
        CencError::AlgorithmTooLarge(Carrier::PiffSenc),
        "PIFF senc build: override AlgorithmID exceeds its 24-bit field",
    );
    s.flags = 0;
    s.override_params = None;
    s.samples = vec![sample(3, 0)];
    refused(
        build_piff_senc_box(&s),
        CencError::BuildIvSize(Carrier::PiffSenc, 3),
        "PIFF senc build: per-sample IV length 3 not in {0, 8, 16}",
    );
    refused(
        build_piff_pssh_box(&pssh(1)),
        CencError::PiffVersionedPssh,
        "PIFF pssh build: only the version-0 pssh layout exists in PIFF",
    );
    let mut p = pssh(0);
    p.kids.push([1; 16]);
    refused(
        build_piff_pssh_box(&p),
        CencError::PiffKids,
        "PIFF pssh build: KID list requires the CENC v1 pssh, not the PIFF uuid form",
    );
}

#[test]
fn samples_without_a_plan() {
    let decide = |scheme: CencScheme, t: TencBox| CencSchemeDecision::new(scheme, t).unwrap();
    let row = |clear: u16, protected: u32| SubsampleEntry {
        bytes_of_clear_data: clear,
        bytes_of_protected_data: protected,
    };
    let mut clear = tenc(0);
    clear.default_is_protected = 0;
    refused(
        plan_sample_cipher(&decide(CencScheme::Cenc, clear), None, 16),
        CencError::Unprotected,
        "MP4 cenc cipher plan: track default is unprotected (IvSupply::None) — no plan",
    );
    refused(
        plan_sample_cipher(&decide(CencScheme::Unknown(*b"xxxx"), tenc(0)), None, 16),
        CencError::UnknownScheme,
        "MP4 cenc cipher plan: unknown scheme — caller supplies its own dialect walker",
    );
    let d = decide(CencScheme::Cenc, tenc(0));
    refused(
        plan_sample_cipher(&d, Some(&[row(4, 4), row(0, 0)]), 8),
        CencError::BothZero { index: 1 },
        "MP4 cenc cipher plan: subsample 1 is both-zero (§9.5.1 prohibition)",
    );
    refused(
        plan_sample_cipher(&d, Some(&[row(4, 4), row(1, 0)]), 8),
        CencError::PastSampleLen {
            index: 1,
            end: 9,
            sample_len: 8,
        },
        "MP4 cenc cipher plan: subsample 1 ends at 9 past sample_len 8",
    );
    refused(
        plan_sample_cipher(&d, Some(&[row(4, 3)]), 8),
        CencError::SubsampleTotal {
            total: 7,
            sample_len: 8,
        },
        "MP4 cenc cipher plan: subsample total 7 != sample_len 8 (§9.5.1)",
    );
}

#[test]
fn code_that_is_not_printable_reads_as_question_marks() {
    let e = CencError::ZeroPattern {
        scheme: [b'a', 0, 0xFF, b'z'],
    };
    assert_eq!(
        e.message(),
        "CENC scheme decision: pattern-encryption scheme a??z requires non-zero \
         (crypt_byte_block, skip_byte_block)"
    );
}
