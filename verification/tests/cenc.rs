//! Common Encryption records and the per-sample cipher plan.

use oxideav_mp4::cenc::senc::{build_senc_sample_table, parse_senc_sample_table};
use oxideav_mp4::cenc::{
    build_piff_pssh_box, build_piff_senc_box, build_piff_tenc_box, build_pssh_box,
    build_seig_entry, build_senc_box, build_tenc_box, parse_piff_pssh, parse_piff_senc,
    parse_piff_tenc, parse_pssh, parse_seig, parse_senc, parse_tenc, plan_sample_cipher,
    CencScheme, CencSchemeDecision, CipherMode, CipherStep, CipherStepKind, IvSupply, PiffSencBox,
    PiffSencOverride, PiffTencBox, PsshBox, SeigEntry, SencBox, SencSample, SubsampleEntry,
    TencBox, PIFF_ALGORITHM_AES_CBC, PIFF_ALGORITHM_AES_CTR, PIFF_ALGORITHM_NONE,
    PIFF_PSSH_USERTYPE, PIFF_SENC_USERTYPE, PIFF_TENC_USERTYPE,
};

fn box_body(bytes: &[u8], fourcc: &[u8; 4]) -> Vec<u8> {
    assert_eq!(
        u32::from_be_bytes([bytes[0], bytes[1], bytes[2], bytes[3]]) as usize,
        bytes.len(),
        "box size field must match total length"
    );
    assert_eq!(&bytes[4..8], fourcc);
    bytes[8..].to_vec()
}

#[test]
fn build_tenc_v0_round_trips() {
    let rec = TencBox {
        version: 0,
        default_is_protected: 1,
        default_per_sample_iv_size: 16,
        default_kid: [0x42; 16],
        default_crypt_byte_block: 0,
        default_skip_byte_block: 0,
        default_constant_iv: None,
    };
    let bytes = build_tenc_box(&rec).unwrap();
    assert_eq!(parse_tenc(&box_body(&bytes, b"tenc")).unwrap(), rec);
}

#[test]
fn build_tenc_v1_pattern_constant_iv_round_trips() {
    let rec = TencBox {
        version: 1,
        default_is_protected: 1,
        default_per_sample_iv_size: 0,
        default_kid: [0x0F; 16],
        default_crypt_byte_block: 1,
        default_skip_byte_block: 9,
        default_constant_iv: Some(vec![0xCC; 16]),
    };
    let bytes = build_tenc_box(&rec).unwrap();
    assert_eq!(parse_tenc(&box_body(&bytes, b"tenc")).unwrap(), rec);
}

#[test]
fn build_tenc_rejects_non_round_trippable_records() {
    let base = TencBox {
        version: 0,
        default_is_protected: 1,
        default_per_sample_iv_size: 8,
        default_kid: [0; 16],
        default_crypt_byte_block: 0,
        default_skip_byte_block: 0,
        default_constant_iv: None,
    };
    let mut r = base.clone();
    r.default_crypt_byte_block = 1;
    assert!(build_tenc_box(&r).is_err());
    let mut r = base.clone();
    r.version = 2;
    assert!(build_tenc_box(&r).is_err());
    let mut r = base.clone();
    r.default_per_sample_iv_size = 4;
    assert!(build_tenc_box(&r).is_err());
    let mut r = base.clone();
    r.default_per_sample_iv_size = 0;
    assert!(build_tenc_box(&r).is_err());
    let mut r = base.clone();
    r.default_constant_iv = Some(vec![0xAA; 8]);
    assert!(build_tenc_box(&r).is_err());
    let mut r = base;
    r.default_per_sample_iv_size = 0;
    r.default_constant_iv = Some(vec![0xAA; 12]);
    assert!(build_tenc_box(&r).is_err());
}

#[test]
fn build_seig_per_sample_iv_round_trips() {
    let rec = SeigEntry {
        crypt_byte_block: 0,
        skip_byte_block: 0,
        is_protected: 1,
        per_sample_iv_size: 8,
        kid: [0x7E; 16],
        constant_iv: None,
    };
    let bytes = build_seig_entry(&rec).unwrap();
    assert_eq!(bytes.len(), 20, "fixed-prefix-only entry is 20 bytes");
    assert_eq!(parse_seig(&bytes).unwrap(), rec);
}

#[test]
fn build_seig_pattern_constant_iv_round_trips() {
    let rec = SeigEntry {
        crypt_byte_block: 1,
        skip_byte_block: 9,
        is_protected: 1,
        per_sample_iv_size: 0,
        kid: [0xC4; 16],
        constant_iv: Some(vec![0x5D; 16]),
    };
    let bytes = build_seig_entry(&rec).unwrap();
    assert_eq!(bytes[1], 0x19, "crypt:4|skip:4 packing");
    assert_eq!(parse_seig(&bytes).unwrap(), rec);
}

#[test]
fn build_seig_unprotected_group_round_trips() {
    let rec = SeigEntry {
        crypt_byte_block: 0,
        skip_byte_block: 0,
        is_protected: 0,
        per_sample_iv_size: 0,
        kid: [0u8; 16],
        constant_iv: None,
    };
    let bytes = build_seig_entry(&rec).unwrap();
    assert_eq!(parse_seig(&bytes).unwrap(), rec);
}

#[test]
fn build_seig_rejects_non_round_trippable_records() {
    let base = SeigEntry {
        crypt_byte_block: 0,
        skip_byte_block: 0,
        is_protected: 1,
        per_sample_iv_size: 8,
        kid: [0x11; 16],
        constant_iv: None,
    };
    let mut r = base.clone();
    r.crypt_byte_block = 16;
    assert!(build_seig_entry(&r).is_err());
    let mut r = base.clone();
    r.per_sample_iv_size = 4;
    assert!(build_seig_entry(&r).is_err());
    let mut r = base.clone();
    r.per_sample_iv_size = 0;
    assert!(build_seig_entry(&r).is_err());
    let mut r = base.clone();
    r.constant_iv = Some(vec![0xAA; 8]);
    assert!(build_seig_entry(&r).is_err());
    let mut r = base;
    r.per_sample_iv_size = 0;
    r.constant_iv = Some(vec![0xAA; 12]);
    assert!(build_seig_entry(&r).is_err());
}

#[test]
fn build_pssh_v0_and_v1_round_trip() {
    let v0 = PsshBox {
        version: 0,
        system_id: [0x11; 16],
        kids: Vec::new(),
        data: vec![1, 2, 3, 4, 5],
    };
    let bytes = build_pssh_box(&v0).unwrap();
    assert_eq!(parse_pssh(&box_body(&bytes, b"pssh")).unwrap(), v0);

    let v1 = PsshBox {
        version: 1,
        system_id: [0x22; 16],
        kids: vec![[0xA0; 16], [0xB1; 16]],
        data: Vec::new(),
    };
    let bytes = build_pssh_box(&v1).unwrap();
    assert_eq!(parse_pssh(&box_body(&bytes, b"pssh")).unwrap(), v1);
}

#[test]
fn build_pssh_rejects_v0_with_kids() {
    let rec = PsshBox {
        version: 0,
        system_id: [0; 16],
        kids: vec![[1; 16]],
        data: Vec::new(),
    };
    assert!(build_pssh_box(&rec).is_err());
}

#[test]
fn build_senc_plain_iv_round_trips() {
    let rec = SencBox {
        flags: 0,
        samples: vec![
            SencSample {
                initialization_vector: vec![1; 8],
                subsamples: Vec::new(),
            },
            SencSample {
                initialization_vector: vec![2; 8],
                subsamples: Vec::new(),
            },
        ],
    };
    let bytes = build_senc_box(&rec).unwrap();
    assert_eq!(parse_senc(&box_body(&bytes, b"senc"), 8).unwrap(), rec);
}

#[test]
fn build_senc_subsample_round_trips() {
    let rec = SencBox {
        flags: 0x0000_0002,
        samples: vec![SencSample {
            initialization_vector: vec![7; 16],
            subsamples: vec![
                SubsampleEntry {
                    bytes_of_clear_data: 13,
                    bytes_of_protected_data: 96,
                },
                SubsampleEntry {
                    bytes_of_clear_data: 4,
                    bytes_of_protected_data: 32,
                },
            ],
        }],
    };
    let bytes = build_senc_box(&rec).unwrap();
    assert_eq!(parse_senc(&box_body(&bytes, b"senc"), 16).unwrap(), rec);
}

#[test]
fn build_senc_constant_iv_scheme_round_trips() {
    let rec = SencBox {
        flags: 0x0000_0002,
        samples: vec![SencSample {
            initialization_vector: Vec::new(),
            subsamples: vec![SubsampleEntry {
                bytes_of_clear_data: 5,
                bytes_of_protected_data: 160,
            }],
        }],
    };
    let bytes = build_senc_box(&rec).unwrap();
    assert_eq!(parse_senc(&box_body(&bytes, b"senc"), 0).unwrap(), rec);
}

#[test]
fn build_senc_rejects_inconsistent_records() {
    let rec = SencBox {
        flags: 0,
        samples: vec![
            SencSample {
                initialization_vector: vec![1; 8],
                subsamples: Vec::new(),
            },
            SencSample {
                initialization_vector: vec![2; 16],
                subsamples: Vec::new(),
            },
        ],
    };
    assert!(build_senc_box(&rec).is_err());
    let rec = SencBox {
        flags: 0,
        samples: vec![SencSample {
            initialization_vector: vec![1; 8],
            subsamples: vec![SubsampleEntry {
                bytes_of_clear_data: 1,
                bytes_of_protected_data: 2,
            }],
        }],
    };
    assert!(build_senc_box(&rec).is_err());
    let rec = SencBox {
        flags: 0x0100_0000,
        samples: Vec::new(),
    };
    assert!(build_senc_box(&rec).is_err());
    let rec = SencBox {
        flags: 0,
        samples: vec![SencSample {
            initialization_vector: vec![1; 4],
            subsamples: Vec::new(),
        }],
    };
    assert!(build_senc_box(&rec).is_err());
}

#[test]
fn tenc_v0_per_sample_iv_16_round_trip() {
    let mut body = Vec::new();
    body.extend_from_slice(&[0u8, 0, 0, 0]);
    body.push(0);
    body.push(0);
    body.push(1);
    body.push(16);
    let kid: [u8; 16] = [
        0xAA, 0xBB, 0xCC, 0xDD, 0xEE, 0xFF, 0x00, 0x11, 0x22, 0x33, 0x44, 0x55, 0x66, 0x77,
        0x88, 0x99,
    ];
    body.extend_from_slice(&kid);
    let t = parse_tenc(&body).expect("v0 parse");
    assert_eq!(t.version, 0);
    assert_eq!(t.default_is_protected, 1);
    assert_eq!(t.default_per_sample_iv_size, 16);
    assert_eq!(t.default_kid, kid);
    assert_eq!(t.default_crypt_byte_block, 0);
    assert_eq!(t.default_skip_byte_block, 0);
    assert!(t.default_constant_iv.is_none());
}

#[test]
fn tenc_v1_pattern_with_constant_iv_8() {
    let mut body = Vec::new();
    body.extend_from_slice(&[1u8, 0, 0, 0]);
    body.push(0);
    body.push((1 << 4) | 9);
    body.push(1);
    body.push(0);
    body.extend_from_slice(&[0x01; 16]);
    body.push(8);
    body.extend_from_slice(&[0xDE, 0xAD, 0xBE, 0xEF, 0xCA, 0xFE, 0xBA, 0xBE]);
    let t = parse_tenc(&body).expect("v1 parse");
    assert_eq!(t.version, 1);
    assert_eq!(t.default_crypt_byte_block, 1);
    assert_eq!(t.default_skip_byte_block, 9);
    assert_eq!(t.default_per_sample_iv_size, 0);
    assert_eq!(
        t.default_constant_iv.as_deref(),
        Some(&[0xDE, 0xAD, 0xBE, 0xEF, 0xCA, 0xFE, 0xBA, 0xBE][..])
    );
}

#[test]
fn tenc_v0_iv_size_8_no_constant() {
    let mut body = Vec::new();
    body.extend_from_slice(&[0u8, 0, 0, 0]);
    body.push(0);
    body.push(0);
    body.push(1);
    body.push(8);
    body.extend_from_slice(&[0u8; 16]);
    let t = parse_tenc(&body).expect("v0 parse");
    assert_eq!(t.default_per_sample_iv_size, 8);
    assert!(t.default_constant_iv.is_none());
}

#[test]
fn tenc_rejects_unsupported_iv_size() {
    let mut body = Vec::new();
    body.extend_from_slice(&[0u8, 0, 0, 0]);
    body.push(0);
    body.push(0);
    body.push(1);
    body.push(4);
    body.extend_from_slice(&[0u8; 16]);
    assert!(parse_tenc(&body).is_err());
}

#[test]
fn tenc_rejects_unsupported_constant_iv_size() {
    let mut body = Vec::new();
    body.extend_from_slice(&[0u8, 0, 0, 0]);
    body.push(0);
    body.push(0);
    body.push(1);
    body.push(0);
    body.extend_from_slice(&[0u8; 16]);
    body.push(4);
    body.extend_from_slice(&[0u8; 4]);
    assert!(parse_tenc(&body).is_err());
}

#[test]
fn tenc_rejects_short_payload() {
    assert!(parse_tenc(&[0u8, 0, 0]).is_err());
    assert!(parse_tenc(&[0u8; 23]).is_err());
}

#[test]
fn tenc_rejects_truncated_constant_iv() {
    let mut body = Vec::new();
    body.extend_from_slice(&[1u8, 0, 0, 0]);
    body.push(0);
    body.push(0);
    body.push(1);
    body.push(0);
    body.extend_from_slice(&[0u8; 16]);
    body.push(16);
    body.extend_from_slice(&[0u8; 15]);
    assert!(parse_tenc(&body).is_err());
}

#[test]
fn pssh_v0_round_trip() {
    let mut body = Vec::new();
    body.extend_from_slice(&[0u8, 0, 0, 0]);
    let sysid: [u8; 16] = [
        0x10, 0x11, 0x12, 0x13, 0x14, 0x15, 0x16, 0x17, 0x18, 0x19, 0x1A, 0x1B, 0x1C, 0x1D,
        0x1E, 0x1F,
    ];
    body.extend_from_slice(&sysid);
    body.extend_from_slice(&4u32.to_be_bytes());
    body.extend_from_slice(&[0xAA, 0xBB, 0xCC, 0xDD]);
    let p = parse_pssh(&body).expect("v0 parse");
    assert_eq!(p.version, 0);
    assert_eq!(p.system_id, sysid);
    assert!(p.kids.is_empty());
    assert_eq!(p.data, vec![0xAA, 0xBB, 0xCC, 0xDD]);
}

#[test]
fn pssh_v1_two_kids_round_trip() {
    let mut body = Vec::new();
    body.extend_from_slice(&[1u8, 0, 0, 0]);
    body.extend_from_slice(&[0x42; 16]);
    body.extend_from_slice(&2u32.to_be_bytes());
    body.extend_from_slice(&[0xAA; 16]);
    body.extend_from_slice(&[0xBB; 16]);
    body.extend_from_slice(&0u32.to_be_bytes());
    let p = parse_pssh(&body).expect("v1 parse");
    assert_eq!(p.version, 1);
    assert_eq!(p.kids.len(), 2);
    assert_eq!(p.kids[0], [0xAA; 16]);
    assert_eq!(p.kids[1], [0xBB; 16]);
    assert!(p.data.is_empty());
}

#[test]
fn pssh_v1_empty_kid_list_per_spec_means_apply_to_all() {
    let mut body = Vec::new();
    body.extend_from_slice(&[1u8, 0, 0, 0]);
    body.extend_from_slice(&[0u8; 16]);
    body.extend_from_slice(&0u32.to_be_bytes());
    body.extend_from_slice(&3u32.to_be_bytes());
    body.extend_from_slice(&[1, 2, 3]);
    let p = parse_pssh(&body).expect("v1 empty-kid parse");
    assert_eq!(p.version, 1);
    assert!(p.kids.is_empty());
    assert_eq!(p.data, vec![1, 2, 3]);
}

#[test]
fn pssh_rejects_kid_count_overrun() {
    let mut body = Vec::new();
    body.extend_from_slice(&[1u8, 0, 0, 0]);
    body.extend_from_slice(&[0u8; 16]);
    body.extend_from_slice(&100u32.to_be_bytes());
    body.extend_from_slice(&[0u8; 16]);
    assert!(parse_pssh(&body).is_err());
}

#[test]
fn pssh_rejects_truncated_data() {
    let mut body = Vec::new();
    body.extend_from_slice(&[0u8, 0, 0, 0]);
    body.extend_from_slice(&[0u8; 16]);
    body.extend_from_slice(&8u32.to_be_bytes());
    body.extend_from_slice(&[1u8; 4]);
    assert!(parse_pssh(&body).is_err());
}

#[test]
fn senc_v0_iv16_no_subsamples_round_trip() {
    let mut body = Vec::new();
    body.extend_from_slice(&[0u8, 0, 0, 0]);
    body.extend_from_slice(&2u32.to_be_bytes());
    body.extend_from_slice(&[0x11; 16]);
    body.extend_from_slice(&[0x22; 16]);
    let s = parse_senc(&body, 16).expect("no-sub parse");
    assert_eq!(s.flags, 0);
    assert!(!s.uses_subsample_encryption());
    assert_eq!(s.samples.len(), 2);
    assert_eq!(s.samples[0].initialization_vector, vec![0x11; 16]);
    assert_eq!(s.samples[1].initialization_vector, vec![0x22; 16]);
    assert!(s.samples[0].subsamples.is_empty());
}

#[test]
fn senc_subsamples_round_trip() {
    let mut body = Vec::new();
    body.extend_from_slice(&[0u8, 0, 0, 0x02]);
    body.extend_from_slice(&1u32.to_be_bytes());
    body.extend_from_slice(&[0x33; 8]);
    body.extend_from_slice(&2u16.to_be_bytes());
    body.extend_from_slice(&3u16.to_be_bytes());
    body.extend_from_slice(&17u32.to_be_bytes());
    body.extend_from_slice(&5u16.to_be_bytes());
    body.extend_from_slice(&11u32.to_be_bytes());
    let s = parse_senc(&body, 8).expect("sub parse");
    assert!(s.uses_subsample_encryption());
    assert_eq!(s.samples.len(), 1);
    assert_eq!(s.samples[0].initialization_vector, vec![0x33; 8]);
    assert_eq!(s.samples[0].subsamples.len(), 2);
    assert_eq!(s.samples[0].subsamples[0].bytes_of_clear_data, 3);
    assert_eq!(s.samples[0].subsamples[0].bytes_of_protected_data, 17);
    assert_eq!(s.samples[0].subsamples[1].bytes_of_clear_data, 5);
    assert_eq!(s.samples[0].subsamples[1].bytes_of_protected_data, 11);
}

#[test]
fn senc_constant_iv_scheme_iv0() {
    let mut body = Vec::new();
    body.extend_from_slice(&[0u8, 0, 0, 0]);
    body.extend_from_slice(&3u32.to_be_bytes());
    let s = parse_senc(&body, 0).expect("iv0 parse");
    assert_eq!(s.samples.len(), 3);
    for entry in &s.samples {
        assert!(entry.initialization_vector.is_empty());
    }
}

#[test]
fn senc_rejects_invalid_iv_size() {
    let body = vec![0u8, 0, 0, 0, 0, 0, 0, 0];
    assert!(parse_senc(&body, 4).is_err());
}

#[test]
fn senc_rejects_truncated_iv() {
    let mut body = Vec::new();
    body.extend_from_slice(&[0u8, 0, 0, 0]);
    body.extend_from_slice(&2u32.to_be_bytes());
    body.extend_from_slice(&[0x44; 16]);
    assert!(parse_senc(&body, 16).is_err());
}

#[test]
fn senc_rejects_truncated_subsample_table() {
    let mut body = Vec::new();
    body.extend_from_slice(&[0u8, 0, 0, 0x02]);
    body.extend_from_slice(&1u32.to_be_bytes());
    body.extend_from_slice(&[0x55; 16]);
    body.extend_from_slice(&3u16.to_be_bytes());
    body.extend_from_slice(&0u16.to_be_bytes());
    body.extend_from_slice(&0u32.to_be_bytes());
    assert!(parse_senc(&body, 16).is_err());
}

#[test]
fn scheme_fourcc_round_trip() {
    for fc in [b"cenc", b"cbc1", b"cens", b"cbcs"] {
        let s = CencScheme::from_fourcc(fc);
        assert_eq!(&s.fourcc(), fc, "round trip {fc:?}");
    }
    let priv_fc = b"priv";
    let s = CencScheme::from_fourcc(priv_fc);
    assert!(matches!(s, CencScheme::Unknown(b) if &b == priv_fc));
    assert_eq!(s.fourcc(), *priv_fc);
}

#[test]
fn scheme_cipher_mode_routes_ctr_vs_cbc() {
    assert_eq!(
        CencScheme::Cenc.cipher_mode(),
        Some(CipherMode::Ctr),
        "cenc -> CTR"
    );
    assert_eq!(
        CencScheme::Cens.cipher_mode(),
        Some(CipherMode::Ctr),
        "cens -> CTR"
    );
    assert_eq!(
        CencScheme::Cbc1.cipher_mode(),
        Some(CipherMode::Cbc),
        "cbc1 -> CBC"
    );
    assert_eq!(
        CencScheme::Cbcs.cipher_mode(),
        Some(CipherMode::Cbc),
        "cbcs -> CBC"
    );
    assert_eq!(CencScheme::Unknown(*b"priv").cipher_mode(), None);
}

#[test]
fn scheme_pattern_flag() {
    assert!(!CencScheme::Cenc.uses_pattern_encryption());
    assert!(!CencScheme::Cbc1.uses_pattern_encryption());
    assert!(CencScheme::Cens.uses_pattern_encryption());
    assert!(CencScheme::Cbcs.uses_pattern_encryption());
    assert!(!CencScheme::Unknown(*b"priv").uses_pattern_encryption());
}

#[test]
fn scheme_required_tenc_version() {
    assert_eq!(CencScheme::Cenc.required_tenc_version(), Some(0));
    assert_eq!(CencScheme::Cbc1.required_tenc_version(), Some(0));
    assert_eq!(CencScheme::Cens.required_tenc_version(), Some(1));
    assert_eq!(CencScheme::Cbcs.required_tenc_version(), Some(1));
    assert_eq!(CencScheme::Unknown(*b"priv").required_tenc_version(), None);
}

fn cenc_tenc_v0_per_sample() -> TencBox {
    TencBox {
        version: 0,
        default_is_protected: 1,
        default_per_sample_iv_size: 16,
        default_kid: [0xAA; 16],
        default_crypt_byte_block: 0,
        default_skip_byte_block: 0,
        default_constant_iv: None,
    }
}

fn cbcs_tenc_v1_constant_iv() -> TencBox {
    TencBox {
        version: 1,
        default_is_protected: 1,
        default_per_sample_iv_size: 0,
        default_kid: [0xBB; 16],
        default_crypt_byte_block: 1,
        default_skip_byte_block: 9,
        default_constant_iv: Some(vec![0xCA; 16]),
    }
}

#[test]
fn decision_routes_cenc_to_ctr_per_sample() {
    let d = CencSchemeDecision::new(CencScheme::Cenc, cenc_tenc_v0_per_sample())
        .expect("cenc decision");
    assert_eq!(d.cipher_mode(), Some(CipherMode::Ctr));
    assert!(!d.uses_pattern_encryption());
    assert_eq!(d.iv_supply(), IvSupply::PerSample { size: 16 });
}

#[test]
fn decision_routes_cbcs_to_cbc_constant_iv_pattern() {
    let d = CencSchemeDecision::new(CencScheme::Cbcs, cbcs_tenc_v1_constant_iv())
        .expect("cbcs decision");
    assert_eq!(d.cipher_mode(), Some(CipherMode::Cbc));
    assert!(d.uses_pattern_encryption());
    assert_eq!(d.iv_supply(), IvSupply::Constant);
    assert_eq!(d.tenc.default_constant_iv.as_deref(), Some(&[0xCA; 16][..]));
}

#[test]
fn decision_rejects_version_mismatch() {
    let bad = TencBox {
        version: 1,
        ..cenc_tenc_v0_per_sample()
    };
    let err = CencSchemeDecision::new(CencScheme::Cenc, bad).unwrap_err();
    let msg = err.message();
    assert!(msg.contains("requires tenc version 0"), "msg={msg}");
}

#[test]
fn decision_rejects_pattern_scheme_with_zero_pattern() {
    let bad = TencBox {
        default_crypt_byte_block: 0,
        default_skip_byte_block: 0,
        ..cbcs_tenc_v1_constant_iv()
    };
    let err = CencSchemeDecision::new(CencScheme::Cbcs, bad).unwrap_err();
    let msg = err.message();
    assert!(msg.contains("pattern-encryption"), "msg={msg}");
}

#[test]
fn decision_unprotected_track_is_iv_none() {
    let plain = TencBox {
        version: 0,
        default_is_protected: 0,
        default_per_sample_iv_size: 0,
        default_kid: [0u8; 16],
        default_crypt_byte_block: 0,
        default_skip_byte_block: 0,
        default_constant_iv: None,
    };
    let d = CencSchemeDecision::new(CencScheme::Cenc, plain).expect("plaintext decision");
    assert_eq!(d.iv_supply(), IvSupply::Unprotected);
}

#[test]
fn decision_unknown_scheme_routes_unconstrained() {
    let d =
        CencSchemeDecision::new(CencScheme::from_fourcc(b"priv"), cenc_tenc_v0_per_sample())
            .expect("unknown scheme decision");
    assert!(matches!(d.scheme, CencScheme::Unknown(b) if &b == b"priv"));
    assert_eq!(d.cipher_mode(), None);
    assert!(!d.uses_pattern_encryption());
}

#[test]
fn seig_per_sample_iv_round_trip() {
    let mut body: Vec<u8> = vec![
        0,
        0,
        1,
        16,
    ];
    let kid: [u8; 16] = [
        0x11, 0x12, 0x13, 0x14, 0x15, 0x16, 0x17, 0x18, 0x19, 0x1A, 0x1B, 0x1C, 0x1D, 0x1E,
        0x1F, 0x20,
    ];
    body.extend_from_slice(&kid);
    let s = parse_seig(&body).expect("seig per-sample IV");
    assert_eq!(s.is_protected, 1);
    assert_eq!(s.per_sample_iv_size, 16);
    assert_eq!(s.kid, kid);
    assert_eq!(s.crypt_byte_block, 0);
    assert_eq!(s.skip_byte_block, 0);
    assert!(s.constant_iv.is_none());
    assert_eq!(s.iv_supply(), IvSupply::PerSample { size: 16 });
    assert!(!s.uses_pattern_encryption());
}

#[test]
fn seig_pattern_constant_iv_round_trip() {
    let mut body: Vec<u8> = vec![
        0,
        (1 << 4) | 9,
        1,
        0,
    ];
    body.extend_from_slice(&[0x77; 16]);
    body.push(16);
    body.extend_from_slice(&[0xDD; 16]);
    let s = parse_seig(&body).expect("seig pattern + constant IV");
    assert_eq!(s.crypt_byte_block, 1);
    assert_eq!(s.skip_byte_block, 9);
    assert_eq!(s.per_sample_iv_size, 0);
    assert_eq!(s.constant_iv.as_deref(), Some(&[0xDD; 16][..]));
    assert_eq!(s.iv_supply(), IvSupply::Constant);
    assert!(s.uses_pattern_encryption());
}

#[test]
fn seig_unprotected_group_override() {
    let mut body: Vec<u8> = vec![
        0,
        0,
        0,
        0,
    ];
    body.extend_from_slice(&[0u8; 16]);
    let s = parse_seig(&body).expect("seig unprotected group");
    assert_eq!(s.is_protected, 0);
    assert_eq!(s.iv_supply(), IvSupply::Unprotected);
}

#[test]
fn seig_ignores_trailing_bytes_per_spec_note() {
    let mut body: Vec<u8> = vec![0, 0, 1, 8];
    body.extend_from_slice(&[0x33; 16]);
    body.extend_from_slice(&[0xFE, 0xED, 0xBE, 0xEF]);
    let s = parse_seig(&body).expect("seig with trailing bytes");
    assert_eq!(s.per_sample_iv_size, 8);
}

#[test]
fn seig_rejects_unsupported_iv_size() {
    let mut body: Vec<u8> = vec![0, 0, 1, 4];
    body.extend_from_slice(&[0u8; 16]);
    assert!(parse_seig(&body).is_err());
}

#[test]
fn seig_rejects_unsupported_constant_iv_size() {
    let mut body: Vec<u8> = vec![0, 0, 1, 0];
    body.extend_from_slice(&[0u8; 16]);
    body.push(4);
    body.extend_from_slice(&[0u8; 4]);
    assert!(parse_seig(&body).is_err());
}

#[test]
fn seig_rejects_short_payload() {
    assert!(parse_seig(&[0u8; 19]).is_err());
}

#[test]
fn seig_rejects_truncated_constant_iv() {
    let mut body: Vec<u8> = vec![0, 0, 1, 0];
    body.extend_from_slice(&[0u8; 16]);
    body.push(16);
    body.extend_from_slice(&[0u8; 15]);
    assert!(parse_seig(&body).is_err());
}

fn cbc1_tenc_v0_per_sample() -> TencBox {
    TencBox {
        version: 0,
        default_is_protected: 1,
        default_per_sample_iv_size: 16,
        default_kid: [0x12; 16],
        default_crypt_byte_block: 0,
        default_skip_byte_block: 0,
        default_constant_iv: None,
    }
}

fn cens_tenc_v1_pattern_1_9() -> TencBox {
    TencBox {
        version: 1,
        default_is_protected: 1,
        default_per_sample_iv_size: 8,
        default_kid: [0x44; 16],
        default_crypt_byte_block: 1,
        default_skip_byte_block: 9,
        default_constant_iv: None,
    }
}

fn sub(clear: u16, protected: u32) -> SubsampleEntry {
    SubsampleEntry {
        bytes_of_clear_data: clear,
        bytes_of_protected_data: protected,
    }
}

#[test]
fn plan_cenc_full_sample_ctr_one_encrypted_span() {
    let d = CencSchemeDecision::new(CencScheme::Cenc, cenc_tenc_v0_per_sample()).unwrap();
    let plan = plan_sample_cipher(&d, None, 137).expect("full-sample cenc");
    assert_eq!(plan.len(), 1);
    assert_eq!(plan[0].offset, 0);
    assert_eq!(plan[0].len, 137);
    assert_eq!(plan[0].kind, CipherStepKind::Encrypted);
    assert!(!plan[0].iv_restart);
}

#[test]
fn plan_cbc1_full_sample_leaves_trailing_partial_clear() {
    let d = CencSchemeDecision::new(CencScheme::Cbc1, cbc1_tenc_v0_per_sample()).unwrap();
    let plan = plan_sample_cipher(&d, None, 137).expect("full-sample cbc1");
    assert_eq!(plan.len(), 2);
    assert_eq!(plan[0].kind, CipherStepKind::Encrypted);
    assert_eq!(plan[0].len, 128);
    assert_eq!(plan[1].kind, CipherStepKind::Clear);
    assert_eq!(plan[1].offset, 128);
    assert_eq!(plan[1].len, 9);
}

#[test]
fn plan_cbc1_full_sample_aligned_no_clear_tail() {
    let d = CencSchemeDecision::new(CencScheme::Cbc1, cbc1_tenc_v0_per_sample()).unwrap();
    let plan = plan_sample_cipher(&d, None, 64).expect("aligned cbc1");
    assert_eq!(plan.len(), 1);
    assert_eq!(plan[0].kind, CipherStepKind::Encrypted);
    assert_eq!(plan[0].len, 64);
}

#[test]
fn plan_cenc_subsamples_clear_then_encrypted() {
    let d = CencSchemeDecision::new(CencScheme::Cenc, cenc_tenc_v0_per_sample()).unwrap();
    let subs = vec![sub(5, 32), sub(3, 16)];
    let plan = plan_sample_cipher(&d, Some(&subs), 56).expect("subsamples cenc");
    assert_eq!(plan.len(), 4);
    assert_eq!(
        plan[0],
        CipherStep {
            offset: 0,
            len: 5,
            kind: CipherStepKind::Clear,
            iv_restart: false
        }
    );
    assert_eq!(
        plan[1],
        CipherStep {
            offset: 5,
            len: 32,
            kind: CipherStepKind::Encrypted,
            iv_restart: false
        }
    );
    assert_eq!(
        plan[2],
        CipherStep {
            offset: 37,
            len: 3,
            kind: CipherStepKind::Clear,
            iv_restart: false
        }
    );
    assert_eq!(
        plan[3],
        CipherStep {
            offset: 40,
            len: 16,
            kind: CipherStepKind::Encrypted,
            iv_restart: false
        }
    );
}

#[test]
fn plan_cbc1_subsamples_no_iv_restart() {
    let d = CencSchemeDecision::new(CencScheme::Cbc1, cbc1_tenc_v0_per_sample()).unwrap();
    let subs = vec![sub(0, 32), sub(0, 16)];
    let plan = plan_sample_cipher(&d, Some(&subs), 48).expect("subsamples cbc1");
    assert_eq!(plan.len(), 2);
    assert_eq!(plan[0].kind, CipherStepKind::Encrypted);
    assert_eq!(plan[1].kind, CipherStepKind::Encrypted);
    assert!(plan.iter().all(|s| !s.iv_restart));
}

#[test]
fn plan_cbcs_subsamples_iv_restart_per_subsample() {
    let d = CencSchemeDecision::new(CencScheme::Cbcs, cbcs_tenc_v1_constant_iv()).unwrap();
    let subs = vec![sub(8, 160), sub(8, 160)];
    let plan = plan_sample_cipher(&d, Some(&subs), 336).expect("subsamples cbcs");
    assert_eq!(plan.len(), 6);
    assert_eq!(plan[1].kind, CipherStepKind::Encrypted);
    assert!(plan[1].iv_restart);
    assert_eq!(plan[4].kind, CipherStepKind::Encrypted);
    assert!(plan[4].iv_restart);
}

#[test]
fn plan_cens_subsamples_no_iv_restart_under_ctr() {
    let d = CencSchemeDecision::new(CencScheme::Cens, cens_tenc_v1_pattern_1_9()).unwrap();
    let subs = vec![sub(8, 160), sub(8, 160)];
    let plan = plan_sample_cipher(&d, Some(&subs), 336).expect("subsamples cens");
    assert!(plan.iter().all(|s| !s.iv_restart));
}

#[test]
fn plan_pattern_1_9_one_repetition_exact() {
    let d = CencSchemeDecision::new(CencScheme::Cbcs, cbcs_tenc_v1_constant_iv()).unwrap();
    let subs = vec![sub(0, 160)];
    let plan = plan_sample_cipher(&d, Some(&subs), 160).expect("one-rep pattern");
    assert_eq!(plan.len(), 2);
    assert_eq!(
        plan[0],
        CipherStep {
            offset: 0,
            len: 16,
            kind: CipherStepKind::Encrypted,
            iv_restart: true
        }
    );
    assert_eq!(
        plan[1],
        CipherStep {
            offset: 16,
            len: 144,
            kind: CipherStepKind::Clear,
            iv_restart: false
        }
    );
}

#[test]
fn plan_pattern_trailing_partial_encrypted_block_goes_clear() {
    let pattern_tenc = TencBox {
        version: 1,
        default_is_protected: 1,
        default_per_sample_iv_size: 16,
        default_kid: [0x77; 16],
        default_crypt_byte_block: 2,
        default_skip_byte_block: 1,
        default_constant_iv: None,
    };
    let d = CencSchemeDecision::new(CencScheme::Cens, pattern_tenc).unwrap();
    let subs = vec![sub(0, 37)];
    let plan = plan_sample_cipher(&d, Some(&subs), 37).expect("partial crypt -> clear");
    assert_eq!(plan.len(), 2);
    assert_eq!(plan[0].kind, CipherStepKind::Encrypted);
    assert_eq!(plan[0].len, 32);
    assert_eq!(plan[1].kind, CipherStepKind::Clear);
    assert_eq!(plan[1].offset, 32);
    assert_eq!(plan[1].len, 5);
}

#[test]
fn plan_pattern_truncated_mid_skip_run() {
    let d = CencSchemeDecision::new(CencScheme::Cbcs, cbcs_tenc_v1_constant_iv()).unwrap();
    let subs = vec![sub(0, 66)];
    let plan = plan_sample_cipher(&d, Some(&subs), 66).expect("truncated skip run");
    assert_eq!(plan.len(), 2);
    assert_eq!(plan[0].kind, CipherStepKind::Encrypted);
    assert_eq!(plan[0].len, 16);
    assert_eq!(plan[1].kind, CipherStepKind::Clear);
    assert_eq!(plan[1].len, 50);
}

#[test]
fn plan_rejects_subsample_totals_short_of_sample_len() {
    let d = CencSchemeDecision::new(CencScheme::Cenc, cenc_tenc_v0_per_sample()).unwrap();
    let subs = vec![sub(5, 32)];
    let err = plan_sample_cipher(&d, Some(&subs), 100).unwrap_err();
    let msg = err.message();
    assert!(
        msg.contains("subsample total") || msg.contains("!="),
        "msg={msg}"
    );
}

#[test]
fn plan_rejects_subsample_totals_over_sample_len() {
    let d = CencSchemeDecision::new(CencScheme::Cenc, cenc_tenc_v0_per_sample()).unwrap();
    let subs = vec![sub(50, 100)];
    let err = plan_sample_cipher(&d, Some(&subs), 100).unwrap_err();
    let msg = err.message();
    assert!(msg.contains("past sample_len"), "msg={msg}");
}

#[test]
fn plan_rejects_both_zero_subsample() {
    let d = CencSchemeDecision::new(CencScheme::Cenc, cenc_tenc_v0_per_sample()).unwrap();
    let subs = vec![sub(10, 10), sub(0, 0), sub(5, 5)];
    let err = plan_sample_cipher(&d, Some(&subs), 30).unwrap_err();
    let msg = err.message();
    assert!(msg.contains("both-zero"), "msg={msg}");
}

#[test]
fn plan_rejects_unprotected_track_default() {
    let plain = TencBox {
        version: 0,
        default_is_protected: 0,
        default_per_sample_iv_size: 0,
        default_kid: [0u8; 16],
        default_crypt_byte_block: 0,
        default_skip_byte_block: 0,
        default_constant_iv: None,
    };
    let d = CencSchemeDecision::new(CencScheme::Cenc, plain).unwrap();
    let err = plan_sample_cipher(&d, None, 100).unwrap_err();
    let msg = err.message();
    assert!(msg.contains("unprotected"), "msg={msg}");
}

#[test]
fn plan_rejects_unknown_scheme() {
    let d =
        CencSchemeDecision::new(CencScheme::from_fourcc(b"priv"), cenc_tenc_v0_per_sample())
            .unwrap();
    let err = plan_sample_cipher(&d, None, 100).unwrap_err();
    let msg = err.message();
    assert!(msg.contains("unknown scheme"), "msg={msg}");
}

#[test]
fn plan_empty_sample_yields_empty_plan() {
    let d = CencSchemeDecision::new(CencScheme::Cenc, cenc_tenc_v0_per_sample()).unwrap();
    let plan = plan_sample_cipher(&d, None, 0).expect("empty sample");
    assert!(plan.is_empty());
}

#[test]
fn plan_subsample_with_only_clear_emits_clear_only() {
    let d = CencSchemeDecision::new(CencScheme::Cenc, cenc_tenc_v0_per_sample()).unwrap();
    let subs = vec![sub(20, 0), sub(0, 16)];
    let plan = plan_sample_cipher(&d, Some(&subs), 36).expect("clear-only sub");
    assert_eq!(plan.len(), 2);
    assert_eq!(plan[0].kind, CipherStepKind::Clear);
    assert_eq!(plan[0].len, 20);
    assert_eq!(plan[1].kind, CipherStepKind::Encrypted);
    assert_eq!(plan[1].offset, 20);
    assert_eq!(plan[1].len, 16);
}

#[test]
fn plan_subsample_with_only_protected_emits_encrypted_only() {
    let d = CencSchemeDecision::new(CencScheme::Cenc, cenc_tenc_v0_per_sample()).unwrap();
    let subs = vec![sub(0, 32)];
    let plan = plan_sample_cipher(&d, Some(&subs), 32).expect("protected-only sub");
    assert_eq!(plan.len(), 1);
    assert_eq!(plan[0].kind, CipherStepKind::Encrypted);
    assert_eq!(plan[0].len, 32);
}

#[test]
fn plan_partitions_cover_sample_len_exactly() {
    let d = CencSchemeDecision::new(CencScheme::Cbcs, cbcs_tenc_v1_constant_iv()).unwrap();
    let subs = vec![sub(8, 160), sub(4, 156), sub(0, 16)];
    let total: u64 = subs
        .iter()
        .map(|s| s.bytes_of_clear_data as u64 + s.bytes_of_protected_data as u64)
        .sum();
    let plan = plan_sample_cipher(&d, Some(&subs), total).expect("partition cover");
    let mut prev_end = 0u64;
    let mut sum = 0u64;
    for step in &plan {
        assert_eq!(step.offset, prev_end, "non-contiguous step");
        assert!(step.len > 0, "zero-length step");
        prev_end = step.offset + step.len;
        sum += step.len;
    }
    assert_eq!(sum, total);
    assert_eq!(prev_end, total);
}

fn piff_tenc_ctr() -> PiffTencBox {
    PiffTencBox {
        algorithm_id: PIFF_ALGORITHM_AES_CTR,
        iv_size: 8,
        kid: [0x11; 16],
    }
}

#[test]
fn piff_tenc_round_trip() {
    let t = piff_tenc_ctr();
    let bytes = build_piff_tenc_box(&t).unwrap();
    assert_eq!(bytes.len(), 8 + 16 + 4 + 20);
    assert_eq!(&bytes[4..8], b"uuid");
    assert_eq!(&bytes[8..24], &PIFF_TENC_USERTYPE);
    let back = parse_piff_tenc(&bytes[24..]).unwrap();
    assert_eq!(back, t);
}

#[test]
fn piff_tenc_scheme_bridges() {
    let ctr = piff_tenc_ctr();
    assert_eq!(ctr.scheme(), Some(CencScheme::Cenc));
    assert_eq!(ctr.cipher_mode(), Some(CipherMode::Ctr));
    let tenc = ctr.to_tenc();
    assert_eq!(tenc.version, 0);
    assert_eq!(tenc.default_is_protected, 1);
    assert_eq!(tenc.default_per_sample_iv_size, 8);
    assert_eq!(tenc.default_kid, [0x11; 16]);
    assert_eq!(tenc.default_constant_iv, None);
    let decision = ctr.scheme_decision().expect("CTR routes to cenc");
    assert_eq!(decision.cipher_mode(), Some(CipherMode::Ctr));

    let cbc = PiffTencBox {
        algorithm_id: PIFF_ALGORITHM_AES_CBC,
        iv_size: 16,
        kid: [0x22; 16],
    };
    assert_eq!(cbc.scheme(), Some(CencScheme::Cbc1));
    assert_eq!(cbc.cipher_mode(), Some(CipherMode::Cbc));

    let none = PiffTencBox {
        algorithm_id: PIFF_ALGORITHM_NONE,
        iv_size: 0,
        kid: [0; 16],
    };
    assert_eq!(none.scheme(), None);
    assert!(none.scheme_decision().is_err());
    assert_eq!(none.to_tenc().default_is_protected, 0);
}

#[test]
fn piff_tenc_hostile_inputs() {
    assert!(parse_piff_tenc(&[0, 0]).is_err());
    assert!(parse_piff_tenc(&[1, 0, 0, 0, 0, 0, 1, 8]).is_err());
    assert!(parse_piff_tenc(&[0, 0, 0, 0]).is_err());
    let mut body = vec![0u8; 24];
    body[6] = 1;
    body[7] = 9;
    let err = parse_piff_tenc(&body).expect_err("IV size 9 must fail");
    assert!(err.message().contains("IV_size"), "{}", err.message());
    let bad = PiffTencBox {
        algorithm_id: 0x0100_0000,
        iv_size: 8,
        kid: [0; 16],
    };
    assert!(build_piff_tenc_box(&bad).is_err());
}

fn piff_senc_with_override() -> PiffSencBox {
    PiffSencBox {
        flags: 0x0000_0003,
        override_params: Some(PiffSencOverride {
            algorithm_id: PIFF_ALGORITHM_AES_CTR,
            iv_size: 16,
            kid: [0xAB; 16],
        }),
        samples: vec![
            SencSample {
                initialization_vector: vec![0x01; 16],
                subsamples: vec![SubsampleEntry {
                    bytes_of_clear_data: 9,
                    bytes_of_protected_data: 480,
                }],
            },
            SencSample {
                initialization_vector: vec![0x02; 16],
                subsamples: vec![
                    SubsampleEntry {
                        bytes_of_clear_data: 5,
                        bytes_of_protected_data: 128,
                    },
                    SubsampleEntry {
                        bytes_of_clear_data: 0,
                        bytes_of_protected_data: 64,
                    },
                ],
            },
        ],
    }
}

#[test]
fn piff_senc_override_round_trip() {
    let s = piff_senc_with_override();
    let bytes = build_piff_senc_box(&s).unwrap();
    assert_eq!(&bytes[4..8], b"uuid");
    assert_eq!(&bytes[8..24], &PIFF_SENC_USERTYPE);
    let back = parse_piff_senc(&bytes[24..], 8).unwrap();
    assert_eq!(back, s);
    assert!(back.has_override());
    assert!(back.uses_subsample_encryption());
}

#[test]
fn piff_senc_default_iv_round_trip() {
    let s = PiffSencBox {
        flags: 0,
        override_params: None,
        samples: vec![
            SencSample {
                initialization_vector: vec![0x0A; 8],
                subsamples: Vec::new(),
            },
            SencSample {
                initialization_vector: vec![0x0B; 8],
                subsamples: Vec::new(),
            },
        ],
    };
    let bytes = build_piff_senc_box(&s).unwrap();
    let back = parse_piff_senc(&bytes[24..], 8).unwrap();
    assert_eq!(back, s);
    assert!(parse_piff_senc(&bytes[24..], 16).is_err());
}

#[test]
fn piff_senc_to_senc_masks_override_bit() {
    let s = piff_senc_with_override();
    let senc = s.to_senc();
    assert_eq!(senc.flags, 0x0000_0002, "only the subsample bit survives");
    assert!(senc.uses_subsample_encryption());
    assert_eq!(senc.samples, s.samples);
    let senc_bytes = build_senc_box(&senc).unwrap();
    let reparsed = parse_senc(&senc_bytes[8..], 16).unwrap();
    assert_eq!(reparsed.samples, s.samples);
}

#[test]
fn piff_senc_hostile_inputs() {
    assert!(parse_piff_senc(&[1, 0, 0, 0], 8).is_err());
    let body = [0u8, 0, 0, 1, 0xAA, 0xBB];
    let err = parse_piff_senc(&body, 8).expect_err("truncated override");
    assert!(err.message().contains("override"), "{}", err.message());
    let mut body = vec![0u8, 0, 0, 0];
    body.extend_from_slice(&1000u32.to_be_bytes());
    body.extend_from_slice(&[0x01; 8]);
    assert!(parse_piff_senc(&body, 8).is_err());
    let mut s = piff_senc_with_override();
    s.flags = 0x0000_0002;
    assert!(build_piff_senc_box(&s).is_err());
    let mut s2 = piff_senc_with_override();
    s2.override_params = None;
    assert!(build_piff_senc_box(&s2).is_err());
    let mut s3 = piff_senc_with_override();
    s3.samples[0].initialization_vector = vec![0x01; 8];
    assert!(build_piff_senc_box(&s3).is_err());
    let s4 = PiffSencBox {
        flags: 0,
        override_params: None,
        samples: vec![SencSample {
            initialization_vector: vec![0x0A; 8],
            subsamples: vec![SubsampleEntry {
                bytes_of_clear_data: 1,
                bytes_of_protected_data: 2,
            }],
        }],
    };
    assert!(build_piff_senc_box(&s4).is_err());
}

#[test]
fn piff_pssh_round_trip() {
    let p = PsshBox {
        version: 0,
        system_id: [0x5E; 16],
        kids: Vec::new(),
        data: b"licence-acquisition-blob".to_vec(),
    };
    let bytes = build_piff_pssh_box(&p).unwrap();
    assert_eq!(&bytes[4..8], b"uuid");
    assert_eq!(&bytes[8..24], &PIFF_PSSH_USERTYPE);
    let back = parse_piff_pssh(&bytes[24..]).unwrap();
    assert_eq!(back, p);
    let cenc_pssh = build_pssh_box(&p).unwrap();
    assert_eq!(&bytes[24..], &cenc_pssh[8..]);
}

#[test]
fn piff_bodies_survive_every_truncation() {
    let tenc_bytes = build_piff_tenc_box(&piff_tenc_ctr()).unwrap();
    let tenc_body = &tenc_bytes[24..];
    for cut in 0..tenc_body.len() {
        assert!(
            parse_piff_tenc(&tenc_body[..cut]).is_err(),
            "tenc is fixed-size; every truncation must fail (cut {cut})"
        );
    }

    let senc = piff_senc_with_override();
    let senc_bytes = build_piff_senc_box(&senc).unwrap();
    let senc_body = &senc_bytes[24..];
    for cut in 0..senc_body.len() {
        assert!(
            parse_piff_senc(&senc_body[..cut], 8).is_err(),
            "senc table over-runs must fail (cut {cut})"
        );
    }

    let pssh = PsshBox {
        version: 0,
        system_id: [0x5E; 16],
        kids: Vec::new(),
        data: b"blob".to_vec(),
    };
    let pssh_bytes = build_piff_pssh_box(&pssh).unwrap();
    let pssh_body = &pssh_bytes[24..];
    for cut in 0..pssh_body.len() {
        assert!(
            parse_piff_pssh(&pssh_body[..cut]).is_err(),
            "pssh DataSize is length-prefixed; every truncation must fail (cut {cut})"
        );
    }
}

#[test]
fn piff_pssh_rejects_v1_shapes() {
    let mut body = vec![1u8, 0, 0, 0];
    body.extend_from_slice(&[0x5E; 16]);
    body.extend_from_slice(&0u32.to_be_bytes());
    body.extend_from_slice(&0u32.to_be_bytes());
    let err = parse_piff_pssh(&body).expect_err("v1 must fail");
    assert!(err.message().contains("version"), "{}", err.message());
    let v1 = PsshBox {
        version: 1,
        system_id: [0x5E; 16],
        kids: Vec::new(),
        data: Vec::new(),
    };
    assert!(build_piff_pssh_box(&v1).is_err());
    let with_kids = PsshBox {
        version: 0,
        system_id: [0x5E; 16],
        kids: vec![[0x01; 16]],
        data: Vec::new(),
    };
    assert!(build_piff_pssh_box(&with_kids).is_err());
}

#[test]
fn reserved_protection_value_supplies_ivs_per_sample() {
    let mut t = cenc_tenc_v0_per_sample();
    t.default_is_protected = 2;
    t.default_per_sample_iv_size = 8;
    let d = CencSchemeDecision::new(CencScheme::Cenc, t.clone()).unwrap();
    assert_eq!(d.iv_supply(), IvSupply::PerSample { size: 8 });
    let plan = plan_sample_cipher(&d, None, 20).unwrap();
    assert_eq!(plan.len(), 1);
    assert_eq!(plan[0].kind, CipherStepKind::Encrypted);
    t.default_is_protected = 0xFF;
    t.default_per_sample_iv_size = 0;
    let d = CencSchemeDecision::new(CencScheme::Cenc, t).unwrap();
    assert_eq!(d.iv_supply(), IvSupply::PerSample { size: 0 });
}

#[test]
fn reserved_protection_value_of_a_group_supplies_ivs_per_sample() {
    let mut e = SeigEntry {
        crypt_byte_block: 0,
        skip_byte_block: 0,
        is_protected: 2,
        per_sample_iv_size: 16,
        kid: [3; 16],
        constant_iv: None,
    };
    assert_eq!(e.iv_supply(), IvSupply::PerSample { size: 16 });
    e.is_protected = 1;
    assert_eq!(e.iv_supply(), IvSupply::PerSample { size: 16 });
    e.is_protected = 0;
    assert_eq!(e.iv_supply(), IvSupply::Unprotected);
}

#[test]
fn every_strict_prefix_of_a_header_body_is_refused() {
    for version in 0..=3u8 {
        let b = PsshBox {
            version,
            system_id: [5; 16],
            kids: if version == 0 { Vec::new() } else { vec![[6; 16], [7; 16]] },
            data: vec![8; 5],
        };
        let body = box_body(&build_pssh_box(&b).unwrap(), b"pssh");
        assert_eq!(parse_pssh(&body).unwrap(), b);
        for n in 0..body.len() {
            assert!(parse_pssh(&body[..n]).is_err(), "version {version}, {n} bytes");
        }
    }
}

#[test]
fn sample_table_is_read_at_any_width_and_place() {
    // Two entries with IVs of three bytes, one byte into the slice.
    let body = [0xFF, 0, 0, 0, 2, 1, 2, 3, 4, 5, 6];
    let got = parse_senc_sample_table(&body, 1, false, 3).unwrap();
    assert_eq!(got.len(), 2);
    assert_eq!(got[0].initialization_vector, vec![1, 2, 3]);
    assert_eq!(got[1].initialization_vector, vec![4, 5, 6]);
    assert!(parse_senc_sample_table(&body, 8, false, 3).is_err());
    assert!(parse_senc_sample_table(&body, 12, false, 3).is_err());
    assert!(parse_senc_sample_table(&body, usize::MAX, true, 3).is_err());
    assert!(parse_senc_sample_table(&body, 1, true, usize::MAX).is_err());
}

#[test]
fn every_strict_prefix_of_track_and_group_defaults_is_refused() {
    for t in [cenc_tenc_v0_per_sample(), cbcs_tenc_v1_constant_iv()] {
        let body = box_body(&build_tenc_box(&t).unwrap(), b"tenc");
        assert_eq!(parse_tenc(&body).unwrap(), t);
        for n in 0..body.len() {
            assert!(parse_tenc(&body[..n]).is_err(), "{n} bytes");
        }
    }
    let e = SeigEntry {
        crypt_byte_block: 1,
        skip_byte_block: 9,
        is_protected: 1,
        per_sample_iv_size: 0,
        kid: [3; 16],
        constant_iv: Some(vec![4; 8]),
    };
    let body = build_seig_entry(&e).unwrap();
    assert_eq!(parse_seig(&body).unwrap(), e);
    for n in 0..body.len() {
        assert!(parse_seig(&body[..n]).is_err(), "{n} bytes");
    }
}

#[test]
fn refused_table_stops_before_the_entry_to_blame() {
    let sample = |iv: &[u8], rows: usize| SencSample {
        initialization_vector: iv.to_vec(),
        subsamples: vec![sub(1, 2); rows],
    };
    let mut body = vec![9];
    let samples = [sample(&[1, 1], 0), sample(&[2], 0)];
    assert!(build_senc_sample_table(&mut body, &samples, 2, false).is_err());
    assert_eq!(body, vec![9, 0, 0, 0, 2, 1, 1]);
    let mut body = vec![9];
    let samples = [sample(&[1, 1], 0), sample(&[2, 2], 1)];
    assert!(build_senc_sample_table(&mut body, &samples, 2, false).is_err());
    assert_eq!(body, vec![9, 0, 0, 0, 2, 1, 1, 2, 2]);
    let mut body = vec![9];
    build_senc_sample_table(&mut body, &samples, 2, true).unwrap();
    assert_eq!(body, vec![9, 0, 0, 0, 2, 1, 1, 0, 0, 2, 2, 0, 1, 0, 1, 0, 0, 0, 2]);
}
