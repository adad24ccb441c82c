use oxideav_mp4::boxes::{FECI, FECR, FIIN, FIRE, FPAR, GITN, PAEN, SEGR};
use oxideav_mp4::fd::{
    build_feci_box, build_fiin_box, build_fpar_box, build_gitn_box, build_paen_box,
    build_reservoir_box, build_segr_box, each_child, parse_feci_box, parse_fiin_box,
    parse_fpar_box, parse_gitn_box, parse_paen_box, parse_reservoir_box, parse_segr_box,
    wr_fullbox, FeciBox, FiinBox, FparBox, FparEntry, GitnBox, GroupName, PartitionEntry,
    ReservoirBox, ReservoirEntry, SegrBox, SessionGroup,
};


/// A child whose 64-bit size is near the largest one is dropped, and the
/// walk ends.
#[test]
fn each_child_rejects_overflowing_largesize() {
    // One child header: size32 = 1 (largesize follows), fourcc,
    // then largesize = u64::MAX.
    let mut body = Vec::new();
    body.extend_from_slice(&1u32.to_be_bytes());
    body.extend_from_slice(b"junk");
    body.extend_from_slice(&u64::MAX.to_be_bytes());
    let seen = each_child(&body).len();
    assert_eq!(seen, 0, "overflowing largesize child must be dropped");
}

/// Strip a `[size:u32][fourcc]` header, asserting the size field
/// matches the total length and the fourcc matches.
fn unwrap_box<'a>(bytes: &'a [u8], fourcc: &[u8; 4]) -> &'a [u8] {
    assert!(bytes.len() >= 8);
    let total = u32::from_be_bytes([bytes[0], bytes[1], bytes[2], bytes[3]]) as usize;
    assert_eq!(total, bytes.len(), "size field must equal total length");
    assert_eq!(&bytes[4..8], fourcc, "fourcc mismatch");
    &bytes[8..]
}

#[test]
fn fpar_v0_round_trips() {
    let b = FparBox {
        version: 0,
        item_id: 0x1234,
        packet_payload_size: 1400,
        fec_encoding_id: 129,
        fec_instance_id: 7,
        max_source_block_length: 64,
        encoding_symbol_length: 1024,
        max_number_of_encoding_symbols: 255,
        scheme_specific_info: "AAEC".to_string(),
        entries: vec![
            FparEntry {
                block_count: 3,
                block_size: 4096,
            },
            FparEntry {
                block_count: 1,
                block_size: 512,
            },
        ],
    };
    let bytes = build_fpar_box(&b);
    let body = unwrap_box(&bytes, &FPAR);
    assert_eq!(parse_fpar_box(body).unwrap(), b);
}

#[test]
fn fpar_v1_uses_32bit_ids() {
    let b = FparBox {
        version: 1,
        item_id: 0x0001_0000,
        packet_payload_size: 1200,
        fec_encoding_id: 0,
        fec_instance_id: 0,
        max_source_block_length: 100,
        encoding_symbol_length: 1316,
        max_number_of_encoding_symbols: 0,
        scheme_specific_info: String::new(),
        entries: vec![FparEntry {
            block_count: 0x1_0000_u32 as u16, // wraps to 0 — still round-trips as stored
            block_size: 0xDEAD_BEEF,
        }],
    };
    let bytes = build_fpar_box(&b);
    let body = unwrap_box(&bytes, &FPAR);
    // item_id stored as 32-bit here, so the full value survives.
    let parsed = parse_fpar_box(body).unwrap();
    assert_eq!(parsed.item_id, 0x0001_0000);
    assert_eq!(parsed.entries[0].block_size, 0xDEAD_BEEF);
}

#[test]
fn fpar_empty_scheme_info_terminator_present() {
    let b = FparBox {
        version: 0,
        item_id: 1,
        packet_payload_size: 0,
        fec_encoding_id: 0,
        fec_instance_id: 0,
        max_source_block_length: 0,
        encoding_symbol_length: 0,
        max_number_of_encoding_symbols: 0,
        scheme_specific_info: String::new(),
        entries: vec![],
    };
    let bytes = build_fpar_box(&b);
    let body = unwrap_box(&bytes, &FPAR);
    // FullBox(4) + item_ID(2) + payload_size(2) + reserved(1) +
    // fec_enc(1) + fec_inst(2) + msbl(2) + esl(2) + mnes(2) +
    // string-terminator(1) + entry_count(2) = 21 bytes.
    assert_eq!(body.len(), 21);
    assert_eq!(parse_fpar_box(body).unwrap(), b);
}

#[test]
fn fpar_unterminated_string_rejected() {
    // FullBox + item_ID + fixed fields, then bytes with no NUL.
    let mut body = Vec::new();
    wr_fullbox(&mut body, 0, 0);
    body.extend_from_slice(&1u16.to_be_bytes()); // item_id
    body.extend_from_slice(&0u16.to_be_bytes()); // payload size
    body.push(0); // reserved
    body.push(0); // fec_encoding_id
    body.extend_from_slice(&0u16.to_be_bytes()); // fec_instance
    body.extend_from_slice(&0u16.to_be_bytes()); // msbl
    body.extend_from_slice(&0u16.to_be_bytes()); // esl
    body.extend_from_slice(&0u16.to_be_bytes()); // mnes
    body.extend_from_slice(b"no terminator here"); // no NUL
    assert!(parse_fpar_box(&body).is_none());
}

#[test]
fn reservoir_fecr_round_trips_both_versions() {
    for version in [0u8, 1u8] {
        let b = ReservoirBox {
            version,
            entries: vec![
                ReservoirEntry {
                    item_id: 10,
                    symbol_count: 100,
                },
                ReservoirEntry {
                    item_id: 20,
                    symbol_count: 0,
                },
            ],
        };
        let bytes = build_reservoir_box(&FECR, &b);
        let body = unwrap_box(&bytes, &FECR);
        assert_eq!(parse_reservoir_box(body).unwrap(), b);
    }
}

#[test]
fn reservoir_fire_uses_distinct_fourcc() {
    let b = ReservoirBox {
        version: 0,
        entries: vec![ReservoirEntry {
            item_id: 5,
            symbol_count: 50,
        }],
    };
    let bytes = build_reservoir_box(&FIRE, &b);
    let body = unwrap_box(&bytes, &FIRE);
    assert_eq!(parse_reservoir_box(body).unwrap(), b);
}

#[test]
fn paen_with_all_three_children_round_trips() {
    let e = PartitionEntry {
        fpar: Some(FparBox {
            version: 0,
            item_id: 1,
            packet_payload_size: 1400,
            fec_encoding_id: 1,
            fec_instance_id: 0,
            max_source_block_length: 32,
            encoding_symbol_length: 512,
            max_number_of_encoding_symbols: 64,
            scheme_specific_info: "x".to_string(),
            entries: vec![FparEntry {
                block_count: 2,
                block_size: 1024,
            }],
        }),
        fecr: Some(ReservoirBox {
            version: 0,
            entries: vec![ReservoirEntry {
                item_id: 2,
                symbol_count: 8,
            }],
        }),
        fire: Some(ReservoirBox {
            version: 1,
            entries: vec![ReservoirEntry {
                item_id: 3,
                symbol_count: 9,
            }],
        }),
    };
    let bytes = build_paen_box(&e);
    let body = unwrap_box(&bytes, &PAEN);
    assert_eq!(parse_paen_box(body), e);
}

#[test]
fn paen_fpar_only_round_trips() {
    let e = PartitionEntry {
        fpar: Some(FparBox {
            version: 0,
            item_id: 1,
            packet_payload_size: 0,
            fec_encoding_id: 0,
            fec_instance_id: 0,
            max_source_block_length: 0,
            encoding_symbol_length: 0,
            max_number_of_encoding_symbols: 0,
            scheme_specific_info: String::new(),
            entries: vec![],
        }),
        fecr: None,
        fire: None,
    };
    let bytes = build_paen_box(&e);
    let body = unwrap_box(&bytes, &PAEN);
    let parsed = parse_paen_box(body);
    assert_eq!(parsed, e);
    assert!(parsed.fecr.is_none() && parsed.fire.is_none());
}

#[test]
fn segr_round_trips() {
    let b = SegrBox {
        session_groups: vec![
            SessionGroup {
                group_ids: vec![1, 2, 3],
                hint_track_ids: vec![10, 11],
            },
            SessionGroup {
                group_ids: vec![],
                hint_track_ids: vec![20],
            },
        ],
    };
    let bytes = build_segr_box(&b);
    let body = unwrap_box(&bytes, &SEGR);
    assert_eq!(parse_segr_box(body).unwrap(), b);
}

#[test]
fn gitn_round_trips_utf8_names() {
    let b = GitnBox {
        entries: vec![
            GroupName {
                group_id: 1,
                group_name: "base".to_string(),
            },
            GroupName {
                group_id: 2,
                group_name: "enhancement-層".to_string(),
            },
        ],
    };
    let bytes = build_gitn_box(&b);
    let body = unwrap_box(&bytes, &GITN);
    assert_eq!(parse_gitn_box(body).unwrap(), b);
}

#[test]
fn fiin_full_round_trips() {
    let b = FiinBox {
        partition_entries: vec![
            PartitionEntry {
                fpar: Some(FparBox {
                    version: 0,
                    item_id: 1,
                    packet_payload_size: 1400,
                    fec_encoding_id: 0,
                    fec_instance_id: 0,
                    max_source_block_length: 16,
                    encoding_symbol_length: 1024,
                    max_number_of_encoding_symbols: 16,
                    scheme_specific_info: String::new(),
                    entries: vec![FparEntry {
                        block_count: 1,
                        block_size: 16384,
                    }],
                }),
                fecr: Some(ReservoirBox {
                    version: 0,
                    entries: vec![ReservoirEntry {
                        item_id: 2,
                        symbol_count: 4,
                    }],
                }),
                fire: None,
            },
            PartitionEntry {
                fpar: Some(FparBox {
                    version: 0,
                    item_id: 3,
                    packet_payload_size: 1200,
                    fec_encoding_id: 1,
                    fec_instance_id: 1,
                    max_source_block_length: 8,
                    encoding_symbol_length: 512,
                    max_number_of_encoding_symbols: 8,
                    scheme_specific_info: "AA==".to_string(),
                    entries: vec![],
                }),
                fecr: None,
                fire: None,
            },
        ],
        session_info: Some(SegrBox {
            session_groups: vec![SessionGroup {
                group_ids: vec![1],
                hint_track_ids: vec![100, 101],
            }],
        }),
        group_id_to_name: Some(GitnBox {
            entries: vec![GroupName {
                group_id: 1,
                group_name: "main".to_string(),
            }],
        }),
    };
    let bytes = build_fiin_box(&b);
    let body = unwrap_box(&bytes, &FIIN);
    assert_eq!(parse_fiin_box(body).unwrap(), b);
}

#[test]
fn fiin_entry_count_ignored_for_walk() {
    // Build a valid fiin, then corrupt the entry_count field to a
    // wrong value: the walk should still recover both paen entries
    // because it iterates the actual children, not the count.
    let b = FiinBox {
        partition_entries: vec![
            PartitionEntry {
                fpar: Some(FparBox {
                    version: 0,
                    item_id: 1,
                    packet_payload_size: 0,
                    fec_encoding_id: 0,
                    fec_instance_id: 0,
                    max_source_block_length: 0,
                    encoding_symbol_length: 0,
                    max_number_of_encoding_symbols: 0,
                    scheme_specific_info: String::new(),
                    entries: vec![],
                }),
                fecr: None,
                fire: None,
            },
            PartitionEntry {
                fpar: Some(FparBox {
                    version: 0,
                    item_id: 2,
                    packet_payload_size: 0,
                    fec_encoding_id: 0,
                    fec_instance_id: 0,
                    max_source_block_length: 0,
                    encoding_symbol_length: 0,
                    max_number_of_encoding_symbols: 0,
                    scheme_specific_info: String::new(),
                    entries: vec![],
                }),
                fecr: None,
                fire: None,
            },
        ],
        session_info: None,
        group_id_to_name: None,
    };
    let mut bytes = build_fiin_box(&b);
    // entry_count lives at body offset [4..6] (after FullBox preamble),
    // i.e. at byte offset 8+4 = 12 in the full box.
    bytes[12] = 0xFF;
    bytes[13] = 0xFF;
    let body = unwrap_box(&bytes, &FIIN);
    let parsed = parse_fiin_box(body).unwrap();
    assert_eq!(parsed.partition_entries.len(), 2);
}

#[test]
fn feci_round_trips() {
    let b = FeciBox {
        fec_encoding_id: 129,
        fec_instance_id: 0x1234,
        source_block_number: 0x5678,
        encoding_symbol_id: 0x9ABC,
    };
    let bytes = build_feci_box(&b);
    let body = unwrap_box(&bytes, &FECI);
    assert_eq!(body.len(), 7);
    assert_eq!(parse_feci_box(body).unwrap(), b);
}

#[test]
fn feci_truncated_rejected() {
    assert!(parse_feci_box(&[0x81, 0x00]).is_none());
}

#[test]
fn malformed_name_is_read_with_replacements() {
    // version and flags, one entry, group 7, then a name with a byte that
    // no text holds
    let body = [0, 0, 0, 0, 0, 1, 0, 0, 0, 7, b'a', 0xFF, b'b', 0];
    let b = parse_gitn_box(&body).unwrap();
    assert_eq!(b.entries.len(), 1);
    assert_eq!(b.entries[0].group_id, 7);
    assert_eq!(b.entries[0].group_name, "a\u{FFFD}b");
    // What was read is written as text, and reads back the same.
    let bytes = build_gitn_box(&b);
    assert_eq!(parse_gitn_box(unwrap_box(&bytes, &GITN)).unwrap(), b);
}

fn two_reservoirs() -> PartitionEntry {
    PartitionEntry {
        fpar: None,
        fecr: Some(ReservoirBox {
            version: 0,
            entries: vec![ReservoirEntry {
                item_id: 2,
                symbol_count: 8,
            }],
        }),
        fire: Some(ReservoirBox {
            version: 1,
            entries: vec![ReservoirEntry {
                item_id: 3,
                symbol_count: 9,
            }],
        }),
    }
}

/// The parts of an entry count wherever they stand, and what is between
/// them does not.
#[test]
fn paen_parts_stand_in_any_order() {
    let mut e = two_reservoirs();
    e.fpar = Some(FparBox {
        version: 0,
        item_id: 1,
        packet_payload_size: 1400,
        fec_encoding_id: 1,
        fec_instance_id: 0,
        max_source_block_length: 32,
        encoding_symbol_length: 512,
        max_number_of_encoding_symbols: 64,
        scheme_specific_info: "x".to_string(),
        entries: vec![],
    });
    let fpar = build_fpar_box(e.fpar.as_ref().unwrap());
    let fecr = build_reservoir_box(&FECR, e.fecr.as_ref().unwrap());
    let fire = build_reservoir_box(&FIRE, e.fire.as_ref().unwrap());
    let short = [0, 0, 0, 10, b'f', b'r', b'e', b'e', 1, 2];
    let long = [
        0, 0, 0, 1, b's', b'k', b'i', b'p', 0, 0, 0, 0, 0, 0, 0, 17, 9,
    ];
    let orders: [[&[u8]; 5]; 3] = [
        [&fire, &short, &fecr, &long, &fpar],
        [&short, &fecr, &fpar, &fire, &long],
        [&long, &fpar, &fire, &short, &fecr],
    ];
    for parts in orders {
        assert_eq!(parse_paen_box(&parts.concat()), e);
    }
    let without: [&[u8]; 3] = [&long, &fire, &fecr];
    assert_eq!(parse_paen_box(&without.concat()), two_reservoirs());
}

/// Header, count of entries, entries, groups, names.
#[test]
fn fiin_is_laid_out_in_order() {
    let segr = SegrBox {
        session_groups: vec![SessionGroup {
            group_ids: vec![1],
            hint_track_ids: vec![100],
        }],
    };
    let gitn = GitnBox {
        entries: vec![GroupName {
            group_id: 1,
            group_name: "main".to_string(),
        }],
    };
    let paen = build_paen_box(&two_reservoirs());
    let built = build_fiin_box(&FiinBox {
        partition_entries: vec![two_reservoirs(), two_reservoirs()],
        session_info: Some(segr.clone()),
        group_id_to_name: Some(gitn.clone()),
    });
    let expected = [
        vec![0, 0, 0, 0, 0, 2],
        paen.clone(),
        paen,
        build_segr_box(&segr),
        build_gitn_box(&gitn),
    ]
    .concat();
    assert_eq!(unwrap_box(&built, &FIIN), expected.as_slice());
    let bare = build_fiin_box(&FiinBox {
        partition_entries: Vec::new(),
        session_info: None,
        group_id_to_name: None,
    });
    assert_eq!(unwrap_box(&bare, &FIIN), &[0, 0, 0, 0, 0, 0]);
}

/// A body that ends early holds nothing.
#[test]
fn every_strict_prefix_of_a_body_is_refused() {
    for version in 0..=1u8 {
        let fpar = FparBox {
            version,
            item_id: 1,
            packet_payload_size: 1400,
            fec_encoding_id: 1,
            fec_instance_id: 0,
            max_source_block_length: 32,
            encoding_symbol_length: 512,
            max_number_of_encoding_symbols: 64,
            scheme_specific_info: "xyz".to_string(),
            entries: vec![
                FparEntry {
                    block_count: 2,
                    block_size: 1024,
                };
                2
            ],
        };
        let bytes = build_fpar_box(&fpar);
        let body = unwrap_box(&bytes, &FPAR);
        assert_eq!(parse_fpar_box(body).unwrap(), fpar);
        assert!((0..body.len()).all(|n| parse_fpar_box(&body[..n]).is_none()));
        let reservoir = ReservoirBox {
            version,
            entries: vec![
                ReservoirEntry {
                    item_id: 2,
                    symbol_count: 8,
                };
                3
            ],
        };
        let bytes = build_reservoir_box(&FECR, &reservoir);
        let body = unwrap_box(&bytes, &FECR);
        assert_eq!(parse_reservoir_box(body).unwrap(), reservoir);
        assert!((0..body.len()).all(|n| parse_reservoir_box(&body[..n]).is_none()));
    }
    let segr = SegrBox {
        session_groups: vec![
            SessionGroup {
                group_ids: vec![1, 2],
                hint_track_ids: vec![100],
            },
            SessionGroup {
                group_ids: vec![],
                hint_track_ids: vec![],
            },
        ],
    };
    let bytes = build_segr_box(&segr);
    let body = unwrap_box(&bytes, &SEGR);
    assert_eq!(parse_segr_box(body).unwrap(), segr);
    assert!((0..body.len()).all(|n| parse_segr_box(&body[..n]).is_none()));
    let gitn = GitnBox {
        entries: vec![
            GroupName {
                group_id: 1,
                group_name: "main".to_string(),
            },
            GroupName {
                group_id: 2,
                group_name: String::new(),
            },
        ],
    };
    let bytes = build_gitn_box(&gitn);
    let body = unwrap_box(&bytes, &GITN);
    assert_eq!(parse_gitn_box(body).unwrap(), gitn);
    assert!((0..body.len()).all(|n| parse_gitn_box(&body[..n]).is_none()));
    let feci = FeciBox {
        fec_encoding_id: 1,
        fec_instance_id: 2,
        source_block_number: 3,
        encoding_symbol_id: 4,
    };
    let bytes = build_feci_box(&feci);
    let body = unwrap_box(&bytes, &FECI);
    assert!((0..body.len()).all(|n| parse_feci_box(&body[..n]).is_none()));
}
