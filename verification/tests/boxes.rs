//! Box headers, bodies and types.

use oxideav_mp4::body::{body_of, hdlr};
use oxideav_mp4::boxes::{
    fourcc, read_box_body, read_box_header, read_box_header_lenient, skip_box_body, BodySkip,
    BoxError, BoxHeader, FTYP, MOOV,
};
use oxideav_mp4::cenc::{build_piff_tenc_box, PiffTencBox};
use oxideav_mp4::probe::probe;

fn full_box(size: u32, code: &[u8; 4], body: &[u8]) -> Vec<u8> {
    let mut buf = size.to_be_bytes().to_vec();
    buf.extend_from_slice(code);
    buf.extend_from_slice(body);
    buf
}

#[test]
fn box_size_below_eight_is_rejected_not_underflow() {
    for bad in 2u32..=7 {
        let mut buf = Vec::with_capacity(8);
        buf.extend_from_slice(&bad.to_be_bytes());
        buf.extend_from_slice(b"junk");
        let err = read_box_header(&buf, 0).expect_err("size < 8 must be invalid");
        assert!(err.message().contains("MP4"), "{}", err.message());
    }
}

#[test]
fn box_largesize_below_sixteen_is_rejected_not_underflow() {
    for bad in 0u64..=15 {
        let mut buf = Vec::with_capacity(16);
        buf.extend_from_slice(&1u32.to_be_bytes());
        buf.extend_from_slice(b"junk");
        buf.extend_from_slice(&bad.to_be_bytes());
        let err = read_box_header(&buf, 0).expect_err("largesize < 16 must be invalid");
        assert!(err.message().contains("MP4"), "{}", err.message());
    }
}

#[test]
fn box_largesize_overflowing_u64_from_nonzero_start_is_rejected() {
    let mut buf = Vec::new();
    buf.extend_from_slice(&8u32.to_be_bytes());
    buf.extend_from_slice(b"free");
    buf.extend_from_slice(&1u32.to_be_bytes());
    buf.extend_from_slice(b"mdat");
    buf.extend_from_slice(&u64::MAX.to_be_bytes());

    let h1 = read_box_header(&buf, 0)
        .expect("first box parses")
        .expect("first box present");
    assert_eq!(h1.total_size, Some(8));
    let err = read_box_header(&buf[8..], 8).expect_err("u64 overflow must be rejected");
    let msg = err.message();
    assert!(
        msg.contains("overflow") && msg.contains("mdat"),
        "expected u64-overflow rejection naming the box, got: {msg}"
    );
    assert_eq!(
        msg,
        "MP4: box 'mdat' declared size 18446744073709551615 from offset 8 overflows u64"
    );
}

#[test]
fn box_largesize_one_below_overflow_is_accepted() {
    let mut buf = Vec::new();
    buf.extend_from_slice(&1u32.to_be_bytes());
    buf.extend_from_slice(b"mdat");
    buf.extend_from_slice(&u64::MAX.to_be_bytes());
    let hdr = read_box_header(&buf, 0)
        .expect("header at start=0 with largesize=u64::MAX does not overflow")
        .expect("a 16-byte header is present");
    assert_eq!(hdr.fourcc, *b"mdat");
    assert_eq!(hdr.total_size, Some(u64::MAX));
    assert_eq!(hdr.header_len, 16);
}

#[test]
fn box_size_eight_is_a_valid_empty_box() {
    let mut buf = Vec::with_capacity(8);
    buf.extend_from_slice(&8u32.to_be_bytes());
    buf.extend_from_slice(b"free");
    let hdr = read_box_header(&buf, 0)
        .unwrap()
        .expect("size = 8 must parse");
    assert_eq!(hdr.total_size, Some(8));
    assert_eq!(hdr.header_len, 8);
    assert_eq!(hdr.payload_size(), Some(0));
    assert_eq!(&hdr.fourcc, b"free");
}

#[test]
fn header_ends_and_cut_headers() {
    assert_eq!(read_box_header(&[], 0), Ok(None));
    assert_eq!(read_box_header_lenient(&[], 0), Ok(None));
    assert_eq!(read_box_header(&[0, 0, 0], 0), Err(BoxError::TruncatedHeader));
    assert_eq!(read_box_header_lenient(&[0, 0, 0], 0), Ok(None));
    let cut = full_box(1, b"mdat", &[0, 0]);
    assert_eq!(read_box_header(&cut, 0), Err(BoxError::TruncatedLargesize));
    assert_eq!(BoxError::TruncatedHeader.message(), "MP4: truncated box header");
    assert_eq!(BoxError::LargesizeTooSmall.message(), "MP4: box largesize < 16");
    assert_eq!(BoxError::SizeTooSmall.message(), "MP4: box size < 8");
}

#[test]
fn open_ended_box_has_no_size() {
    let buf = full_box(0, b"mdat", &[1, 2, 3]);
    let hdr = read_box_header(&buf, 40).unwrap().unwrap();
    assert_eq!(hdr.total_size, None);
    assert_eq!(hdr.payload_size(), None);
    assert_eq!(read_box_body(&buf[8..], &hdr), Err(BoxError::OpenEndedBody));
    assert_eq!(skip_box_body(&hdr), BodySkip::ToEnd);
    assert_eq!(BoxError::OpenEndedBody.message(), "MP4: cannot read open-ended box body");
}

#[test]
fn body_is_read_and_skipped() {
    let buf = full_box(11, b"free", &[1, 2, 3, 4]);
    let hdr = read_box_header(&buf, 0).unwrap().unwrap();
    assert_eq!(hdr.type_str(), "free");
    assert_eq!(read_box_body(&buf[8..], &hdr), Ok(vec![1, 2, 3]));
    assert_eq!(read_box_body(&buf[8..10], &hdr), Err(BoxError::TruncatedBody));
    assert_eq!(skip_box_body(&hdr), BodySkip::Forward(3));
    let empty = BoxHeader { fourcc: *b"free", total_size: Some(8), header_len: 8 };
    assert_eq!(skip_box_body(&empty), BodySkip::Stay);
    assert_eq!(BoxError::TruncatedBody.message(), "MP4: truncated box body");
}

#[test]
fn type_that_is_no_text_reads_as_question_marks() {
    let buf = full_box(8, &[0xFF, 0xFE, b'a', b'b'], &[]);
    let hdr = read_box_header(&buf, 0).unwrap().unwrap();
    assert_eq!(hdr.type_str(), "????");
}

#[test]
fn type_codes_are_their_text() {
    assert_eq!(fourcc("ftyp"), FTYP);
    assert_eq!(fourcc("moov"), MOOV);
    assert_eq!(FTYP, *b"ftyp");
    assert_eq!(oxideav_mp4::boxes::UUID, *b"uuid");
    assert_eq!(oxideav_mp4::boxes::SENC, *b"senc");
    assert_eq!(oxideav_mp4::boxes::MDFT, *b"mdft");
    assert_eq!(oxideav_mp4::boxes::URL_, *b"url ");
}

#[test]
fn built_boxes_give_their_bodies() {
    let plain = full_box(11, b"free", &[7, 8, 9]);
    assert_eq!(body_of(&plain), &[7, 8, 9]);
    let piff = PiffTencBox { algorithm_id: 1, iv_size: 8, kid: [3; 16] };
    let built = build_piff_tenc_box(&piff).unwrap();
    assert_eq!(body_of(&built), &built[24..]);
    let wrong = full_box(12, b"free", &[7, 8, 9]);
    assert_eq!(body_of(&wrong), wrong.as_slice());
    assert_eq!(body_of(&[1, 2]), &[1, 2]);
}

#[test]
fn handler_box_is_minimal() {
    let b = hdlr(b"pict");
    assert_eq!(b.len(), 33);
    assert_eq!(&b[..8], &[0, 0, 0, 33, b'h', b'd', b'l', b'r']);
    assert_eq!(&b[16..20], b"pict");
    assert!(b[8..16].iter().chain(b[20..].iter()).all(|&x| x == 0));
}

#[test]
fn probe_scores() {
    let ftyp = full_box(24, b"ftyp", b"isom");
    assert_eq!(probe(&ftyp), 100);
    for filler in [b"wide", b"free", b"skip"] {
        let mut buf = full_box(8, filler, &[]);
        buf.extend_from_slice(&ftyp);
        assert_eq!(probe(&buf), 90);
        assert_eq!(probe(&buf[..15]), 0);
    }
    assert_eq!(probe(&full_box(100, b"moov", &[])), 50);
    assert_eq!(probe(&full_box(100, b"mdat", &[0; 20])), 0);
    assert_eq!(probe(b"ftyp"), 0);
    assert_eq!(probe(&[]), 0);
}
