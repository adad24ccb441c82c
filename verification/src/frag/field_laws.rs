//! The small boxes of a fragmented file, read back by their layout.

use crate::boxes::{MFHD, MFRO, PRFT, TFDT, TFHD, TFRA};
use crate::bytes::{
    be16, be16_at, be24, be24_at, be32, be32_at, be64, be64_at, lemma_be24_low, lemma_be32_at,
    lemma_be64_at, size_field,
};
use crate::frag::fields::{
    empty_tfhd_box, mehd_body, mfhd_box, mfro_box, mvhd_body, prft_box, prft_is_long, row_number,
    sidx_body, tfdt_box, tfra_box, tfra_rows, trex_body, unity_matrix, PrftRequest, TfraEmitEntry,
};
use crate::reads::{
    lemma_box_body, lemma_nine_parts, lemma_read16, lemma_read32, lemma_read64, lemma_ten_parts,
    lemma_wire16, lemma_wire32, lemma_wire64,
};
use crate::seqs::{
    holds_at, joined, lemma_holds_row, lemma_holds_split, lemma_holds_whole,
    lemma_joined_equal_parts,
};
use crate::styp::{brand_wires, brands_body};
use vstd::prelude::*;

verus! {

/// Where the fields of a segment index stand.
proof fn lemma_sidx_fields(
    a: Seq<u8>,
    b: Seq<u8>,
    c: Seq<u8>,
    d: Seq<u8>,
    e: Seq<u8>,
    f: Seq<u8>,
    g: Seq<u8>,
    h: Seq<u8>,
    i: Seq<u8>,
    j: Seq<u8>,
)
    requires
        a.len() == 4,
        b.len() == 4,
        c.len() == 4,
        d.len() == 8,
        e.len() == 8,
        f.len() == 2,
        g.len() == 2,
        h.len() == 4,
        i.len() == 4,
        j.len() == 4,
    ensures
        ({
            let s = a + b + c + d + e + f + g + h + i + j;
            &&& s.len() == 44
            &&& be32_at(s, 0) == be32_at(a, 0)
            &&& be32_at(s, 4) == be32_at(b, 0)
            &&& be32_at(s, 8) == be32_at(c, 0)
            &&& be64_at(s, 12) == be64_at(d, 0)
            &&& be64_at(s, 20) == be64_at(e, 0)
            &&& be16_at(s, 28) == be16_at(f, 0)
            &&& be16_at(s, 30) == be16_at(g, 0)
            &&& be32_at(s, 32) == be32_at(h, 0)
            &&& be32_at(s, 36) == be32_at(i, 0)
            &&& be32_at(s, 40) == be32_at(j, 0)
        }),
{
    let s = a + b + c + d + e + f + g + h + i + j;
    lemma_ten_parts(a, b, c, d, e, f, g, h, i, j);
    lemma_read32(s, 0, a);
    lemma_read32(s, 4, b);
    lemma_read32(s, 8, c);
    lemma_read64(s, 12, d);
    lemma_read64(s, 20, e);
    lemma_read16(s, 28, f);
    lemma_read16(s, 30, g);
    lemma_read32(s, 32, h);
    lemma_read32(s, 36, i);
    lemma_read32(s, 40, j);
}

/// A segment index read back by its layout gives what it was written with:
/// version 1, the track and its clock, the decode time at which the
/// subsegment starts, a first offset of 0, so that it starts right behind
/// the index, and one reference to media, with its size as far as 31 bits
/// hold it, its duration, and a stream access point of type 1 at its start
/// where it starts with one.
pub proof fn law_sidx_reads_back(
    reference_id: u32,
    timescale: u32,
    earliest: u64,
    size: int,
    duration: u32,
    starts_with_sap: bool,
)
    requires
        size >= 0,
    ensures
        ({
            let s = sidx_body(reference_id, timescale, earliest, size, duration, starts_with_sap);
            &&& s.len() == 44
            &&& be32_at(s, 0) == 0x0100_0000
            &&& be32_at(s, 4) == reference_id
            &&& be32_at(s, 8) == timescale
            &&& be64_at(s, 12) == earliest
            &&& be64_at(s, 20) == 0
            &&& be16_at(s, 28) == 0
            &&& be16_at(s, 30) == 1
            &&& be32_at(s, 32) < 0x8000_0000
            &&& size < 0x8000_0000 ==> be32_at(s, 32) == size
            &&& size >= 0x8000_0000 ==> be32_at(s, 32) == 0x7FFF_FFFF
            &&& be32_at(s, 36) == duration
            &&& be32_at(s, 40) == if starts_with_sap {
                0x9000_0000u32
            } else {
                0u32
            }
        }),
{
    let s = sidx_body(reference_id, timescale, earliest, size, duration, starts_with_sap);
    let kept = if size > 0x7FFF_FFFF {
        0x7FFF_FFFFu32
    } else {
        size as u32
    };
    let sap = if starts_with_sap {
        0x9000_0000u32
    } else {
        0u32
    };
    lemma_wire32(0x0100_0000);
    lemma_wire32(reference_id);
    lemma_wire32(timescale);
    lemma_wire64(earliest);
    lemma_wire64(0);
    lemma_wire16(0);
    lemma_wire16(1);
    lemma_wire32(kept);
    lemma_wire32(duration);
    lemma_wire32(sap);
    lemma_sidx_fields(
        be32(0x0100_0000),
        be32(reference_id),
        be32(timescale),
        be64(earliest),
        be64(0),
        be16(0),
        be16(1),
        be32(kept),
        be32(duration),
        be32(sap),
    );
}

/// A `mfhd` box holds the number of its fragment.
pub proof fn law_mfhd_reads_back(sequence: u32)
    ensures
        ({
            let b = mfhd_box(sequence);
            &&& b.len() == 16
            &&& be32_at(b, 0) == 16
            &&& b.subrange(4, 8) == MFHD@
            &&& be32_at(b, 8) == 0
            &&& be32_at(b, 12) == sequence
        }),
{
    let b = mfhd_box(sequence);
    lemma_box_body(MFHD, be32(0) + be32(sequence));
    let a1 = be32(0) + be32(sequence);
    lemma_holds_split(b, 8, be32(0), be32(sequence));
    lemma_be32_at(b, 8, 0);
    lemma_be32_at(b, 12, sequence);
}

/// A `tfdt` box is of version 1 and holds the decode time in 64 bits.
pub proof fn law_tfdt_reads_back(time: u64)
    ensures
        ({
            let b = tfdt_box(time);
            &&& b.len() == 20
            &&& be32_at(b, 0) == 20
            &&& b.subrange(4, 8) == TFDT@
            &&& be32_at(b, 8) == 0x0100_0000
            &&& be64_at(b, 12) == time
        }),
{
    let b = tfdt_box(time);
    lemma_box_body(TFDT, be32(0x0100_0000) + be64(time));
    let a1 = be32(0x0100_0000) + be64(time);
    lemma_holds_split(b, 8, be32(0x0100_0000), be64(time));
    lemma_be32_at(b, 8, 0x0100_0000);
    lemma_be64_at(b, 12, time);
}

/// A `mfro` box holds the size that it is given.
pub proof fn law_mfro_reads_back(size: u32)
    ensures
        ({
            let b = mfro_box(size);
            &&& b.len() == 16
            &&& be32_at(b, 0) == 16
            &&& b.subrange(4, 8) == MFRO@
            &&& be32_at(b, 8) == 0
            &&& be32_at(b, 12) == size
        }),
{
    let b = mfro_box(size);
    lemma_box_body(MFRO, be32(0) + be32(size));
    let a1 = be32(0) + be32(size);
    lemma_holds_split(b, 8, be32(0), be32(size));
    lemma_be32_at(b, 8, 0);
    lemma_be32_at(b, 12, size);
}

/// The header of an empty track fragment has the flags of an empty duration
/// and of a default duration and no other, the track, and the duration.
pub proof fn law_empty_tfhd_reads_back(track_id: u32, duration: u32)
    ensures
        ({
            let b = empty_tfhd_box(track_id, duration);
            &&& b.len() == 20
            &&& be32_at(b, 0) == 20
            &&& b.subrange(4, 8) == TFHD@
            &&& be32_at(b, 8) == 0x01_0008
            &&& be32_at(b, 12) == track_id
            &&& be32_at(b, 16) == duration
        }),
{
    let b = empty_tfhd_box(track_id, duration);
    lemma_box_body(TFHD, be32(0x0001_0008) + be32(track_id) + be32(duration));
    let a1 = be32(0x0001_0008) + be32(track_id);
    let a2 = a1 + be32(duration);
    lemma_holds_split(b, 8, a1, be32(duration));
    lemma_holds_split(b, 8, be32(0x0001_0008), be32(track_id));
    lemma_be32_at(b, 8, 0x0001_0008);
    lemma_be32_at(b, 12, track_id);
    lemma_be32_at(b, 16, duration);
}

/// A `mehd` body is of version 1 and holds the duration in 64 bits.
pub proof fn law_mehd_reads_back(duration: u64)
    ensures
        ({
            let s = mehd_body(duration);
            &&& s.len() == 12
            &&& be32_at(s, 0) == 0x0100_0000
            &&& be64_at(s, 4) == duration
        }),
{
    let s = mehd_body(duration);
    lemma_holds_whole(s);
    let a1 = be32(0x0100_0000) + be64(duration);
    lemma_holds_split(s, 0, be32(0x0100_0000), be64(duration));
    lemma_be32_at(s, 0, 0x0100_0000);
    lemma_be64_at(s, 4, duration);
}

/// A `trex` body holds the track, the first sample description and the
/// defaults for duration, size and flags.
pub proof fn law_trex_reads_back(track_id: u32, duration: u32, size: u32, flags: u32)
    ensures
        ({
            let s = trex_body(track_id, duration, size, flags);
            &&& s.len() == 24
            &&& be32_at(s, 0) == 0
            &&& be32_at(s, 4) == track_id
            &&& be32_at(s, 8) == 1
            &&& be32_at(s, 12) == duration
            &&& be32_at(s, 16) == size
            &&& be32_at(s, 20) == flags
        }),
{
    let s = trex_body(track_id, duration, size, flags);
    lemma_holds_whole(s);
    let a1 = be32(0) + be32(track_id);
    let a2 = a1 + be32(1);
    let a3 = a2 + be32(duration);
    let a4 = a3 + be32(size);
    let a5 = a4 + be32(flags);
    lemma_holds_split(s, 0, a4, be32(flags));
    lemma_holds_split(s, 0, a3, be32(size));
    lemma_holds_split(s, 0, a2, be32(duration));
    lemma_holds_split(s, 0, a1, be32(1));
    lemma_holds_split(s, 0, be32(0), be32(track_id));
    lemma_be32_at(s, 0, 0);
    lemma_be32_at(s, 4, track_id);
    lemma_be32_at(s, 8, 1);
    lemma_be32_at(s, 12, duration);
    lemma_be32_at(s, 16, size);
    lemma_be32_at(s, 20, flags);
}

/// Where the first fields of a movie header stand.
proof fn lemma_mvhd_head(
    a: Seq<u8>,
    b: Seq<u8>,
    c: Seq<u8>,
    d: Seq<u8>,
    e: Seq<u8>,
    f: Seq<u8>,
    g: Seq<u8>,
    h: Seq<u8>,
    i: Seq<u8>,
    j: Seq<u8>,
)
    requires
        a.len() == 4,
        b.len() == 4,
        c.len() == 4,
        d.len() == 4,
        e.len() == 4,
        f.len() == 4,
        g.len() == 2,
        h.len() == 2,
        i.len() == 4,
        j.len() == 4,
    ensures
        ({
            let s = a + b + c + d + e + f + g + h + i + j;
            &&& s.len() == 36
            &&& be32_at(s, 0) == be32_at(a, 0)
            &&& be32_at(s, 4) == be32_at(b, 0)
            &&& be32_at(s, 8) == be32_at(c, 0)
            &&& be32_at(s, 12) == be32_at(d, 0)
            &&& be32_at(s, 16) == be32_at(e, 0)
            &&& be32_at(s, 20) == be32_at(f, 0)
            &&& be16_at(s, 24) == be16_at(g, 0)
            &&& be16_at(s, 26) == be16_at(h, 0)
        }),
{
    let s = a + b + c + d + e + f + g + h + i + j;
    lemma_ten_parts(a, b, c, d, e, f, g, h, i, j);
    lemma_read32(s, 0, a);
    lemma_read32(s, 4, b);
    lemma_read32(s, 8, c);
    lemma_read32(s, 12, d);
    lemma_read32(s, 16, e);
    lemma_read32(s, 20, f);
    lemma_read16(s, 24, g);
    lemma_read16(s, 26, h);
}

/// Where the last fields of a movie header stand.
proof fn lemma_mvhd_tail(
    a: Seq<u8>,
    b: Seq<u8>,
    c: Seq<u8>,
    d: Seq<u8>,
    e: Seq<u8>,
    f: Seq<u8>,
    g: Seq<u8>,
    h: Seq<u8>,
    i: Seq<u8>,
)
    requires
        a.len() == 36,
        b.len() == 36,
        c.len() == 4,
        d.len() == 4,
        e.len() == 4,
        f.len() == 4,
        g.len() == 4,
        h.len() == 4,
        i.len() == 4,
    ensures
        ({
            let s = a + b + c + d + e + f + g + h + i;
            &&& s.len() == 100
            &&& holds_at(s, 0, a)
            &&& holds_at(s, 36, b)
            &&& be32_at(s, 96) == be32_at(i, 0)
        }),
{
    let s = a + b + c + d + e + f + g + h + i;
    lemma_nine_parts(a, b, c, d, e, f, g, h, i);
    lemma_read32(s, 96, i);
}

/// The first fields read as they do by themselves.
proof fn lemma_head_reads(s: Seq<u8>, head: Seq<u8>)
    requires
        head.len() == 36,
        holds_at(s, 0, head),
    ensures
        forall|i: int| 0 <= i <= 32 ==> be32_at(s, i) == #[trigger] be32_at(head, i),
        forall|i: int| 0 <= i <= 34 ==> be16_at(s, i) == #[trigger] be16_at(head, i),
{
    assert(forall|i: int| 0 <= i < 36 ==> s.subrange(0, 36)[i] == s[i]);
}

/// A `mvhd` body is of version 0 and holds the clock, the duration, a rate
/// and a volume of 1, and the number of the next track.
pub proof fn law_mvhd_reads_back(timescale: u32, duration: u32, next_track_id: u32)
    ensures
        ({
            let s = mvhd_body(timescale, duration, next_track_id);
            &&& s.len() == 100
            &&& be32_at(s, 0) == 0
            &&& be32_at(s, 4) == 0
            &&& be32_at(s, 8) == 0
            &&& be32_at(s, 12) == timescale
            &&& be32_at(s, 16) == duration
            &&& be32_at(s, 20) == 0x0001_0000
            &&& be16_at(s, 24) == 0x0100
            &&& be16_at(s, 26) == 0
            &&& holds_at(s, 36, unity_matrix())
            &&& be32_at(s, 96) == next_track_id
        }),
{
    let s = mvhd_body(timescale, duration, next_track_id);
    let head = be32(0) + be32(0) + be32(0) + be32(timescale) + be32(duration) + be32(0x0001_0000)
        + be16(0x0100) + be16(0) + be32(0) + be32(0);
    lemma_wire32(0);
    lemma_wire32(timescale);
    lemma_wire32(duration);
    lemma_wire32(0x0001_0000);
    lemma_wire16(0x0100);
    lemma_wire16(0);
    lemma_wire32(next_track_id);
    lemma_mvhd_head(
        be32(0),
        be32(0),
        be32(0),
        be32(timescale),
        be32(duration),
        be32(0x0001_0000),
        be16(0x0100),
        be16(0),
        be32(0),
        be32(0),
    );
    law_unity_matrix_reads_back();
    lemma_mvhd_tail(
        head,
        unity_matrix(),
        be32(0),
        be32(0),
        be32(0),
        be32(0),
        be32(0),
        be32(0),
        be32(next_track_id),
    );
    lemma_head_reads(s, head);
}

/// Where the entries of a matrix stand.
proof fn lemma_matrix_fields(
    a: Seq<u8>,
    b: Seq<u8>,
    c: Seq<u8>,
    d: Seq<u8>,
    e: Seq<u8>,
    f: Seq<u8>,
    g: Seq<u8>,
    h: Seq<u8>,
    i: Seq<u8>,
)
    requires
        a.len() == 4,
        b.len() == 4,
        c.len() == 4,
        d.len() == 4,
        e.len() == 4,
        f.len() == 4,
        g.len() == 4,
        h.len() == 4,
        i.len() == 4,
    ensures
        ({
            let s = a + b + c + d + e + f + g + h + i;
            &&& s.len() == 36
            &&& be32_at(s, 0) == be32_at(a, 0)
            &&& be32_at(s, 4) == be32_at(b, 0)
            &&& be32_at(s, 8) == be32_at(c, 0)
            &&& be32_at(s, 12) == be32_at(d, 0)
            &&& be32_at(s, 16) == be32_at(e, 0)
            &&& be32_at(s, 20) == be32_at(f, 0)
            &&& be32_at(s, 24) == be32_at(g, 0)
            &&& be32_at(s, 28) == be32_at(h, 0)
            &&& be32_at(s, 32) == be32_at(i, 0)
        }),
{
    let s = a + b + c + d + e + f + g + h + i;
    lemma_nine_parts(a, b, c, d, e, f, g, h, i);
    lemma_read32(s, 0, a);
    lemma_read32(s, 4, b);
    lemma_read32(s, 8, c);
    lemma_read32(s, 12, d);
    lemma_read32(s, 16, e);
    lemma_read32(s, 20, f);
    lemma_read32(s, 24, g);
    lemma_read32(s, 28, h);
    lemma_read32(s, 32, i);
}

/// The matrix of a movie header is the unity matrix: it has 1 and 1 in
/// 16.16 bits and 1 in 2.30 bits on its diagonal, and 0 elsewhere.
pub proof fn law_unity_matrix_reads_back()
    ensures
        ({
            let s = unity_matrix();
            &&& s.len() == 36
            &&& be32_at(s, 0) == 0x0001_0000
            &&& be32_at(s, 4) == 0
            &&& be32_at(s, 8) == 0
            &&& be32_at(s, 12) == 0
            &&& be32_at(s, 16) == 0x0001_0000
            &&& be32_at(s, 20) == 0
            &&& be32_at(s, 24) == 0
            &&& be32_at(s, 28) == 0
            &&& be32_at(s, 32) == 0x4000_0000
        }),
{
    let s = unity_matrix();
    lemma_wire32(0x0001_0000);
    lemma_wire32(0);
    lemma_wire32(0x4000_0000);
    lemma_matrix_fields(
        be32(0x0001_0000),
        be32(0),
        be32(0),
        be32(0),
        be32(0x0001_0000),
        be32(0),
        be32(0),
        be32(0),
        be32(0x4000_0000),
    );
}

/// A producer reference time read back by its layout gives the low 24 bits
/// of the flags, the track, the wall clock and the media time. The media
/// time takes 64 bits, in version 1, where that was asked for or 32 bits are
/// not enough, and 32 bits, in version 0, elsewhere.
pub proof fn law_prft_reads_back(p: PrftRequest)
    ensures
        ({
            let b = prft_box(p);
            let long = p.force_v1 || p.media_time > u32::MAX;
            &&& b.len() == if long {
                32int
            } else {
                28int
            }
            &&& be32_at(b, 0) == b.len()
            &&& b.subrange(4, 8) == PRFT@
            &&& b[8] == if long {
                1u8
            } else {
                0u8
            }
            &&& be24_at(b, 9) == p.flags % 0x100_0000
            &&& be32_at(b, 12) == p.reference_track_id
            &&& be64_at(b, 16) == p.ntp_timestamp
            &&& long ==> be64_at(b, 24) == p.media_time
            &&& !long ==> be32_at(b, 24) == p.media_time
        }),
{
    let b = prft_box(p);
    let version = seq![
        if prft_is_long(p) {
            1u8
        } else {
            0u8
        },
    ];
    let time = if prft_is_long(p) {
        be64(p.media_time)
    } else {
        be32(p.media_time as u32)
    };
    lemma_box_body(
        PRFT,
        version + be24(p.flags) + be32(p.reference_track_id) + be64(p.ntp_timestamp) + time,
    );
    let a1 = version + be24(p.flags);
    let a2 = a1 + be32(p.reference_track_id);
    let a3 = a2 + be64(p.ntp_timestamp);
    let a4 = a3 + time;
    lemma_holds_split(b, 8, a3, time);
    lemma_holds_split(b, 8, a2, be64(p.ntp_timestamp));
    lemma_holds_split(b, 8, a1, be32(p.reference_track_id));
    lemma_holds_split(b, 8, version, be24(p.flags));
    lemma_be32_at(b, 12, p.reference_track_id);
    lemma_be64_at(b, 16, p.ntp_timestamp);
    assert(b.subrange(8, 9)[0] == b[8]);
    lemma_be24_low(b, 9, p.flags);
    if prft_is_long(p) {
        lemma_be64_at(b, 24, p.media_time);
    } else {
        lemma_be32_at(b, 24, p.media_time as u32);
    }
}

/// How a row of a random access table holds a number: in one byte, where
/// the largest byte stands for all numbers from there on.
pub open spec fn number_in_byte(byte: u8, n: u32) -> bool {
    byte == n || (byte == 0xFF && n > 0xFF)
}

/// A random access table read back by its layout gives the track, one byte
/// for each number, the count, and in the `i`-th row of 19 bytes the decode
/// time, the offset of the movie fragment and the three numbers.
pub proof fn law_tfra_reads_back(track_id: u32, e: Seq<TfraEmitEntry>, i: int)
    requires
        0 <= i < e.len(),
    ensures
        ({
            let b = tfra_box(track_id, e);
            &&& b.len() == 24 + 19 * e.len()
            &&& b.len() <= u32::MAX ==> be32_at(b, 0) == b.len()
            &&& b.subrange(4, 8) == TFRA@
            &&& be32_at(b, 8) == 0x0100_0000
            &&& be32_at(b, 12) == track_id
            &&& be32_at(b, 16) == 0
            &&& be32_at(b, 20) == e.len() % 0x1_0000_0000
            &&& be64_at(b, 24 + 19 * i) == e[i].time
            &&& be64_at(b, 24 + 19 * i + 8) == e[i].moof_offset
            &&& number_in_byte(b[24 + 19 * i + 16], e[i].traf_number)
            &&& number_in_byte(b[24 + 19 * i + 17], e[i].trun_number)
            &&& number_in_byte(b[24 + 19 * i + 18], e[i].sample_number)
        }),
{
    let b = tfra_box(track_id, e);
    let n = size_field(e.len());
    let rows = joined(tfra_rows(e));
    lemma_box_body(TFRA, be32(0x0100_0000) + be32(track_id) + be32(0) + be32(n) + rows);
    let a1 = be32(0x0100_0000) + be32(track_id);
    let a2 = a1 + be32(0);
    let a3 = a2 + be32(n);
    let a4 = a3 + rows;
    lemma_holds_split(b, 8, a3, rows);
    lemma_holds_split(b, 8, a2, be32(n));
    lemma_holds_split(b, 8, a1, be32(0));
    lemma_holds_split(b, 8, be32(0x0100_0000), be32(track_id));
    lemma_be32_at(b, 8, 0x0100_0000);
    lemma_be32_at(b, 12, track_id);
    lemma_be32_at(b, 16, 0);
    lemma_be32_at(b, 20, n);
    lemma_holds_row(b, 24, tfra_rows(e), 19, i);
    lemma_joined_equal_parts(tfra_rows(e), 19);
    let at = 24 + 19 * i;
    let numbers = seq![
        row_number(e[i].traf_number),
        row_number(e[i].trun_number),
        row_number(e[i].sample_number),
    ];
    lemma_holds_split(b, at, be64(e[i].time) + be64(e[i].moof_offset), numbers);
    lemma_holds_split(b, at, be64(e[i].time), be64(e[i].moof_offset));
    lemma_be64_at(b, at, e[i].time);
    lemma_be64_at(b, at + 8, e[i].moof_offset);
    let last = b.subrange(at + 16, at + 19);
    assert(last[0] == b[at + 16] && last[1] == b[at + 17] && last[2] == b[at + 18]);
}

/// Brands read back by their layout: the major brand, its minor version,
/// and behind them the compatible brands in order.
pub proof fn law_brands_read_back(major: [u8; 4], minor: u32, compatible: Seq<[u8; 4]>)
    ensures
        ({
            let s = brands_body(major, minor, compatible);
            &&& s.len() == 8 + 4 * compatible.len()
            &&& s.subrange(0, 4) == major@
            &&& be32_at(s, 4) == minor
            &&& forall|i: int|
                0 <= i < compatible.len() ==> s.subrange(8 + 4 * i, 12 + 4 * i)
                    == #[trigger] compatible[i]@
        }),
{
    let s = brands_body(major, minor, compatible);
    let wires = brand_wires(compatible);
    lemma_holds_whole(s);
    lemma_holds_split(s, 0, major@ + be32(minor), joined(wires));
    lemma_holds_split(s, 0, major@, be32(minor));
    lemma_be32_at(s, 4, minor);
    lemma_joined_equal_parts(wires, 4);
    assert forall|i: int| 0 <= i < compatible.len() implies s.subrange(8 + 4 * i, 12 + 4 * i)
        == #[trigger] compatible[i]@ by {
        lemma_holds_row(s, 8, wires, 4, i);
        assert(wires[i] == compatible[i]@);
    }
}

} // verus!
