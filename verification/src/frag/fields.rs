//! The small boxes of a fragmented file, whose fields are given.

use crate::boxes::{FTYP, MEHD, MFHD, MFRO, MVHD, PRFT, SIDX, STYP, TFDT, TFHD, TFRA, TREX};
use crate::bytes::{
    be16, be24, be32, be64, boxed, low32, put_u16, put_u24, put_u32, put_u64, put_u8, size_field,
    wrap_box,
};
use crate::options::{compatible_of, major_of, BrandPreset};
use crate::seqs::{joined, lemma_joined_all, lemma_joined_none, lemma_joined_step};
use crate::styp::{brands_body, build_brands_box};
use vstd::prelude::*;

verus! {

/// A producer reference time to be written before the next fragment.
#[derive(Clone, Copy, Debug, PartialEq, Eq)]
pub struct PrftRequest {
    /// The track that the media time belongs to.
    pub reference_track_id: u32,
    /// The wall clock, in 32.32 fixed-point seconds.
    pub ntp_timestamp: u64,
    /// The same instant on the track's media clock.
    pub media_time: u64,
    /// Flags, of which the low 24 bits are written.
    pub flags: u32,
    /// Whether the media time takes 64 bits even if it fits 32.
    pub force_v1: bool,
}

/// A row of a random access table.
#[derive(Clone, Copy, Debug, PartialEq, Eq)]
pub struct TfraEmitEntry {
    /// The decode time of the sync sample.
    pub time: u64,
    /// Where its movie fragment starts in the file.
    pub moof_offset: u64,
    /// Which track fragment it is in, from 1.
    pub traf_number: u32,
    /// Which run it is in, from 1.
    pub trun_number: u32,
    /// Which sample of the run it is, from 1.
    pub sample_number: u32,
}

// ---------------------------------------------------------------------
// Brands
// ---------------------------------------------------------------------

/// The minor version of a file's brand.
pub open spec fn minor_of(brand: BrandPreset) -> u32 {
    match brand {
        BrandPreset::Mp4 => 0x200,
        _ => 0,
    }
}

/// The `ftyp` box of a preset.
pub open spec fn ftyp_box(brand: BrandPreset) -> Seq<u8> {
    boxed(FTYP, brands_body(major_of(brand), minor_of(brand), compatible_of(brand)))
}

/// The `styp` box of a preset.
pub open spec fn styp_box(brand: BrandPreset) -> Seq<u8> {
    boxed(STYP, brands_body(major_of(brand), 0, compatible_of(brand)))
}

/// Serialise the `ftyp` box of a preset.
pub fn build_ftyp(brand: &BrandPreset) -> (r: Vec<u8>)
    ensures
        r@ == ftyp_box(*brand),
{
    let minor: u32 = match brand {
        BrandPreset::Mp4 => 0x200,
        _ => 0,
    };
    build_brands_box(&FTYP, brand.major_brand(), minor, brand.compatible_brands().as_slice())
}

/// Serialise the `styp` box of a preset.
pub fn build_styp(brand: &BrandPreset) -> (r: Vec<u8>)
    ensures
        r@ == styp_box(*brand),
{
    build_brands_box(&STYP, brand.major_brand(), 0, brand.compatible_brands().as_slice())
}

// ---------------------------------------------------------------------
// Movie header and defaults
// ---------------------------------------------------------------------

/// The unity matrix of a movie header.
pub open spec fn unity_matrix() -> Seq<u8> {
    be32(0x0001_0000) + be32(0) + be32(0) + be32(0) + be32(0x0001_0000) + be32(0) + be32(0) + be32(
        0,
    ) + be32(0x4000_0000)
}

/// The body of a version 0 `mvhd` box: no times, normal rate and volume.
pub open spec fn mvhd_body(timescale: u32, duration: u32, next_track_id: u32) -> Seq<u8> {
    be32(0) + be32(0) + be32(0) + be32(timescale) + be32(duration) + be32(0x0001_0000) + be16(0x0100)
        + be16(0) + be32(0) + be32(0) + unity_matrix() + be32(0) + be32(0) + be32(0) + be32(0)
        + be32(0) + be32(0) + be32(next_track_id)
}

/// Append the unity matrix.
fn put_unity_matrix(out: &mut Vec<u8>)
    ensures
        final(out)@ == old(out)@ + unity_matrix(),
{
    put_u32(out, 0x0001_0000);
    put_u32(out, 0);
    put_u32(out, 0);
    put_u32(out, 0);
    put_u32(out, 0x0001_0000);
    put_u32(out, 0);
    put_u32(out, 0);
    put_u32(out, 0);
    put_u32(out, 0x4000_0000);
    assert(out@ =~= old(out)@ + unity_matrix());
}

/// Serialise a `mvhd` box.
pub fn build_mvhd(timescale: u32, duration: u32, next_track_id: u32) -> (r: Vec<u8>)
    ensures
        r@ == boxed(MVHD, mvhd_body(timescale, duration, next_track_id)),
{
    let mut body: Vec<u8> = Vec::new();
    put_u32(&mut body, 0);
    put_u32(&mut body, 0);
    put_u32(&mut body, 0);
    put_u32(&mut body, timescale);
    put_u32(&mut body, duration);
    put_u32(&mut body, 0x0001_0000);
    put_u16(&mut body, 0x0100);
    put_u16(&mut body, 0);
    put_u32(&mut body, 0);
    put_u32(&mut body, 0);
    put_unity_matrix(&mut body);
    put_u32(&mut body, 0);
    put_u32(&mut body, 0);
    put_u32(&mut body, 0);
    put_u32(&mut body, 0);
    put_u32(&mut body, 0);
    put_u32(&mut body, 0);
    put_u32(&mut body, next_track_id);
    assert(body@ =~= mvhd_body(timescale, duration, next_track_id));
    wrap_box(&MVHD, body.as_slice())
}

/// The body of a version 1 `mehd` box.
pub open spec fn mehd_body(duration: u64) -> Seq<u8> {
    be32(0x0100_0000) + be64(duration)
}

/// Serialise a `mehd` box.
pub fn build_mehd(duration: u64) -> (r: Vec<u8>)
    ensures
        r@ == boxed(MEHD, mehd_body(duration)),
{
    let mut body: Vec<u8> = Vec::new();
    put_u32(&mut body, 0x0100_0000);
    put_u64(&mut body, duration);
    assert(body@ =~= mehd_body(duration));
    wrap_box(&MEHD, body.as_slice())
}

/// The body of a `trex` box: the first sample description is the default.
pub open spec fn trex_body(track_id: u32, duration: u32, size: u32, flags: u32) -> Seq<u8> {
    be32(0) + be32(track_id) + be32(1) + be32(duration) + be32(size) + be32(flags)
}

/// Serialise a `trex` box.
pub fn build_trex(track_id: u32, duration: u32, size: u32, flags: u32) -> (r: Vec<u8>)
    ensures
        r@ == boxed(TREX, trex_body(track_id, duration, size, flags)),
{
    let mut body: Vec<u8> = Vec::new();
    put_u32(&mut body, 0);
    put_u32(&mut body, track_id);
    put_u32(&mut body, 1);
    put_u32(&mut body, duration);
    put_u32(&mut body, size);
    put_u32(&mut body, flags);
    assert(body@ =~= trex_body(track_id, duration, size, flags));
    wrap_box(&TREX, body.as_slice())
}

// ---------------------------------------------------------------------
// Fragment headers
// ---------------------------------------------------------------------

/// The `mfhd` box of a fragment.
pub open spec fn mfhd_box(sequence: u32) -> Seq<u8> {
    boxed(MFHD, be32(0) + be32(sequence))
}

/// Serialise a `mfhd` box.
pub fn build_mfhd(sequence: u32) -> (r: Vec<u8>)
    ensures
        r@ == mfhd_box(sequence),
{
    let mut body: Vec<u8> = Vec::new();
    put_u32(&mut body, 0);
    put_u32(&mut body, sequence);
    assert(body@ =~= be32(0) + be32(sequence));
    wrap_box(&MFHD, body.as_slice())
}

/// The version 1 `tfdt` box of a track fragment.
pub open spec fn tfdt_box(time: u64) -> Seq<u8> {
    boxed(TFDT, be32(0x0100_0000) + be64(time))
}

/// Serialise a `tfdt` box.
pub fn build_tfdt(time: u64) -> (r: Vec<u8>)
    ensures
        r@ == tfdt_box(time),
{
    let mut body: Vec<u8> = Vec::new();
    put_u32(&mut body, 0x0100_0000);
    put_u64(&mut body, time);
    assert(body@ =~= be32(0x0100_0000) + be64(time));
    wrap_box(&TFDT, body.as_slice())
}

/// The `tfhd` box of a track fragment that lasts `duration` and is empty.
pub open spec fn empty_tfhd_box(track_id: u32, duration: u32) -> Seq<u8> {
    boxed(TFHD, be32(0x0001_0008) + be32(track_id) + be32(duration))
}

/// Serialise the `tfhd` box of an empty track fragment.
pub fn build_empty_tfhd(track_id: u32, duration: u32) -> (r: Vec<u8>)
    ensures
        r@ == empty_tfhd_box(track_id, duration),
{
    let mut body: Vec<u8> = Vec::new();
    put_u32(&mut body, 0x0001_0008);
    put_u32(&mut body, track_id);
    put_u32(&mut body, duration);
    assert(body@ =~= be32(0x0001_0008) + be32(track_id) + be32(duration));
    wrap_box(&TFHD, body.as_slice())
}

/// The media time of a request takes 64 bits.
pub open spec fn prft_is_long(p: PrftRequest) -> bool {
    p.force_v1 || p.media_time > u32::MAX
}

/// The `prft` box of a request.
pub open spec fn prft_box(p: PrftRequest) -> Seq<u8> {
    let head = seq![
        if prft_is_long(p) {
            1u8
        } else {
            0u8
        },
    ] + be24(p.flags) + be32(p.reference_track_id) + be64(p.ntp_timestamp);
    boxed(
        PRFT,
        head + if prft_is_long(p) {
            be64(p.media_time)
        } else {
            be32(p.media_time as u32)
        },
    )
}

/// Serialise a `prft` box.
pub fn build_prft(p: &PrftRequest) -> (r: Vec<u8>)
    ensures
        r@ == prft_box(*p),
{
    let long: bool = p.force_v1 || p.media_time > 0xFFFF_FFFF;
    let mut body: Vec<u8> = Vec::new();
    put_u8(
        &mut body,
        if long {
            1
        } else {
            0
        },
    );
    put_u24(&mut body, p.flags);
    put_u32(&mut body, p.reference_track_id);
    put_u64(&mut body, p.ntp_timestamp);
    if long {
        put_u64(&mut body, p.media_time);
    } else {
        put_u32(&mut body, p.media_time as u32);
    }
    let r: Vec<u8> = wrap_box(&PRFT, body.as_slice());
    assert(r@ =~= prft_box(*p));
    r
}

// ---------------------------------------------------------------------
// Indexes
// ---------------------------------------------------------------------

/// The body of a `sidx` box with one reference, to what follows the box.
/// The size is kept to 31 bits; a start with a stream access point is of
/// type 1.
pub open spec fn sidx_body(
    reference_id: u32,
    timescale: u32,
    earliest: u64,
    size: int,
    duration: u32,
    starts_with_sap: bool,
) -> Seq<u8> {
    be32(0x0100_0000) + be32(reference_id) + be32(timescale) + be64(earliest) + be64(0) + be16(0)
        + be16(1) + be32(
        if size > 0x7FFF_FFFF {
            0x7FFF_FFFFu32
        } else {
            size as u32
        },
    ) + be32(duration) + be32(
        if starts_with_sap {
            0x9000_0000u32
        } else {
            0u32
        },
    )
}

/// Serialise a `sidx` box with one reference. Sizes past 31 bits are kept
/// to the largest.
pub fn build_sidx(
    reference_id: u32,
    timescale: u32,
    earliest: u64,
    size: u64,
    duration: u32,
    starts_with_sap: bool,
) -> (r: Vec<u8>)
    ensures
        r@ == boxed(
            SIDX,
            sidx_body(reference_id, timescale, earliest, size as int, duration, starts_with_sap),
        ),
{
    let mut body: Vec<u8> = Vec::new();
    put_u32(&mut body, 0x0100_0000);
    put_u32(&mut body, reference_id);
    put_u32(&mut body, timescale);
    put_u64(&mut body, earliest);
    put_u64(&mut body, 0);
    put_u16(&mut body, 0);
    put_u16(&mut body, 1);
    put_u32(
        &mut body,
        if size > 0x7FFF_FFFF {
            0x7FFF_FFFF
        } else {
            size as u32
        },
    );
    put_u32(&mut body, duration);
    put_u32(
        &mut body,
        if starts_with_sap {
            0x9000_0000
        } else {
            0
        },
    );
    assert(body@ =~= sidx_body(
        reference_id,
        timescale,
        earliest,
        size as int,
        duration,
        starts_with_sap,
    ));
    wrap_box(&SIDX, body.as_slice())
}

/// A number in the one byte that a table has for it.
pub open spec fn row_number(n: u32) -> u8 {
    if n > 0xFF {
        0xFF
    } else {
        n as u8
    }
}

/// A row on the wire.
pub open spec fn tfra_row(e: TfraEmitEntry) -> Seq<u8> {
    be64(e.time) + be64(e.moof_offset) + seq![
        row_number(e.traf_number),
        row_number(e.trun_number),
        row_number(e.sample_number),
    ]
}

/// The rows on the wire.
pub open spec fn tfra_rows(e: Seq<TfraEmitEntry>) -> Seq<Seq<u8>> {
    Seq::new(e.len(), |i: int| tfra_row(e[i]))
}

/// The `tfra` box of a track.
pub open spec fn tfra_box(track_id: u32, e: Seq<TfraEmitEntry>) -> Seq<u8> {
    boxed(
        TFRA,
        be32(0x0100_0000) + be32(track_id) + be32(0) + be32(size_field(e.len())) + joined(
            tfra_rows(e),
        ),
    )
}

/// A number in the one byte that a table has for it.
fn clamp_row_number(n: u32) -> (r: u8)
    ensures
        r == row_number(n),
{
    if n > 0xFF {
        0xFF
    } else {
        n as u8
    }
}

/// Serialise a `tfra` box, with one byte for each number.
pub fn build_tfra(track_id: u32, entries: &[TfraEmitEntry]) -> (r: Vec<u8>)
    ensures
        r@ == tfra_box(track_id, entries@),
{
    let mut body: Vec<u8> = Vec::new();
    put_u32(&mut body, 0x0100_0000);
    put_u32(&mut body, track_id);
    put_u32(&mut body, 0);
    put_u32(&mut body, low32(entries.len()));
    let ghost head = body@;
    let ghost rows = tfra_rows(entries@);
    let mut i: usize = 0;
    proof {
        lemma_joined_none(rows);
    }
    while i < entries.len()
        invariant
            i <= entries.len(),
            rows == tfra_rows(entries@),
            body@ == head + joined(rows.take(i as int)),
        decreases entries.len() - i,
    {
        let e: TfraEmitEntry = entries[i];
        put_u64(&mut body, e.time);
        put_u64(&mut body, e.moof_offset);
        put_u8(&mut body, clamp_row_number(e.traf_number));
        put_u8(&mut body, clamp_row_number(e.trun_number));
        put_u8(&mut body, clamp_row_number(e.sample_number));
        proof {
            lemma_joined_step(rows, i as int);
            assert(e == entries@[i as int]);
            assert(body@ =~= head + joined(rows.take(i + 1)));
        }
        i = i + 1;
    }
    proof {
        lemma_joined_all(rows);
    }
    let r: Vec<u8> = wrap_box(&TFRA, body.as_slice());
    assert(r@ =~= tfra_box(track_id, entries@));
    r
}

/// The `mfro` box that ends a random access box of `size` bytes.
pub open spec fn mfro_box(size: u32) -> Seq<u8> {
    boxed(MFRO, be32(0) + be32(size))
}

/// Serialise a `mfro` box.
pub fn build_mfro(size: u32) -> (r: Vec<u8>)
    ensures
        r@ == mfro_box(size),
{
    let mut body: Vec<u8> = Vec::new();
    put_u32(&mut body, 0);
    put_u32(&mut body, size);
    assert(body@ =~= be32(0) + be32(size));
    wrap_box(&MFRO, body.as_slice())
}

} // verus!
