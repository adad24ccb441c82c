//! `fpar`: how a source file is partitioned into blocks.

use crate::boxes::FPAR;
use crate::bytes::{
    be16, be16_at, be32, be32_at, boxed, lemma_be16_at, lemma_be16_wire, lemma_be32_at,
    lemma_be32_wire, low32, put_bytes, put_u16, put_u32, put_u8, size_field, wrap_box,
};
use crate::fd::wire::{
    fullbox_wire, id_at, id_fits, id_width, id_wire, lemma_cstr_at, lemma_cstr_wire, lemma_id_at,
    lemma_id_wire, lemma_nul_from, lemma_nul_run, nul_from, rd_cstr, rd_fullbox, rd_id, rd_u16,
    rd_u32, rd_u8, wr_fullbox, wr_id,
};
use crate::seqs::{
    holds_at, joined, lemma_holds_split, lemma_joined_equal_parts, lemma_joined_push,
    lemma_joined_tiles,
};
use crate::text::{lossy_text, nul_free};
use vstd::prelude::*;
use vstd::utf8::{encode_utf8, valid_utf8};

verus! {

/// A run of source blocks of one size.
#[derive(Clone, Copy, Debug, PartialEq, Eq)]
pub struct FparEntry {
    /// How many consecutive blocks there are.
    pub block_count: u16,
    /// The size of each in bytes.
    pub block_size: u32,
}

/// A file partition box.
#[derive(Clone, Debug, PartialEq, Eq)]
pub struct FparBox {
    /// 0 for 16-bit identifier and count, anything else for 32-bit ones.
    pub version: u8,
    /// The item that is partitioned.
    pub item_id: u32,
    /// The target payload size of a packet.
    pub packet_payload_size: u16,
    /// The FEC encoding scheme.
    pub fec_encoding_id: u8,
    /// The FEC encoder, for schemes that leave it open.
    pub fec_instance_id: u16,
    /// The most source symbols of a source block.
    pub max_source_block_length: u16,
    /// The size of an encoding symbol in bytes.
    pub encoding_symbol_length: u16,
    /// The most encoding symbols that a source block gives.
    pub max_number_of_encoding_symbols: u16,
    /// What the scheme needs besides, in Base64.
    pub scheme_specific_info: String,
    /// The blocks of the source file.
    pub entries: Vec<FparEntry>,
}

/// The value of an [`FparBox`].
#[verifier::ext_equal]
pub struct FparView {
    pub version: u8,
    pub item_id: u32,
    pub packet_payload_size: u16,
    pub fec_encoding_id: u8,
    pub fec_instance_id: u16,
    pub max_source_block_length: u16,
    pub encoding_symbol_length: u16,
    pub max_number_of_encoding_symbols: u16,
    pub scheme_specific_info: Seq<char>,
    pub entries: Seq<FparEntry>,
}

impl View for FparBox {
    type V = FparView;

    open spec fn view(&self) -> FparView {
        FparView {
            version: self.version,
            item_id: self.item_id,
            packet_payload_size: self.packet_payload_size,
            fec_encoding_id: self.fec_encoding_id,
            fec_instance_id: self.fec_instance_id,
            max_source_block_length: self.max_source_block_length,
            encoding_symbol_length: self.encoding_symbol_length,
            max_number_of_encoding_symbols: self.max_number_of_encoding_symbols,
            scheme_specific_info: self.scheme_specific_info@,
            entries: self.entries@,
        }
    }
}

/// Where the scheme string starts.
pub open spec fn scheme_at(s: Seq<u8>) -> int {
    16 + id_width(s[0])
}

/// Where the scheme string ends.
pub open spec fn scheme_end(s: Seq<u8>) -> int {
    nul_from(s, scheme_at(s))
}

/// Where the rows start.
pub open spec fn rows_at(s: Seq<u8>) -> int {
    scheme_end(s) + 1 + id_width(s[0])
}

/// How many rows there are.
pub open spec fn row_count(s: Seq<u8>) -> nat {
    id_at(s, scheme_end(s) + 1, s[0]) as nat
}

/// The row that starts at `i`.
pub open spec fn row_at(s: Seq<u8>, i: int) -> FparEntry {
    FparEntry { block_count: be16_at(s, i), block_size: be32_at(s, i + 2) }
}

/// The body is long enough for what it says it holds.
pub open spec fn fpar_complete(s: Seq<u8>) -> bool {
    &&& s.len() >= 4
    &&& s.len() >= scheme_at(s)
    &&& scheme_end(s) < s.len()
    &&& rows_at(s) <= s.len()
    &&& rows_at(s) + 6 * row_count(s) <= s.len()
}

/// The record that an `fpar` body holds.
pub open spec fn fpar_of(s: Seq<u8>) -> Option<FparView> {
    if !fpar_complete(s) {
        None
    } else {
        let w = id_width(s[0]);
        Some(
            FparView {
                version: s[0],
                item_id: id_at(s, 4, s[0]),
                packet_payload_size: be16_at(s, 4 + w),
                fec_encoding_id: s[7 + w],
                fec_instance_id: be16_at(s, 8 + w),
                max_source_block_length: be16_at(s, 10 + w),
                encoding_symbol_length: be16_at(s, 12 + w),
                max_number_of_encoding_symbols: be16_at(s, 14 + w),
                scheme_specific_info: lossy_text(s.subrange(scheme_at(s), scheme_end(s))),
                entries: Seq::new(row_count(s), |i: int| row_at(s, rows_at(s) + 6 * i)),
            },
        )
    }
}

/// A row on the wire.
pub open spec fn row_wire(e: FparEntry) -> Seq<u8> {
    be16(e.block_count) + be32(e.block_size)
}

/// The rows on the wire.
pub open spec fn row_wires(entries: Seq<FparEntry>) -> Seq<Seq<u8>> {
    Seq::new(entries.len(), |i: int| row_wire(entries[i]))
}

/// The part of an `fpar` body before the scheme string.
#[verifier::opaque]
pub open spec fn fpar_head(b: FparView) -> Seq<u8> {
    fullbox_wire(b.version, 0) + id_wire(b.item_id, b.version) + be16(b.packet_payload_size) + seq![
        0u8,
        b.fec_encoding_id,
    ] + be16(b.fec_instance_id) + be16(b.max_source_block_length) + be16(b.encoding_symbol_length)
        + be16(b.max_number_of_encoding_symbols)
}

/// The body of an `fpar` box.
pub open spec fn fpar_body(b: FparView) -> Seq<u8> {
    fpar_head(b) + encode_utf8(b.scheme_specific_info) + seq![0u8] + id_wire(
        size_field(b.entries.len()),
        b.version,
    ) + joined(row_wires(b.entries))
}

/// Identifier and count fit their fields, and the string its terminator.
pub open spec fn fpar_wf(b: FparView) -> bool {
    id_fits(b.item_id as int, b.version) && id_fits(b.entries.len() as int, b.version) && nul_free(
        b.scheme_specific_info,
    )
}

/// Parse an `fpar` body. There is none where it is cut off or the string
/// has no end.
#[verifier::loop_isolation(false)]
pub fn parse_fpar_box(body: &[u8]) -> (r: Option<FparBox>)
    ensures
        match r {
            Some(b) => fpar_of(body@) == Some(b@) && fpar_wf(b@),
            None => fpar_of(body@) is None,
        },
{
    let mut p: usize = 0;
    let (version, _flags): (u8, u32) = rd_fullbox(body, &mut p)?;
    let item_id: u32 = rd_id(body, &mut p, version)?;
    let packet_payload_size: u16 = rd_u16(body, &mut p)?;
    let _reserved: u8 = rd_u8(body, &mut p)?;
    let fec_encoding_id: u8 = rd_u8(body, &mut p)?;
    let fec_instance_id: u16 = rd_u16(body, &mut p)?;
    let max_source_block_length: u16 = rd_u16(body, &mut p)?;
    let encoding_symbol_length: u16 = rd_u16(body, &mut p)?;
    let max_number_of_encoding_symbols: u16 = rd_u16(body, &mut p)?;
    assert(p == scheme_at(body@));
    let scheme_specific_info: String = rd_cstr(body, &mut p)?;
    let entry_count: u32 = rd_id(body, &mut p, version)?;
    assert(p == rows_at(body@) && entry_count == row_count(body@));
    let mut entries: Vec<FparEntry> = Vec::new();
    let mut i: u32 = 0;
    while i < entry_count
        invariant
            i <= entry_count,
            p <= body.len(),
            p == rows_at(body@) + 6 * i,
            entries.len() == i,
            forall|k: int|
                0 <= k < i ==> #[trigger] entries@[k] == row_at(body@, rows_at(body@) + 6 * k),
        decreases entry_count - i,
    {
        let block_count: u16 = rd_u16(body, &mut p)?;
        let block_size: u32 = rd_u32(body, &mut p)?;
        entries.push(FparEntry { block_count, block_size });
        i = i + 1;
    }
    assert(entries@ =~= fpar_of(body@)->0.entries);
    Some(
        FparBox {
            version,
            item_id,
            packet_payload_size,
            fec_encoding_id,
            fec_instance_id,
            max_source_block_length,
            encoding_symbol_length,
            max_number_of_encoding_symbols,
            scheme_specific_info,
            entries,
        },
    )
}

/// Serialise an `fpar` box. A version 0 box keeps the low 16 bits of
/// identifier and count.
pub fn build_fpar_box(b: &FparBox) -> (r: Vec<u8>)
    ensures
        r@ == boxed(FPAR, fpar_body(b@)),
{
    let mut body: Vec<u8> = Vec::new();
    wr_fullbox(&mut body, b.version, 0);
    wr_id(&mut body, b.item_id, b.version);
    put_u16(&mut body, b.packet_payload_size);
    put_u8(&mut body, 0);
    put_u8(&mut body, b.fec_encoding_id);
    put_u16(&mut body, b.fec_instance_id);
    put_u16(&mut body, b.max_source_block_length);
    put_u16(&mut body, b.encoding_symbol_length);
    put_u16(&mut body, b.max_number_of_encoding_symbols);
    assert(body@ =~= fpar_head(b@)) by {
        reveal(fpar_head);
    }
    put_bytes(&mut body, b.scheme_specific_info.as_str().as_bytes());
    put_u8(&mut body, 0);
    wr_id(&mut body, low32(b.entries.len()), b.version);
    let ghost head = body@;
    let ghost wires = row_wires(b.entries@);
    let mut i: usize = 0;
    assert(wires.take(0) =~= Seq::<Seq<u8>>::empty());
    assert(body@ =~= head + joined(wires.take(0)));
    while i < b.entries.len()
        invariant
            i <= b.entries.len(),
            wires == row_wires(b.entries@),
            body@ == head + joined(wires.take(i as int)),
        decreases b.entries.len() - i,
    {
        put_u16(&mut body, b.entries[i].block_count);
        put_u32(&mut body, b.entries[i].block_size);
        proof {
            lemma_joined_push(wires.take(i as int), wires[i as int]);
            assert(wires.take(i as int).push(wires[i as int]) =~= wires.take(i + 1));
            assert(body@ =~= head + joined(wires.take(i + 1)));
        }
        i = i + 1;
    }
    assert(wires.take(b.entries.len() as int) =~= wires);
    assert(body@ =~= fpar_body(b@));
    wrap_box(&FPAR, body.as_slice())
}

// ---------------------------------------------------------------------
// Laws
// ---------------------------------------------------------------------

/// The fields before the scheme string are found where they were written.
proof fn lemma_fpar_head(b: FparView, rest: Seq<u8>)
    requires
        id_fits(b.item_id as int, b.version),
    ensures
        ({
            let s = fpar_head(b) + rest;
            let w = id_width(b.version);
            &&& fpar_head(b).len() == 16 + w
            &&& s[0] == b.version
            &&& id_at(s, 4, b.version) == b.item_id
            &&& be16_at(s, 4 + w) == b.packet_payload_size
            &&& s[7 + w] == b.fec_encoding_id
            &&& be16_at(s, 8 + w) == b.fec_instance_id
            &&& be16_at(s, 10 + w) == b.max_source_block_length
            &&& be16_at(s, 12 + w) == b.encoding_symbol_length
            &&& be16_at(s, 14 + w) == b.max_number_of_encoding_symbols
        }),
{
    reveal(fpar_head);
    let s = fpar_head(b) + rest;
    let v = b.version;
    let w = id_width(v);
    assert(id_wire(b.item_id, v).len() == w);
    lemma_eight_fields(
        fullbox_wire(v, 0),
        id_wire(b.item_id, v),
        be16(b.packet_payload_size),
        seq![0u8, b.fec_encoding_id],
        be16(b.fec_instance_id),
        be16(b.max_source_block_length),
        be16(b.encoding_symbol_length),
        be16(b.max_number_of_encoding_symbols),
        rest,
        w,
    );
    assert(s.subrange(0, 4)[0] == v);
    assert(s.subrange(6 + w, 8 + w)[1] == b.fec_encoding_id);
    lemma_id_at(s, 4, b.item_id, v);
    lemma_be16_at(s, 4 + w, b.packet_payload_size);
    lemma_be16_at(s, 8 + w, b.fec_instance_id);
    lemma_be16_at(s, 10 + w, b.max_source_block_length);
    lemma_be16_at(s, 12 + w, b.encoding_symbol_length);
    lemma_be16_at(s, 14 + w, b.max_number_of_encoding_symbols);
}

/// Fields in a row are found where their widths put them.
proof fn lemma_eight_fields(
    a: Seq<u8>,
    b: Seq<u8>,
    c: Seq<u8>,
    d: Seq<u8>,
    e: Seq<u8>,
    f: Seq<u8>,
    g: Seq<u8>,
    h: Seq<u8>,
    rest: Seq<u8>,
    w: int,
)
    requires
        a.len() == 4,
        b.len() == w,
        c.len() == 2 && d.len() == 2 && e.len() == 2,
        f.len() == 2 && g.len() == 2 && h.len() == 2,
    ensures
        ({
            let s = a + b + c + d + e + f + g + h + rest;
            &&& s.len() == 16 + w + rest.len()
            &&& holds_at(s, 0, a)
            &&& holds_at(s, 4, b)
            &&& holds_at(s, 4 + w, c)
            &&& holds_at(s, 6 + w, d)
            &&& holds_at(s, 8 + w, e)
            &&& holds_at(s, 10 + w, f)
            &&& holds_at(s, 12 + w, g)
            &&& holds_at(s, 14 + w, h)
        }),
{
    let abcd = a + b + c + d;
    let s = a + b + c + d + e + f + g + h + rest;
    let whole = abcd + e + f + g + h;
    assert(s.subrange(0, whole.len() as int) =~= whole);
    lemma_holds_split(s, 0, abcd + e + f + g, h);
    lemma_holds_split(s, 0, abcd + e + f, g);
    lemma_holds_split(s, 0, abcd + e, f);
    lemma_holds_split(s, 0, abcd, e);
    lemma_holds_split(s, 0, a + b + c, d);
    lemma_holds_split(s, 0, a + b, c);
    lemma_holds_split(s, 0, a, b);
}

/// A row is found where it was written.
proof fn lemma_row_at(s: Seq<u8>, i: int, e: FparEntry)
    requires
        0 <= i,
        i + 6 <= s.len(),
        s.subrange(i, i + 6) == row_wire(e),
    ensures
        row_at(s, i) == e,
{
    let t = s.subrange(i, i + 6);
    assert(s.subrange(i, i + 2) =~= t.subrange(0, 2));
    assert(s.subrange(i + 2, i + 6) =~= t.subrange(2, 6));
    assert(row_wire(e).subrange(0, 2) =~= be16(e.block_count));
    assert(row_wire(e).subrange(2, 6) =~= be32(e.block_size));
    lemma_be16_at(s, i, e.block_count);
    lemma_be32_at(s, i + 2, e.block_size);
}

/// A row that was read is written as it was.
proof fn lemma_row_wire(s: Seq<u8>, i: int)
    requires
        0 <= i,
        i + 6 <= s.len(),
    ensures
        row_wire(row_at(s, i)) == s.subrange(i, i + 6),
{
    lemma_be16_wire(s, i);
    lemma_be32_wire(s, i + 2);
    assert(s.subrange(i, i + 2) + s.subrange(i + 2, i + 6) =~= s.subrange(i, i + 6));
}

/// The rows are found where they were written.
proof fn lemma_rows_at(s: Seq<u8>, at: int, entries: Seq<FparEntry>)
    requires
        holds_at(s, at, joined(row_wires(entries))),
    ensures
        joined(row_wires(entries)).len() == 6 * entries.len(),
        forall|i: int|
            0 <= i < entries.len() ==> row_at(s, at + 6 * i) == #[trigger] entries[i],
{
    let wires = row_wires(entries);
    lemma_joined_equal_parts(wires, 6);
    assert forall|i: int| 0 <= i < entries.len() implies row_at(s, at + 6 * i)
        == #[trigger] entries[i] by {
        let here = at + 6 * i;
        assert(wires[i] == row_wire(entries[i]));
        assert(s.subrange(here, here + 6) =~= joined(wires).subrange(6 * i, 6 * i + 6));
        lemma_row_at(s, here, entries[i]);
    }
}

/// Where the parts of a body stand.
proof fn lemma_fpar_parts(
    head: Seq<u8>,
    run: Seq<u8>,
    count: Seq<u8>,
    rows: Seq<u8>,
    tail: Seq<u8>,
)
    ensures
        ({
            let s = head + run + seq![0u8] + count + rows + tail;
            let end = (head.len() + run.len()) as int;
            &&& s.len() == end + 1 + count.len() + rows.len() + tail.len()
            &&& s == head + s.subrange(head.len() as int, s.len() as int)
            &&& holds_at(s, head.len() as int, run)
            &&& s[end] == 0
            &&& holds_at(s, end + 1, count)
            &&& holds_at(s, end + 1 + count.len(), rows)
        }),
{
    let s = head + run + seq![0u8] + count + rows + tail;
    let whole = head + run + seq![0u8] + count + rows;
    assert(s.subrange(0, whole.len() as int) =~= whole);
    lemma_holds_split(s, 0, head + run + seq![0u8] + count, rows);
    lemma_holds_split(s, 0, head + run + seq![0u8], count);
    lemma_holds_split(s, 0, head + run, seq![0u8]);
    lemma_holds_split(s, 0, head, run);
    let end = (head.len() + run.len()) as int;
    assert(s.subrange(end, end + 1)[0] == 0);
    assert(s =~= head + s.subrange(head.len() as int, s.len() as int));
}

/// What stands behind the fixed fields of a body is found again.
proof fn lemma_fpar_tail(s: Seq<u8>, b: FparView)
    requires
        fpar_wf(b),
        s.len() > 0,
        s[0] == b.version,
        ({
            let w = id_width(b.version);
            let run = encode_utf8(b.scheme_specific_info);
            let end = 16 + w + run.len();
            &&& holds_at(s, 16 + w, run)
            &&& end < s.len()
            &&& s[end] == 0
            &&& holds_at(s, end + 1, id_wire(size_field(b.entries.len()), b.version))
            &&& holds_at(s, end + 1 + w, joined(row_wires(b.entries)))
        }),
    ensures
        fpar_complete(s),
        lossy_text(s.subrange(scheme_at(s), scheme_end(s))) == b.scheme_specific_info,
        row_count(s) == b.entries.len(),
        rows_at(s) + 6 * row_count(s) == 17 + 2 * id_width(b.version) + encode_utf8(
            b.scheme_specific_info,
        ).len() + joined(row_wires(b.entries)).len(),
        forall|i: int|
            0 <= i < b.entries.len() ==> row_at(s, rows_at(s) + 6 * i) == #[trigger] b.entries[i],
{
    let v = b.version;
    let w = id_width(v);
    let run = encode_utf8(b.scheme_specific_info);
    let end = 16 + w + run.len();
    let n = size_field(b.entries.len());
    lemma_cstr_at(s, 16 + w, b.scheme_specific_info);
    assert(id_wire(n, v).len() == w);
    lemma_id_at(s, end + 1, n, v);
    lemma_rows_at(s, end + 1 + w, b.entries);
}

/// A written body is found again, whatever stands behind it.
proof fn lemma_fpar_found(b: FparView, tail: Seq<u8>)
    requires
        fpar_wf(b),
    ensures
        ({
            let s = fpar_body(b) + tail;
            &&& s == fpar_head(b) + s.subrange(16 + id_width(b.version), s.len() as int)
            &&& fpar_complete(s)
            &&& lossy_text(s.subrange(scheme_at(s), scheme_end(s))) == b.scheme_specific_info
            &&& row_count(s) == b.entries.len()
            &&& rows_at(s) + 6 * row_count(s) + tail.len() == s.len()
            &&& forall|i: int|
                0 <= i < b.entries.len() ==> row_at(s, rows_at(s) + 6 * i)
                    == #[trigger] b.entries[i]
        }),
{
    let head = fpar_head(b);
    let run = encode_utf8(b.scheme_specific_info);
    let count = id_wire(size_field(b.entries.len()), b.version);
    assert(count.len() == id_width(b.version));
    lemma_fpar_head(b, Seq::empty());
    assert(head + Seq::<u8>::empty() =~= head);
    lemma_fpar_parts(head, run, count, joined(row_wires(b.entries)), tail);
    lemma_fpar_tail(fpar_body(b) + tail, b);
}

/// A record whose fields fit parses back as it was written, also with more
/// bytes behind it.
pub proof fn law_fpar_build_parse(b: FparView, tail: Seq<u8>)
    requires
        fpar_wf(b),
    ensures
        fpar_of(fpar_body(b) + tail) == Some(b),
{
    let s = fpar_body(b) + tail;
    lemma_fpar_found(b, tail);
    lemma_fpar_head(b, s.subrange(16 + id_width(b.version), s.len() as int));
    assert(fpar_of(s)->0.entries =~= b.entries);
}

/// A body that parses to a string without NUL characters, as every parsed
/// string is, gives a record that parses again to itself once written.
pub proof fn law_fpar_parse_build_parse(s: Seq<u8>)
    ensures
        fpar_of(s) matches Some(b) ==> nul_free(b.scheme_specific_info) ==> fpar_wf(b) && fpar_of(
            fpar_body(b),
        ) == Some(b),
{
    if let Some(b) = fpar_of(s) {
        if nul_free(b.scheme_specific_info) {
            lemma_nul_run(s, scheme_at(s));
            lemma_id_wire(s, 4, s[0]);
            lemma_id_wire(s, scheme_end(s) + 1, s[0]);
            law_fpar_build_parse(b, Seq::empty());
            assert(fpar_body(b) + Seq::<u8>::empty() =~= fpar_body(b));
        }
    }
}

/// The fields before the scheme string are written as they were.
proof fn lemma_fpar_head_wire(s: Seq<u8>)
    requires
        fpar_of(s) is Some,
        s[1] == 0 && s[2] == 0 && s[3] == 0,
        s[6 + id_width(s[0])] == 0,
    ensures
        fpar_head(fpar_of(s)->0) == s.subrange(0, scheme_at(s)),
{
    reveal(fpar_head);
    let b = fpar_of(s)->0;
    let w = id_width(s[0]);
    lemma_id_wire(s, 4, s[0]);
    lemma_be16_wire(s, 4 + w);
    lemma_be16_wire(s, 8 + w);
    lemma_be16_wire(s, 10 + w);
    lemma_be16_wire(s, 12 + w);
    lemma_be16_wire(s, 14 + w);
    assert(fullbox_wire(s[0], 0) =~= s.subrange(0, 4));
    assert(seq![0u8, b.fec_encoding_id] =~= s.subrange(6 + w, 8 + w));
    let a = s.subrange(0, 4) + s.subrange(4, 4 + w) + s.subrange(4 + w, 6 + w);
    assert(a =~= s.subrange(0, 6 + w));
    let c = a + s.subrange(6 + w, 8 + w) + s.subrange(8 + w, 10 + w);
    assert(c =~= s.subrange(0, 10 + w));
    let d = c + s.subrange(10 + w, 12 + w) + s.subrange(12 + w, 14 + w) + s.subrange(
        14 + w,
        16 + w,
    );
    assert(d =~= s.subrange(0, 16 + w));
}

/// A body that parses, with zero flags and reserved byte, well-formed
/// UTF-8 and nothing behind the rows is written again byte for byte.
pub proof fn law_fpar_rebuild_is_byte_exact(s: Seq<u8>)
    requires
        fpar_of(s) is Some,
        s[1] == 0 && s[2] == 0 && s[3] == 0,
        s[6 + id_width(s[0])] == 0,
        valid_utf8(s.subrange(scheme_at(s), scheme_end(s))),
        s.len() == rows_at(s) + 6 * row_count(s),
    ensures
        fpar_body(fpar_of(s)->0) == s,
{
    let b = fpar_of(s)->0;
    let v = s[0];
    let at = scheme_at(s);
    let end = scheme_end(s);
    let rows = rows_at(s);
    lemma_fpar_head_wire(s);
    lemma_nul_run(s, at);
    lemma_cstr_wire(s, at);
    lemma_id_wire(s, end + 1, v);
    let wires = row_wires(b.entries);
    assert forall|i: int| 0 <= i < wires.len() implies #[trigger] wires[i] == s.subrange(
        rows + 6 * i,
        rows + 6 * i + 6,
    ) by {
        lemma_row_wire(s, rows + 6 * i);
    }
    lemma_joined_tiles(wires, 6, s, rows);
    assert(size_field(b.entries.len()) == id_at(s, end + 1, v));
    assert(s.subrange(0, at) + s.subrange(at, end) =~= s.subrange(0, end));
    assert(s.subrange(0, end) + seq![0u8] =~= s.subrange(0, end + 1));
    assert(s.subrange(0, end + 1) + s.subrange(end + 1, rows) =~= s.subrange(0, rows));
    assert(s.subrange(0, rows) + s.subrange(rows, s.len() as int) =~= s);
}

/// A body that ends with its rows is not complete when it is cut.
proof fn lemma_cut_fpar(s: Seq<u8>, cut: int)
    requires
        fpar_complete(s),
        rows_at(s) + 6 * row_count(s) == s.len(),
        0 <= cut < s.len(),
    ensures
        !fpar_complete(s.take(cut)),
{
    let t = s.take(cut);
    let at = scheme_at(s);
    let end = scheme_end(s);
    let w = id_width(s[0]);
    lemma_nul_run(s, at);
    if cut >= at {
        assert(t[0] == s[0]);
        lemma_nul_run(t, at);
        if cut <= end {
            if nul_from(t, at) < cut {
                assert(t[nul_from(t, at)] == s[nul_from(t, at)]);
            }
        } else {
            assert forall|k: int| at <= k < end implies t[k] != 0 by {
                assert(t[k] == s[k]);
            }
            assert(t[end] == s[end]);
            lemma_nul_from(t, at, end);
            if cut >= end + 1 + w {
                assert forall|k: int| end < k < end + 1 + w implies t[k] == s[k] by {}
                assert(id_at(t, end + 1, s[0]) == id_at(s, end + 1, s[0]));
            }
        }
    }
}

/// Every body shorter than a written `fpar` body is refused.
pub proof fn law_truncated_fpar_is_refused(b: FparView, cut: int)
    requires
        fpar_wf(b),
        0 <= cut < fpar_body(b).len(),
    ensures
        fpar_of(fpar_body(b).take(cut)) is None,
{
    let none = Seq::<u8>::empty();
    assert(fpar_body(b) + none =~= fpar_body(b));
    lemma_fpar_found(b, none);
    lemma_cut_fpar(fpar_body(b), cut);
}

/// The flags of a written body and the byte before the encoding are zeros.
pub proof fn law_fpar_unused_bytes_are_zeros(b: FparView)
    requires
        id_fits(b.item_id as int, b.version),
    ensures
        fpar_body(b)[1] == 0,
        fpar_body(b)[2] == 0,
        fpar_body(b)[3] == 0,
        fpar_body(b)[6 + id_width(b.version)] == 0,
{
    let s = fpar_body(b);
    let head = fpar_head(b);
    lemma_fpar_head(b, Seq::empty());
    let w = id_width(b.version);
    assert(forall|i: int| 0 <= i < 16 + w ==> s[i] == head[i]);
    reveal(fpar_head);
    assert(fullbox_wire(b.version, 0)[1] == 0 && fullbox_wire(b.version, 0)[2] == 0 && fullbox_wire(
        b.version,
        0,
    )[3] == 0);
    lemma_eight_fields(
        fullbox_wire(b.version, 0),
        id_wire(b.item_id, b.version),
        be16(b.packet_payload_size),
        seq![0u8, b.fec_encoding_id],
        be16(b.fec_instance_id),
        be16(b.max_source_block_length),
        be16(b.encoding_symbol_length),
        be16(b.max_number_of_encoding_symbols),
        Seq::empty(),
        w,
    );
    let all = head + Seq::<u8>::empty();
    assert(all =~= head);
    assert(all.subrange(0, 4)[1] == all[1] && all.subrange(0, 4)[2] == all[2] && all.subrange(
        0,
        4,
    )[3] == all[3]);
    assert(all.subrange(6 + w, 8 + w)[0] == all[6 + w]);
}

} // verus!
