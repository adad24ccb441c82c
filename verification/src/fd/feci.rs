//! `feci`: which encoding symbol a packet carries.

use crate::boxes::FECI;
use crate::bytes::{
    be16, be16_at, boxed, lemma_be16_at, lemma_be16_wire, put_u16, put_u8, wrap_box,
};
use crate::fd::wire::{rd_u16, rd_u8};
use vstd::prelude::*;

verus! {

/// A FEC information box.
#[derive(Clone, Copy, Debug, PartialEq, Eq)]
pub struct FeciBox {
    /// The FEC encoding scheme.
    pub fec_encoding_id: u8,
    /// The FEC encoder, for schemes that leave it open.
    pub fec_instance_id: u16,
    /// The source block that the encoding symbols derive from.
    pub source_block_number: u16,
    /// Which encoding symbols the packet carries.
    pub encoding_symbol_id: u16,
}

/// The record that a `feci` body holds.
pub open spec fn feci_of(s: Seq<u8>) -> Option<FeciBox> {
    if s.len() < 7 {
        None
    } else {
        Some(
            FeciBox {
                fec_encoding_id: s[0],
                fec_instance_id: be16_at(s, 1),
                source_block_number: be16_at(s, 3),
                encoding_symbol_id: be16_at(s, 5),
            },
        )
    }
}

/// The seven bytes of a `feci` body.
pub open spec fn feci_body(b: FeciBox) -> Seq<u8> {
    seq![b.fec_encoding_id] + be16(b.fec_instance_id) + be16(b.source_block_number) + be16(
        b.encoding_symbol_id,
    )
}

/// Parse a `feci` body. There is none in fewer than seven bytes.
pub fn parse_feci_box(body: &[u8]) -> (r: Option<FeciBox>)
    ensures
        r == feci_of(body@),
{
    let mut p: usize = 0;
    let fec_encoding_id: u8 = rd_u8(body, &mut p)?;
    let fec_instance_id: u16 = rd_u16(body, &mut p)?;
    let source_block_number: u16 = rd_u16(body, &mut p)?;
    let encoding_symbol_id: u16 = rd_u16(body, &mut p)?;
    Some(FeciBox { fec_encoding_id, fec_instance_id, source_block_number, encoding_symbol_id })
}

/// Serialise a `feci` box.
pub fn build_feci_box(b: &FeciBox) -> (r: Vec<u8>)
    ensures
        r@ == boxed(FECI, feci_body(*b)),
{
    let mut body: Vec<u8> = Vec::new();
    put_u8(&mut body, b.fec_encoding_id);
    put_u16(&mut body, b.fec_instance_id);
    put_u16(&mut body, b.source_block_number);
    put_u16(&mut body, b.encoding_symbol_id);
    assert(body@ =~= feci_body(*b));
    wrap_box(&FECI, body.as_slice())
}

/// Every `feci` record parses back as it was written, also with more bytes
/// behind it.
pub proof fn law_feci_build_parse(b: FeciBox, tail: Seq<u8>)
    ensures
        feci_of(feci_body(b) + tail) == Some(b),
{
    let s = feci_body(b) + tail;
    assert(s.subrange(1, 3) =~= be16(b.fec_instance_id));
    assert(s.subrange(3, 5) =~= be16(b.source_block_number));
    assert(s.subrange(5, 7) =~= be16(b.encoding_symbol_id));
    lemma_be16_at(s, 1, b.fec_instance_id);
    lemma_be16_at(s, 3, b.source_block_number);
    lemma_be16_at(s, 5, b.encoding_symbol_id);
}

/// A `feci` body of seven bytes is written again byte for byte.
pub proof fn law_feci_rebuild_is_byte_exact(s: Seq<u8>)
    requires
        s.len() == 7,
    ensures
        feci_of(s) matches Some(b) && feci_body(b) == s,
{
    lemma_be16_wire(s, 1);
    lemma_be16_wire(s, 3);
    lemma_be16_wire(s, 5);
    assert(feci_body(feci_of(s)->0) =~= s.subrange(0, 1) + s.subrange(1, 3) + s.subrange(3, 5)
        + s.subrange(5, 7));
    assert(feci_body(feci_of(s)->0) =~= s);
}

/// Every body shorter than a written `feci` body is refused.
pub proof fn law_truncated_feci_is_refused(b: FeciBox, cut: int)
    requires
        0 <= cut < feci_body(b).len(),
    ensures
        feci_of(feci_body(b).take(cut)) is None,
{
}

} // verus!
