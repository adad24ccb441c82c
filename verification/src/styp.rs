//! `ftyp` and `styp`: the brands of a file and of a segment.

use crate::boxes::STYP;
use crate::bytes::{be32, boxed, put_bytes, put_u32, wrap_box};
use crate::seqs::{joined, lemma_joined_all, lemma_joined_none, lemma_joined_step};
use vstd::prelude::*;

verus! {

/// Brands on the wire.
pub open spec fn brand_wires(brands: Seq<[u8; 4]>) -> Seq<Seq<u8>> {
    Seq::new(brands.len(), |i: int| brands[i]@)
}

/// The body of a `ftyp` or `styp` box.
pub open spec fn brands_body(major: [u8; 4], minor: u32, compatible: Seq<[u8; 4]>) -> Seq<u8> {
    major@ + be32(minor) + joined(brand_wires(compatible))
}

/// Serialise a box of brands.
pub fn build_brands_box(
    code: &[u8; 4],
    major: [u8; 4],
    minor: u32,
    compatible: &[[u8; 4]],
) -> (r: Vec<u8>)
    ensures
        r@ == boxed(*code, brands_body(major, minor, compatible@)),
{
    let mut body: Vec<u8> = Vec::new();
    put_bytes(&mut body, &major);
    put_u32(&mut body, minor);
    let ghost head = body@;
    let ghost wires = brand_wires(compatible@);
    let mut i: usize = 0;
    proof {
        lemma_joined_none(wires);
    }
    while i < compatible.len()
        invariant
            i <= compatible.len(),
            wires == brand_wires(compatible@),
            body@ == head + joined(wires.take(i as int)),
        decreases compatible.len() - i,
    {
        put_bytes(&mut body, &compatible[i]);
        proof {
            lemma_joined_step(wires, i as int);
            assert(body@ =~= head + joined(wires.take(i + 1)));
        }
        i = i + 1;
    }
    proof {
        lemma_joined_all(wires);
    }
    assert(body@ =~= brands_body(major, minor, compatible@));
    wrap_box(code, body.as_slice())
}

/// Serialise a `styp` box of minor version 0.
pub fn build_styp(major: [u8; 4], compatible: &[[u8; 4]]) -> (r: Vec<u8>)
    ensures
        r@ == boxed(STYP, brands_body(major, 0, compatible@)),
{
    build_brands_box(&STYP, major, 0, compatible)
}

/// Serialise a `styp` box.
pub fn build_styp_with_minor(major: [u8; 4], minor: u32, compatible: &[[u8; 4]]) -> (r: Vec<u8>)
    ensures
        r@ == boxed(STYP, brands_body(major, minor, compatible@)),
{
    build_brands_box(&STYP, major, minor, compatible)
}

/// Append a `styp` box of minor version 0.
pub fn write_styp(out: &mut Vec<u8>, major: [u8; 4], compatible: &[[u8; 4]])
    ensures
        final(out)@ == old(out)@ + boxed(STYP, brands_body(major, 0, compatible@)),
{
    put_bytes(out, build_styp(major, compatible).as_slice());
}

} // verus!
