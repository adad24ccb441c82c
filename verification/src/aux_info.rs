//! `saiz` and `saio`: how long the auxiliary information of each sample is,
//! and where it stands.

use crate::boxes::{SAIO, SAIZ};
use crate::bytes::{
    be32, be32_at, boxed, lemma_be32_at, low32, put_bytes, put_u32, put_u8, size_field, wrap_box,
};
use crate::seqs::{lemma_holds_split, lemma_holds_whole};
use vstd::prelude::*;

verus! {

/// All entries are one and the same.
pub open spec fn all_same(sizes: Seq<u8>) -> bool {
    forall|i: int| 0 <= i < sizes.len() ==> #[trigger] sizes[i] == sizes[0]
}

/// The body of a `saiz` box: one size for all samples, or a table of sizes
/// behind a zero.
pub open spec fn saiz_body(sizes: Seq<u8>) -> Seq<u8> {
    if all_same(sizes) {
        be32(0) + seq![sizes[0]] + be32(size_field(sizes.len()))
    } else {
        be32(0) + seq![0u8] + be32(size_field(sizes.len())) + sizes
    }
}

/// Serialise a `saiz` box for samples with auxiliary information of the
/// given sizes.
pub fn build_saiz_box(sizes: &[u8]) -> (r: Vec<u8>)
    requires
        sizes@.len() > 0,
    ensures
        r@ == boxed(SAIZ, saiz_body(sizes@)),
{
    let mut same: bool = true;
    let mut i: usize = 0;
    while i < sizes.len()
        invariant
            i <= sizes.len(),
            sizes.len() > 0,
            same == forall|k: int| 0 <= k < i ==> #[trigger] sizes@[k] == sizes@[0],
        decreases sizes.len() - i,
    {
        if sizes[i] != sizes[0] {
            assert(sizes@[i as int] != sizes@[0]);
            same = false;
        }
        i = i + 1;
    }
    assert(same == all_same(sizes@));
    let mut body: Vec<u8> = Vec::new();
    put_u32(&mut body, 0);
    put_u8(
        &mut body,
        if same {
            sizes[0]
        } else {
            0
        },
    );
    put_u32(&mut body, low32(sizes.len()));
    if !same {
        put_bytes(&mut body, sizes);
    }
    assert(body@ =~= saiz_body(sizes@));
    wrap_box(&SAIZ, body.as_slice())
}

/// The body of a `saio` box with one 32-bit offset.
pub open spec fn saio_body(offset: u32) -> Seq<u8> {
    be32(0) + be32(1) + be32(offset)
}

/// Serialise a `saio` box with one 32-bit offset.
pub fn build_saio_box(offset: u32) -> (r: Vec<u8>)
    ensures
        r@ == boxed(SAIO, saio_body(offset)),
{
    let mut body: Vec<u8> = Vec::new();
    put_u32(&mut body, 0);
    put_u32(&mut body, 1);
    put_u32(&mut body, offset);
    assert(body@ =~= saio_body(offset));
    wrap_box(&SAIO, body.as_slice())
}

/// The size that the body of a `saiz` box gives for the `i`-th sample: the
/// one for all samples, or that in the table where the one for all is 0.
pub open spec fn size_in_saiz(s: Seq<u8>, i: int) -> u8 {
    if s[4] != 0 {
        s[4]
    } else {
        s[9 + i]
    }
}

/// A `saiz` body read back by its layout gives the number of samples and the
/// size of each, from within the body. Where every size is 0 there is no
/// table to read.
pub proof fn law_saiz_reads_back(sizes: Seq<u8>, i: int, some: int)
    requires
        0 <= i < sizes.len(),
        0 <= some < sizes.len(),
        sizes[some] != 0,
    ensures
        ({
            let s = saiz_body(sizes);
            &&& s.len() >= 9
            &&& be32_at(s, 0) == 0
            &&& be32_at(s, 5) == sizes.len() % 0x1_0000_0000
            &&& s[4] == 0 ==> s.len() == 9 + sizes.len()
            &&& s[4] != 0 ==> s.len() == 9
            &&& size_in_saiz(s, i) == sizes[i]
        }),
{
    let s = saiz_body(sizes);
    let n = size_field(sizes.len());
    let first = seq![
        if all_same(sizes) {
            sizes[0]
        } else {
            0u8
        },
    ];
    let table = if all_same(sizes) {
        Seq::empty()
    } else {
        sizes
    };
    assert(s =~= be32(0) + first + be32(n) + table);
    lemma_holds_whole(s);
    lemma_holds_split(s, 0, be32(0) + first + be32(n), table);
    lemma_holds_split(s, 0, be32(0) + first, be32(n));
    lemma_holds_split(s, 0, be32(0), first);
    lemma_be32_at(s, 0, 0);
    lemma_be32_at(s, 5, n);
    assert(s.subrange(4, 5)[0] == s[4]);
    if all_same(sizes) {
        assert(sizes[some] == sizes[0]);
        assert(sizes[i] == sizes[0]);
    } else {
        assert(s.subrange(9, 9 + sizes.len() as int)[i] == s[9 + i]);
    }
}

/// A `saio` body read back by its layout gives one entry, the offset.
pub proof fn law_saio_reads_back(offset: u32)
    ensures
        ({
            let s = saio_body(offset);
            &&& s.len() == 12
            &&& be32_at(s, 0) == 0
            &&& be32_at(s, 4) == 1
            &&& be32_at(s, 8) == offset
        }),
{
    let s = saio_body(offset);
    lemma_holds_whole(s);
    lemma_holds_split(s, 0, be32(0) + be32(1), be32(offset));
    lemma_holds_split(s, 0, be32(0), be32(1));
    lemma_be32_at(s, 0, 0);
    lemma_be32_at(s, 4, 1);
    lemma_be32_at(s, 8, offset);
}

} // verus!
