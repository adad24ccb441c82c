//! Reading numbers and parts where they stand in a longer run.

use crate::bytes::{
    be16, be16_at, be24_at, be32, be32_at, be64, be64_at, boxed, lemma_be64_at, lemma_boxed,
};
use crate::seqs::{holds_at, lemma_holds_split, lemma_holds_whole};
use vstd::prelude::*;

verus! {

/// The body of a box stands eight bytes into it.
pub proof fn lemma_box_body(code: [u8; 4], body: Seq<u8>)
    ensures
        boxed(code, body).len() == 8 + body.len(),
        boxed(code, body).subrange(4, 8) == code@,
        8 + body.len() <= u32::MAX ==> be32_at(boxed(code, body), 0) == 8 + body.len(),
        holds_at(boxed(code, body), 8, body),
{
    lemma_boxed(code, body);
}

/// A number on the wire reads as itself.
pub proof fn lemma_wire16(x: u16)
    ensures
        be16(x).len() == 2,
        be16_at(be16(x), 0) == x,
{
}

/// A number on the wire reads as itself.
pub proof fn lemma_wire32(x: u32)
    ensures
        be32(x).len() == 4,
        be32_at(be32(x), 0) == x,
{
}

/// A number on the wire reads as itself.
pub proof fn lemma_wire64(x: u64)
    ensures
        be64(x).len() == 8,
        be64_at(be64(x), 0) == x,
{
    assert(be64(x).subrange(0, 8) =~= be64(x));
    lemma_be64_at(be64(x), 0, x);
}

/// A number reads the same where its bytes stand.
pub proof fn lemma_read16(s: Seq<u8>, at: int, part: Seq<u8>)
    requires
        holds_at(s, at, part),
        part.len() == 2,
    ensures
        be16_at(s, at) == be16_at(part, 0),
{
    assert(s.subrange(at, at + 2)[0] == s[at] && s.subrange(at, at + 2)[1] == s[at + 1]);
}

/// A number reads the same where its bytes stand.
pub proof fn lemma_read32(s: Seq<u8>, at: int, part: Seq<u8>)
    requires
        holds_at(s, at, part),
        part.len() >= 4,
    ensures
        be32_at(s, at) == be32_at(part, 0),
{
    let t = s.subrange(at, at + part.len());
    assert(t[0] == s[at] && t[1] == s[at + 1] && t[2] == s[at + 2] && t[3] == s[at + 3]);
}

/// A number reads the same where its bytes stand.
pub proof fn lemma_read64(s: Seq<u8>, at: int, part: Seq<u8>)
    requires
        holds_at(s, at, part),
        part.len() == 8,
    ensures
        be64_at(s, at) == be64_at(part, 0),
{
    let t = s.subrange(at, at + 8);
    assert(t[4] == s[at + 4] && t[5] == s[at + 5] && t[6] == s[at + 6] && t[7] == s[at + 7]);
    lemma_read32(s, at, part);
}

/// Where ten parts one after the other stand.
pub proof fn lemma_ten_parts(
    a: Seq<u8>,
    b: Seq<u8>,
    c: Seq<u8>,
    d: Seq<u8>,
    e: Seq<u8>,
    f: Seq<u8>,
    g: Seq<u8>,
    h: Seq<u8>,
    i: Seq<u8>,
    j: Seq<u8>,
)
    ensures
        holds_at(a + b + c + d + e + f + g + h + i + j, 0, a),
        holds_at(a + b + c + d + e + f + g + h + i + j, a.len() as int, b),
        holds_at(a + b + c + d + e + f + g + h + i + j, (a + b).len() as int, c),
        holds_at(a + b + c + d + e + f + g + h + i + j, (a + b + c).len() as int, d),
        holds_at(a + b + c + d + e + f + g + h + i + j, (a + b + c + d).len() as int, e),
        holds_at(a + b + c + d + e + f + g + h + i + j, (a + b + c + d + e).len() as int, f),
        holds_at(a + b + c + d + e + f + g + h + i + j, (a + b + c + d + e + f).len() as int, g),
        holds_at(a + b + c + d + e + f + g + h + i + j, (a + b + c + d + e + f + g).len() as int, h),
        holds_at(a + b + c + d + e + f + g + h + i + j, (a + b + c + d + e + f + g + h).len() as int, i),
        holds_at(a + b + c + d + e + f + g + h + i + j, (a + b + c + d + e + f + g + h + i).len() as int, j),
{
    let s = a + b + c + d + e + f + g + h + i + j;
    lemma_holds_whole(s);
    lemma_holds_split(s, 0, a + b + c + d + e + f + g + h + i, j);
    lemma_holds_split(s, 0, a + b + c + d + e + f + g + h, i);
    lemma_holds_split(s, 0, a + b + c + d + e + f + g, h);
    lemma_holds_split(s, 0, a + b + c + d + e + f, g);
    lemma_holds_split(s, 0, a + b + c + d + e, f);
    lemma_holds_split(s, 0, a + b + c + d, e);
    lemma_holds_split(s, 0, a + b + c, d);
    lemma_holds_split(s, 0, a + b, c);
    lemma_holds_split(s, 0, a, b);
}

/// Where nine parts one after the other stand.
pub proof fn lemma_nine_parts(
    a: Seq<u8>,
    b: Seq<u8>,
    c: Seq<u8>,
    d: Seq<u8>,
    e: Seq<u8>,
    f: Seq<u8>,
    g: Seq<u8>,
    h: Seq<u8>,
    i: Seq<u8>,
)
    ensures
        holds_at(a + b + c + d + e + f + g + h + i, 0, a),
        holds_at(a + b + c + d + e + f + g + h + i, a.len() as int, b),
        holds_at(a + b + c + d + e + f + g + h + i, (a + b).len() as int, c),
        holds_at(a + b + c + d + e + f + g + h + i, (a + b + c).len() as int, d),
        holds_at(a + b + c + d + e + f + g + h + i, (a + b + c + d).len() as int, e),
        holds_at(a + b + c + d + e + f + g + h + i, (a + b + c + d + e).len() as int, f),
        holds_at(a + b + c + d + e + f + g + h + i, (a + b + c + d + e + f).len() as int, g),
        holds_at(a + b + c + d + e + f + g + h + i, (a + b + c + d + e + f + g).len() as int, h),
        holds_at(a + b + c + d + e + f + g + h + i, (a + b + c + d + e + f + g + h).len() as int, i),
{
    let s = a + b + c + d + e + f + g + h + i;
    lemma_holds_whole(s);
    lemma_holds_split(s, 0, a + b + c + d + e + f + g + h, i);
    lemma_holds_split(s, 0, a + b + c + d + e + f + g, h);
    lemma_holds_split(s, 0, a + b + c + d + e + f, g);
    lemma_holds_split(s, 0, a + b + c + d + e, f);
    lemma_holds_split(s, 0, a + b + c + d, e);
    lemma_holds_split(s, 0, a + b + c, d);
    lemma_holds_split(s, 0, a + b, c);
    lemma_holds_split(s, 0, a, b);
}

/// A number reads the same in a run and where that run stands.
pub proof fn lemma_read16_within(s: Seq<u8>, at: int, x: Seq<u8>, k: int)
    requires
        holds_at(s, at, x),
        0 <= k,
        k + 2 <= x.len(),
    ensures
        be16_at(s, at + k) == be16_at(x, k),
{
    let t = s.subrange(at, at + x.len());
    assert(t[k] == s[at + k] && t[k + 1] == s[at + k + 1]);
}

/// A number reads the same in a run and where that run stands.
pub proof fn lemma_read24_within(s: Seq<u8>, at: int, x: Seq<u8>, k: int)
    requires
        holds_at(s, at, x),
        0 <= k,
        k + 3 <= x.len(),
    ensures
        be24_at(s, at + k) == be24_at(x, k),
{
    let t = s.subrange(at, at + x.len());
    assert(t[k] == s[at + k] && t[k + 1] == s[at + k + 1] && t[k + 2] == s[at + k + 2]);
}

/// A number reads the same in a run and where that run stands.
pub proof fn lemma_read32_within(s: Seq<u8>, at: int, x: Seq<u8>, k: int)
    requires
        holds_at(s, at, x),
        0 <= k,
        k + 4 <= x.len(),
    ensures
        be32_at(s, at + k) == be32_at(x, k),
{
    let t = s.subrange(at, at + x.len());
    assert(t[k] == s[at + k] && t[k + 1] == s[at + k + 1] && t[k + 2] == s[at + k + 2] && t[k + 3]
        == s[at + k + 3]);
}

/// A number reads the same in a run and where that run stands.
pub proof fn lemma_read64_within(s: Seq<u8>, at: int, x: Seq<u8>, k: int)
    requires
        holds_at(s, at, x),
        0 <= k,
        k + 8 <= x.len(),
    ensures
        be64_at(s, at + k) == be64_at(x, k),
{
    lemma_read32_within(s, at, x, k);
    lemma_read32_within(s, at, x, k + 4);
}

} // verus!
