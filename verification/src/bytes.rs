//! Big-endian integers, byte runs and the `[size][type][body]` frame that
//! every box of the format shares.

use vstd::prelude::*;
use vstd::slice::slice_to_vec;

verus! {

// ---------------------------------------------------------------------
// Models
// ---------------------------------------------------------------------

/// The two bytes of `x`, most significant first.
pub open spec fn be16(x: u16) -> Seq<u8> {
    seq![(x / 0x100) as u8, (x % 0x100) as u8]
}

/// The low three bytes of `x`, most significant first.
pub open spec fn be24(x: u32) -> Seq<u8> {
    seq![((x / 0x1_0000) % 0x100) as u8, ((x / 0x100) % 0x100) as u8, (x % 0x100) as u8]
}

/// The four bytes of `x`, most significant first.
pub open spec fn be32(x: u32) -> Seq<u8> {
    seq![
        (x / 0x100_0000) as u8,
        ((x / 0x1_0000) % 0x100) as u8,
        ((x / 0x100) % 0x100) as u8,
        (x % 0x100) as u8,
    ]
}

/// The eight bytes of `x`, most significant first.
pub open spec fn be64(x: u64) -> Seq<u8> {
    be32((x / 0x1_0000_0000) as u32) + be32((x % 0x1_0000_0000) as u32)
}

/// The unsigned value with the same bits as `x` in two's complement.
pub open spec fn bits32(x: i32) -> u32 {
    if x < 0 {
        (x + 0x1_0000_0000) as u32
    } else {
        x as u32
    }
}

/// The unsigned value with the same bits as `x` in two's complement.
pub open spec fn bits64(x: i64) -> u64 {
    if x < 0 {
        (x + 0x1_0000_0000_0000_0000) as u64
    } else {
        x as u64
    }
}

/// The 16-bit integer that starts at index `i`.
pub open spec fn be16_at(s: Seq<u8>, i: int) -> u16 {
    (s[i] * 0x100 + s[i + 1]) as u16
}

/// The 24-bit integer that starts at index `i`.
pub open spec fn be24_at(s: Seq<u8>, i: int) -> u32 {
    (s[i] * 0x1_0000 + s[i + 1] * 0x100 + s[i + 2]) as u32
}

/// The 32-bit integer that starts at index `i`.
pub open spec fn be32_at(s: Seq<u8>, i: int) -> u32 {
    (s[i] * 0x100_0000 + s[i + 1] * 0x1_0000 + s[i + 2] * 0x100 + s[i + 3]) as u32
}

/// The 64-bit integer that starts at index `i`.
pub open spec fn be64_at(s: Seq<u8>, i: int) -> u64 {
    (be32_at(s, i) * 0x1_0000_0000 + be32_at(s, i + 4)) as u64
}

/// What a 32-bit size field holds for a box of `n` bytes: the low 32 bits.
pub open spec fn size_field(n: nat) -> u32 {
    (n % 0x1_0000_0000) as u32
}

/// A box: its size, its four-character type, its body.
pub open spec fn boxed(code: [u8; 4], body: Seq<u8>) -> Seq<u8> {
    be32(size_field(8 + body.len())) + code@ + body
}

/// The size of a box with `body` when it fits the 32-bit size field.
pub open spec fn fits_box(body: Seq<u8>) -> bool {
    8 + body.len() <= 0xFFFF_FFFF
}

/// The number that a 32-bit word stands for in two's complement.
pub open spec fn signed32(x: u32) -> int {
    if x >= 0x8000_0000 {
        x - 0x1_0000_0000
    } else {
        x as int
    }
}

/// The number that a 64-bit word stands for in two's complement.
pub open spec fn signed64(x: u64) -> int {
    if x >= 0x8000_0000_0000_0000 {
        x - 0x1_0000_0000_0000_0000
    } else {
        x as int
    }
}

// ---------------------------------------------------------------------
// Facts about the models
// ---------------------------------------------------------------------

/// The word of a signed number stands for that number.
pub proof fn law_signed_words(x: i32, y: i64)
    ensures
        signed32(bits32(x)) == x,
        signed64(bits64(y)) == y,
{
}

/// Reading a 16-bit integer gives back the one that was written.
pub proof fn lemma_be16_at(s: Seq<u8>, i: int, x: u16)
    requires
        0 <= i,
        i + 2 <= s.len(),
        s.subrange(i, i + 2) == be16(x),
    ensures
        be16_at(s, i) == x,
{
    let t = s.subrange(i, i + 2);
    assert(s[i] == t[0] && s[i + 1] == t[1]);
}

/// Reading a 24-bit integer gives back the one that was written.
pub proof fn lemma_be24_at(s: Seq<u8>, i: int, x: u32)
    requires
        0 <= i,
        i + 3 <= s.len(),
        x <= 0xFF_FFFF,
        s.subrange(i, i + 3) == be24(x),
    ensures
        be24_at(s, i) == x,
{
    let t = s.subrange(i, i + 3);
    assert(s[i] == t[0] && s[i + 1] == t[1] && s[i + 2] == t[2]);
}

/// Reading a 32-bit integer gives back the one that was written.
pub proof fn lemma_be32_at(s: Seq<u8>, i: int, x: u32)
    requires
        0 <= i,
        i + 4 <= s.len(),
        s.subrange(i, i + 4) == be32(x),
    ensures
        be32_at(s, i) == x,
{
    let t = s.subrange(i, i + 4);
    assert(s[i] == t[0] && s[i + 1] == t[1] && s[i + 2] == t[2] && s[i + 3] == t[3]);
}

/// Reading a 24-bit integer gives back the low 24 bits of the number that
/// was written.
pub proof fn lemma_be24_low(s: Seq<u8>, i: int, x: u32)
    requires
        0 <= i,
        i + 3 <= s.len(),
        s.subrange(i, i + 3) == be24(x),
    ensures
        be24_at(s, i) == x % 0x100_0000,
{
    let t = s.subrange(i, i + 3);
    assert(s[i] == t[0] && s[i + 1] == t[1] && s[i + 2] == t[2]);
}

/// Reading a 64-bit integer gives back the one that was written.
pub proof fn lemma_be64_at(s: Seq<u8>, i: int, x: u64)
    requires
        0 <= i,
        i + 8 <= s.len(),
        s.subrange(i, i + 8) == be64(x),
    ensures
        be64_at(s, i) == x,
{
    let t = s.subrange(i, i + 8);
    let hi = (x / 0x1_0000_0000) as u32;
    let lo = (x % 0x1_0000_0000) as u32;
    assert(s.subrange(i, i + 4) =~= t.subrange(0, 4));
    assert(t.subrange(0, 4) =~= be32(hi));
    assert(s.subrange(i + 4, i + 8) =~= t.subrange(4, 8));
    assert(t.subrange(4, 8) =~= be32(lo));
    lemma_be32_at(s, i, hi);
    lemma_be32_at(s, i + 4, lo);
}

/// A 16-bit integer that was read is written as it was.
pub proof fn lemma_be16_wire(s: Seq<u8>, i: int)
    requires
        0 <= i,
        i + 2 <= s.len(),
    ensures
        be16(be16_at(s, i)) == s.subrange(i, i + 2),
{
    assert(be16(be16_at(s, i)) =~= s.subrange(i, i + 2));
}

/// A 32-bit integer that was read is written as it was.
pub proof fn lemma_be32_wire(s: Seq<u8>, i: int)
    requires
        0 <= i,
        i + 4 <= s.len(),
    ensures
        be32(be32_at(s, i)) == s.subrange(i, i + 4),
{
    let a = s[i];
    let b = s[i + 1];
    let c = s[i + 2];
    let d = s[i + 3];
    let x: int = a * 0x100_0000 + b * 0x1_0000 + c * 0x100 + d;
    assert(x / 0x100_0000 == a);
    assert((x / 0x1_0000) % 0x100 == b) by {
        assert(x / 0x1_0000 == a * 0x100 + b);
    }
    assert((x / 0x100) % 0x100 == c) by {
        assert(x / 0x100 == a * 0x1_0000 + b * 0x100 + c);
    }
    assert(x % 0x100 == d);
    assert(be32(be32_at(s, i)) =~= s.subrange(i, i + 4));
}

/// A box is eight bytes longer than its body, names its type at offset
/// four and ends with the body.
pub proof fn lemma_boxed(code: [u8; 4], body: Seq<u8>)
    ensures
        boxed(code, body).len() == 8 + body.len(),
        boxed(code, body).subrange(4, 8) == code@,
        boxed(code, body).subrange(8, 8 + body.len() as int) == body,
        be32_at(boxed(code, body), 0) == size_field(8 + body.len()),
        fits_box(body) ==> be32_at(boxed(code, body), 0) == boxed(code, body).len(),
{
    let b = boxed(code, body);
    assert(b.subrange(4, 8) =~= code@);
    assert(b.subrange(8, 8 + body.len() as int) =~= body);
    assert(b.subrange(0, 4) =~= be32(size_field(8 + body.len())));
    lemma_be32_at(b, 0, size_field(8 + body.len()));
}

// ---------------------------------------------------------------------
// Writing
// ---------------------------------------------------------------------

/// Append a byte run.
pub fn put_bytes(out: &mut Vec<u8>, b: &[u8])
    ensures
        final(out)@ == old(out)@ + b@,
{
    out.extend_from_slice(b);
    assert(out@ =~= old(out)@ + b@);
}

/// Append one byte.
pub fn put_u8(out: &mut Vec<u8>, x: u8)
    ensures
        final(out)@ == old(out)@ + seq![x],
{
    out.push(x);
    assert(out@ =~= old(out)@ + seq![x]);
}

/// Append a 16-bit integer.
pub fn put_u16(out: &mut Vec<u8>, x: u16)
    ensures
        final(out)@ == old(out)@ + be16(x),
{
    out.push((x / 0x100) as u8);
    out.push((x % 0x100) as u8);
    assert(out@ =~= old(out)@ + be16(x));
}

/// Append the low 24 bits of `x`.
pub fn put_u24(out: &mut Vec<u8>, x: u32)
    ensures
        final(out)@ == old(out)@ + be24(x),
{
    out.push(((x / 0x1_0000) % 0x100) as u8);
    out.push(((x / 0x100) % 0x100) as u8);
    out.push((x % 0x100) as u8);
    assert(out@ =~= old(out)@ + be24(x));
}

/// Append a 32-bit integer.
pub fn put_u32(out: &mut Vec<u8>, x: u32)
    ensures
        final(out)@ == old(out)@ + be32(x),
{
    out.push((x / 0x100_0000) as u8);
    out.push(((x / 0x1_0000) % 0x100) as u8);
    out.push(((x / 0x100) % 0x100) as u8);
    out.push((x % 0x100) as u8);
    assert(out@ =~= old(out)@ + be32(x));
}

/// Append a 64-bit integer.
pub fn put_u64(out: &mut Vec<u8>, x: u64)
    ensures
        final(out)@ == old(out)@ + be64(x),
{
    put_u32(out, (x / 0x1_0000_0000) as u32);
    put_u32(out, (x % 0x1_0000_0000) as u32);
    assert(out@ =~= old(out)@ + be64(x));
}

/// Append a signed 32-bit integer in two's complement.
pub fn put_i32(out: &mut Vec<u8>, x: i32)
    ensures
        final(out)@ == old(out)@ + be32(bits32(x)),
{
    let wide: i64 = x as i64;
    let bits: u32 = if wide < 0 {
        (wide + 0x1_0000_0000) as u32
    } else {
        wide as u32
    };
    put_u32(out, bits);
}

/// Append a signed 64-bit integer in two's complement.
pub fn put_i64(out: &mut Vec<u8>, x: i64)
    ensures
        final(out)@ == old(out)@ + be64(bits64(x)),
{
    let wide: i128 = x as i128;
    let bits: u64 = if wide < 0 {
        (wide + 0x1_0000_0000_0000_0000) as u64
    } else {
        wide as u64
    };
    put_u64(out, bits);
}

/// The low 32 bits of a length.
pub fn low32(n: usize) -> (r: u32)
    ensures
        r == size_field(n as nat),
{
    ((n as u64) % 0x1_0000_0000) as u32
}

/// Put `body` into a box of type `code`, with the 32-bit size form.
pub fn wrap_box(code: &[u8; 4], body: &[u8]) -> (r: Vec<u8>)
    ensures
        r@ == boxed(*code, body@),
{
    let total: u32 = low32(body.len()).wrapping_add(8);
    assert(total == size_field(8 + body@.len()));
    let mut out: Vec<u8> = Vec::new();
    put_u32(&mut out, total);
    put_bytes(&mut out, code);
    put_bytes(&mut out, body);
    assert(out@ =~= boxed(*code, body@));
    out
}

// ---------------------------------------------------------------------
// Reading
// ---------------------------------------------------------------------

/// The 16-bit integer that starts at index `i`.
pub fn u16_at(s: &[u8], i: usize) -> (r: u16)
    requires
        i + 2 <= s@.len(),
    ensures
        r == be16_at(s@, i as int),
{
    (s[i] as u16) * 0x100 + (s[i + 1] as u16)
}

/// The 24-bit integer that starts at index `i`.
pub fn u24_at(s: &[u8], i: usize) -> (r: u32)
    requires
        i + 3 <= s@.len(),
    ensures
        r == be24_at(s@, i as int),
        r <= 0xFF_FFFF,
{
    (s[i] as u32) * 0x1_0000 + (s[i + 1] as u32) * 0x100 + (s[i + 2] as u32)
}

/// The 32-bit integer that starts at index `i`.
pub fn u32_at(s: &[u8], i: usize) -> (r: u32)
    requires
        i + 4 <= s@.len(),
    ensures
        r == be32_at(s@, i as int),
{
    (s[i] as u32) * 0x100_0000 + (s[i + 1] as u32) * 0x1_0000 + (s[i + 2] as u32) * 0x100 + (
    s[i + 3] as u32)
}

/// The 64-bit integer that starts at index `i`.
pub fn u64_at(s: &[u8], i: usize) -> (r: u64)
    requires
        i + 8 <= s@.len(),
    ensures
        r == be64_at(s@, i as int),
{
    assert(i + 8 <= s.len());
    (u32_at(s, i) as u64) * 0x1_0000_0000 + (u32_at(s, i + 4) as u64)
}

/// The four bytes that start at index `i`.
pub fn code_at(s: &[u8], i: usize) -> (r: [u8; 4])
    requires
        i + 4 <= s@.len(),
    ensures
        r@ == s@.subrange(i as int, i + 4),
{
    let r: [u8; 4] = [s[i], s[i + 1], s[i + 2], s[i + 3]];
    assert(r@ =~= s@.subrange(i as int, i + 4));
    r
}

/// The sixteen bytes that start at index `i`.
pub fn id16_at(s: &[u8], i: usize) -> (r: [u8; 16])
    requires
        i + 16 <= s@.len(),
    ensures
        r@ == s@.subrange(i as int, i + 16),
{
    let mut r: [u8; 16] = [0u8; 16];
    let mut k: usize = 0;
    while k < 16
        invariant
            k <= 16,
            i + 16 <= s.len(),
            forall|j: int| 0 <= j < k ==> r@[j] == s@[i + j],
        decreases 16 - k,
    {
        r[k] = s[i + k];
        k = k + 1;
    }
    assert(r@ =~= s@.subrange(i as int, i + 16));
    r
}

/// A copy of the bytes from index `i` to index `j`.
pub fn copy_range(s: &[u8], i: usize, j: usize) -> (r: Vec<u8>)
    requires
        i <= j <= s@.len(),
    ensures
        r@ == s@.subrange(i as int, j as int),
{
    slice_to_vec(&s[i..j])
}

/// Whether two four-character codes are the same.
pub fn same_code(a: &[u8; 4], b: &[u8; 4]) -> (r: bool)
    ensures
        r == (*a == *b),
        r == (a@ == b@),
{
    let r: bool = a[0] == b[0] && a[1] == b[1] && a[2] == b[2] && a[3] == b[3];
    proof {
        if r {
            assert(*a =~= *b);
        } else {
            assert(!(a@[0] == b@[0] && a@[1] == b@[1] && a@[2] == b@[2] && a@[3] == b@[3]));
        }
    }
    r
}

/// Whether two byte runs are the same.
pub fn same_bytes(a: &[u8], b: &[u8]) -> (r: bool)
    ensures
        r == (a@ == b@),
{
    if a.len() != b.len() {
        return false;
    }
    let mut k: usize = 0;
    while k < a.len()
        invariant
            k <= a.len(),
            a.len() == b.len(),
            forall|j: int| 0 <= j < k ==> a@[j] == b@[j],
        decreases a.len() - k,
    {
        if a[k] != b[k] {
            assert(a@[k as int] != b@[k as int]);
            return false;
        }
        k = k + 1;
    }
    assert(a@ =~= b@);
    true
}

} // verus!
