//! A bounded reader that turns bytes into decisions. Reads past the end
//! give zeros, so every prefix of an input is a complete recipe.

use crate::bytes::{be16_at, be32_at, be64_at, copy_range};
use vstd::prelude::*;

verus! {

/// The byte that comes next, 0 at the end.
pub open spec fn byte_of(s: Seq<u8>) -> u8 {
    if s.len() > 0 {
        s[0]
    } else {
        0
    }
}

/// What is left behind `n` bytes.
pub open spec fn past(s: Seq<u8>, n: nat) -> Seq<u8> {
    if n <= s.len() {
        s.skip(n as int)
    } else {
        Seq::empty()
    }
}

/// The next `n` bytes, or all where there are fewer.
pub open spec fn chunk(s: Seq<u8>, n: nat) -> Seq<u8> {
    if n <= s.len() {
        s.take(n as int)
    } else {
        s
    }
}

/// The 16-bit number that comes next.
pub open spec fn word16_of(s: Seq<u8>) -> u16 {
    (byte_of(s) * 0x100 + byte_of(past(s, 1))) as u16
}

/// The 32-bit number that comes next.
pub open spec fn word32_of(s: Seq<u8>) -> u32 {
    (word16_of(s) * 0x1_0000 + word16_of(past(s, 2))) as u32
}

/// The 64-bit number that comes next.
pub open spec fn word64_of(s: Seq<u8>) -> u64 {
    (word32_of(s) * 0x1_0000_0000 + word32_of(past(s, 4))) as u64
}

/// `s` made `n` bytes long: cut, or filled up with `fill`.
pub open spec fn resized(s: Seq<u8>, n: nat, fill: u8) -> Seq<u8> {
    Seq::new(
        n,
        |i: int|
            if i < s.len() {
                s[i]
            } else {
                fill
            },
    )
}

/// To pass over some bytes and then some more is to pass over all of them.
pub proof fn lemma_past_past(s: Seq<u8>, a: nat, b: nat)
    ensures
        past(past(s, a), b) == past(s, a + b),
{
    if a + b <= s.len() {
        assert(s.skip(a as int).skip(b as int) =~= s.skip((a + b) as int));
    }
}

/// Make a byte run `n` bytes long: cut it, or fill it up with `fill`.
pub(crate) fn resize(v: Vec<u8>, n: usize, fill: u8) -> (r: Vec<u8>)
    ensures
        r@ == resized(v@, n as nat, fill),
{
    let mut out: Vec<u8> = v;
    if out.len() > n {
        out.truncate(n);
    }
    while out.len() < n
        invariant
            out.len() <= n,
            v@.len() <= out@.len() || out@.len() == n,
            out@ =~= resized(v@, out@.len(), fill),
        decreases n - out.len(),
    {
        out.push(fill);
    }
    out
}

/// Reads an input from the front to the end, and zeros from there on.
pub struct Recipe<'a> {
    data: &'a [u8],
    pos: usize,
}

impl<'a> View for Recipe<'a> {
    type V = Seq<u8>;

    /// What is not read yet.
    closed spec fn view(&self) -> Seq<u8> {
        self.data@.skip(self.pos as int)
    }
}

impl<'a> Recipe<'a> {
    /// The position does not leave the input.
    #[verifier::type_invariant]
    spec fn in_bounds(self) -> bool {
        self.pos <= self.data@.len()
    }

    /// Start at the front of an input.
    pub fn new(data: &'a [u8]) -> (r: Recipe<'a>)
        ensures
            r@ == data@,
    {
        let r: Recipe<'a> = Recipe { data, pos: 0 };
        assert(r@ =~= data@);
        r
    }

    /// The next byte.
    pub fn u8(&mut self) -> (r: u8)
        ensures
            r == byte_of(old(self)@),
            final(self)@ == past(old(self)@, 1),
    {
        proof {
            use_type_invariant(&*self);
        }
        let ghost before = self@;
        if self.pos < self.data.len() {
            let b: u8 = self.data[self.pos];
            self.pos = self.pos + 1;
            assert(self@ =~= past(before, 1));
            b
        } else {
            assert(self@ =~= past(before, 1));
            0
        }
    }

    /// The next two bytes, high byte first.
    pub fn u16(&mut self) -> (r: u16)
        ensures
            r == word16_of(old(self)@),
            final(self)@ == past(old(self)@, 2),
    {
        let ghost s = self@;
        let a: u8 = self.u8();
        let b: u8 = self.u8();
        proof {
            lemma_past_past(s, 1, 1);
        }
        a as u16 * 0x100 + b as u16
    }

    /// The next four bytes, high byte first.
    pub fn u32(&mut self) -> (r: u32)
        ensures
            r == word32_of(old(self)@),
            final(self)@ == past(old(self)@, 4),
    {
        let ghost s = self@;
        let a: u16 = self.u16();
        let b: u16 = self.u16();
        proof {
            lemma_past_past(s, 2, 2);
        }
        a as u32 * 0x1_0000 + b as u32
    }

    /// The next eight bytes, high byte first.
    pub fn u64(&mut self) -> (r: u64)
        ensures
            r == word64_of(old(self)@),
            final(self)@ == past(old(self)@, 8),
    {
        let ghost s = self@;
        let a: u32 = self.u32();
        let b: u32 = self.u32();
        proof {
            lemma_past_past(s, 4, 4);
        }
        a as u64 * 0x1_0000_0000 + b as u64
    }

    /// Up to `n` bytes, fewer at the end of the input.
    pub fn take(&mut self, n: usize) -> (r: Vec<u8>)
        ensures
            r@ == chunk(old(self)@, n as nat),
            final(self)@ == past(old(self)@, n as nat),
    {
        proof {
            use_type_invariant(&*self);
        }
        let ghost before = self@;
        let left: usize = self.data.len() - self.pos;
        let end: usize = if n <= left {
            self.pos + n
        } else {
            self.data.len()
        };
        let out: Vec<u8> = copy_range(self.data, self.pos, end);
        assert(out@ =~= chunk(before, n as nat));
        self.pos = end;
        assert(self@ =~= past(before, n as nat));
        out
    }

    /// Exactly `n` bytes, filled up with zeros at the end of the input.
    pub fn take_exact(&mut self, n: usize) -> (r: Vec<u8>)
        ensures
            r@ == resized(chunk(old(self)@, n as nat), n as nat, 0),
            final(self)@ == past(old(self)@, n as nat),
    {
        let v: Vec<u8> = self.take(n);
        resize(v, n, 0)
    }

    /// What is not read yet.
    pub fn rest(&self) -> (r: &'a [u8])
        ensures
            r@ == self@,
    {
        proof {
            use_type_invariant(self);
        }
        let r: &'a [u8] = vstd::slice::slice_subrange(self.data, self.pos, self.data.len());
        assert(r@ =~= self@);
        r
    }
}

/// Zeros at the end of an input are read as if they were not there.
pub proof fn law_trailing_zero_reads_alike(s: Seq<u8>)
    ensures
        byte_of(s.push(0)) == byte_of(s),
        s.len() == 0 ==> past(s.push(0), 1) == past(s, 1),
        s.len() > 0 ==> past(s.push(0), 1) == past(s, 1).push(0),
{
    if s.len() == 0 {
        assert(past(s.push(0), 1) =~= past(s, 1));
    } else {
        assert(past(s.push(0), 1) =~= past(s, 1).push(0));
    }
}

/// Of an exact read every byte is the next of the input, or 0 past its end.
pub proof fn law_exact_read_is_padded(s: Seq<u8>, n: nat, i: int)
    requires
        0 <= i < n,
    ensures
        resized(chunk(s, n), n, 0).len() == n,
        resized(chunk(s, n), n, 0)[i] == byte_of(past(s, i as nat)),
{
}

/// Numbers are read with their most significant byte first.
pub proof fn law_words_are_big_endian(s: Seq<u8>)
    requires
        s.len() >= 8,
    ensures
        byte_of(s) == s[0],
        word16_of(s) == be16_at(s, 0),
        word32_of(s) == be32_at(s, 0),
        word64_of(s) == be64_at(s, 0),
{
    lemma_past_past(s, 2, 1);
    lemma_past_past(s, 4, 1);
    lemma_past_past(s, 4, 2);
    lemma_past_past(s, 6, 1);
}

/// What is taken and what is left are the input again, and no more is taken
/// than asked for or than there is.
pub proof fn law_take_and_rest(s: Seq<u8>, n: nat)
    ensures
        chunk(s, n) + past(s, n) == s,
        chunk(s, n).len() == if n <= s.len() {
            n
        } else {
            s.len()
        },
{
    if n <= s.len() {
        assert(s.take(n as int) + s.skip(n as int) =~= s);
    } else {
        assert(s + Seq::<u8>::empty() =~= s);
    }
}

/// The byte at `n` of an input that goes on with zeros.
pub open spec fn nth_byte(s: Seq<u8>, n: int) -> u8 {
    if 0 <= n < s.len() {
        s[n]
    } else {
        0
    }
}

/// What is left after some bytes goes on with the byte behind them.
pub proof fn law_rest_goes_on(s: Seq<u8>, a: nat, n: int)
    requires
        0 <= n,
    ensures
        byte_of(past(s, a)) == nth_byte(s, a as int),
        nth_byte(past(s, a), n) == nth_byte(s, a + n),
{
}

/// The bytes of an exact read are the next ones of the input.
pub proof fn lemma_exact_bytes(s: Seq<u8>, a: nat, n: nat, fill: u8)
    ensures
        resized(chunk(past(s, a), n), n, fill).len() == n,
        forall|i: int|
            0 <= i < n ==> #[trigger] resized(chunk(past(s, a), n), n, fill)[i] == if a + i
                < s.len() {
                s[a + i]
            } else {
                fill
            },
{
}

} // verus!
