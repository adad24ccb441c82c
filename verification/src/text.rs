//! Text helpers: UTF-8 bytes to text and numbers to digits.

use vstd::prelude::*;
use vstd::string::StringExecFns;
use vstd::utf8::{
    char_is_scalar, char_u32_cast, decode_utf8, encode_scalar, encode_utf8, valid_utf8,
};

verus! {

// ---------------------------------------------------------------------
// Calls into the standard library
// ---------------------------------------------------------------------

/// What `String::from_utf8_lossy` gives for `bytes` that are malformed.
pub uninterp spec fn utf8_replaced(bytes: Seq<u8>) -> Seq<char>;

/// The text of `bytes`, with U+FFFD in place of each malformed part.
pub open spec fn lossy_text(bytes: Seq<u8>) -> Seq<char> {
    if valid_utf8(bytes) {
        decode_utf8(bytes)
    } else {
        utf8_replaced(bytes)
    }
}

/// No character of `text` is NUL.
pub open spec fn nul_free(text: Seq<char>) -> bool {
    forall|i: int| 0 <= i < text.len() ==> text[i] != '\0'
}

/// `String::from_utf8_lossy`: well-formed UTF-8 comes back as its text. For
/// malformed bytes the contract names the result and leaves unsaid which
/// part gives how many replacement characters. A run without zero bytes
/// gives a text without NUL characters.
#[verifier::external_body]
pub(crate) fn text_lossy(bytes: &[u8]) -> (r: String)
    ensures
        valid_utf8(bytes@) ==> r@ == decode_utf8(bytes@),
        !valid_utf8(bytes@) ==> r@ == utf8_replaced(bytes@),
        (forall|i: int| 0 <= i < bytes@.len() ==> bytes@[i] != 0) ==> nul_free(r@),
{
    String::from_utf8_lossy(bytes).into_owned()
}

/// `std::str::from_utf8`: the text that `bytes` encode, or nothing where
/// they are not well-formed UTF-8.
#[verifier::external_body]
pub(crate) fn text_of(bytes: &[u8]) -> (r: Option<&str>)
    ensures
        r is Some <==> valid_utf8(bytes@),
        r matches Some(s) ==> s@ == decode_utf8(bytes@),
{
    std::str::from_utf8(bytes).ok()
}

/// `String::push`: append one character.
#[verifier::external_body]
pub(crate) fn push_char(s: &mut String, c: char)
    ensures
        final(s)@ == old(s)@.push(c),
{
    s.push(c);
}

/// The UTF-8 bytes of a text without NUL characters hold no zero byte.
pub proof fn lemma_nul_free_bytes(text: Seq<char>)
    requires
        nul_free(text),
    ensures
        forall|i: int| 0 <= i < encode_utf8(text).len() ==> encode_utf8(text)[i] != 0,
    decreases text.len(),
{
    if text.len() > 0 {
        let first = text[0];
        let c = first as u32;
        char_is_scalar(first);
        assert(first != '\0');
        assert(c != 0) by {
            char_u32_cast(first, c);
        }
        assert(c & 0x7F != 0 || c > 0x7F) by (bit_vector)
            requires
                c != 0,
        ;
        assert(c <= 0x7F ==> ((c & 0x7F) as u8) != 0) by (bit_vector)
            requires
                c != 0,
        ;
        assert(0xC0 | ((c >> 6) & 0x1F) as u8 != 0) by (bit_vector);
        assert(0xE0 | ((c >> 12) & 0x0F) as u8 != 0) by (bit_vector);
        assert(0xF0 | ((c >> 18) & 0x7) as u8 != 0) by (bit_vector);
        assert(0x80 | (c & 0x3F) as u8 != 0) by (bit_vector);
        assert(0x80 | ((c >> 6) & 0x3F) as u8 != 0) by (bit_vector);
        assert(0x80 | ((c >> 12) & 0x3F) as u8 != 0) by (bit_vector);
        let rest = text.drop_first();
        lemma_nul_free_bytes(rest);
        assert(encode_utf8(text) == encode_scalar(c) + encode_utf8(rest));
    }
}

/// A text whose UTF-8 bytes hold no zero byte has no NUL characters.
pub proof fn lemma_nul_free_text(text: Seq<char>)
    requires
        forall|i: int| 0 <= i < encode_utf8(text).len() ==> encode_utf8(text)[i] != 0,
    ensures
        nul_free(text),
    decreases text.len(),
{
    if text.len() > 0 {
        let first = text[0];
        let c = first as u32;
        let rest = text.drop_first();
        let head = encode_scalar(c);
        char_is_scalar(first);
        assert(encode_utf8(text) == head + encode_utf8(rest));
        assert forall|i: int| 0 <= i < encode_utf8(rest).len() implies encode_utf8(rest)[i] != 0 by {
            assert(encode_utf8(text)[head.len() + i] == encode_utf8(rest)[i]);
        }
        lemma_nul_free_text(rest);
        assert(first != '\0') by {
            if first == '\0' {
                assert(c == 0) by {
                    char_u32_cast(first, c);
                }
                assert(((0u32 & 0x7F) as u8) == 0) by (bit_vector);
                assert(head =~= seq![0u8]);
                assert(encode_utf8(text)[0] == head[0]);
            }
        }
        assert forall|i: int| 0 <= i < text.len() implies text[i] != '\0' by {
            if i > 0 {
                assert(text[i] == rest[i - 1]);
            }
        }
    }
}

/// Whether a text holds a NUL character.
pub fn has_nul(text: &String) -> (r: bool)
    ensures
        r == !nul_free(text@),
{
    let bytes: &[u8] = text.as_str().as_bytes();
    let mut i: usize = 0;
    while i < bytes.len()
        invariant
            i <= bytes.len(),
            bytes@ == encode_utf8(text@),
            forall|k: int| 0 <= k < i ==> bytes@[k] != 0,
        decreases bytes.len() - i,
    {
        if bytes[i] == 0 {
            proof {
                if nul_free(text@) {
                    lemma_nul_free_bytes(text@);
                }
            }
            return true;
        }
        i = i + 1;
    }
    proof {
        lemma_nul_free_text(text@);
    }
    false
}

// ---------------------------------------------------------------------
// Numbers
// ---------------------------------------------------------------------

/// The digit for `d`, in lower case above nine.
pub open spec fn digit(d: nat) -> char {
    if d < 10 {
        (48 + d) as char
    } else {
        (87 + d) as char
    }
}

/// `n` in decimal, without leading zeros.
pub open spec fn decimal(n: nat) -> Seq<char>
    decreases n,
{
    if n < 10 {
        seq![digit(n)]
    } else {
        decimal(n / 10).push(digit(n % 10))
    }
}

/// `n` in hexadecimal, without leading zeros.
pub open spec fn hexadecimal(n: nat) -> Seq<char>
    decreases n,
{
    if n < 16 {
        seq![digit(n)]
    } else {
        hexadecimal(n / 16).push(digit(n % 16))
    }
}

/// The digit for `d`.
fn digit_char(d: u8) -> (c: char)
    requires
        d < 16,
    ensures
        c == digit(d as nat),
{
    let c: u8 = if d < 10 {
        48 + d
    } else {
        87 + d
    };
    c as char
}

/// Append `n` in decimal.
pub fn push_decimal(s: &mut String, n: u64)
    ensures
        final(s)@ == old(s)@ + decimal(n as nat),
    decreases n,
{
    if n >= 10 {
        push_decimal(s, n / 10);
    }
    push_char(s, digit_char((n % 10) as u8));
    assert(s@ =~= old(s)@ + decimal(n as nat));
}

/// Append `n` in hexadecimal.
pub fn push_hexadecimal(s: &mut String, n: u64)
    ensures
        final(s)@ == old(s)@ + hexadecimal(n as nat),
    decreases n,
{
    if n >= 16 {
        push_hexadecimal(s, n / 16);
    }
    push_char(s, digit_char((n % 16) as u8));
    assert(s@ =~= old(s)@ + hexadecimal(n as nat));
}

/// Append a text.
pub fn push_text(s: &mut String, t: &str)
    ensures
        final(s)@ == old(s)@ + t@,
{
    s.append(t);
}

/// A message with a number.
pub fn counted(before: &str, n: u64, end: &str) -> (r: String)
    ensures
        r@ == before@ + decimal(n as nat) + end@,
{
    let mut s: String = String::new();
    push_text(&mut s, before);
    push_decimal(&mut s, n);
    push_text(&mut s, end);
    assert(s@ =~= before@ + decimal(n as nat) + end@);
    s
}

/// A plain message.
pub fn plain(text: &str) -> (r: String)
    ensures
        r@ == text@,
{
    let mut s: String = String::new();
    push_text(&mut s, text);
    assert(s@ =~= text@);
    s
}

/// The number that decimal digits stand for.
pub open spec fn value_of(digits: Seq<char>, base: int) -> int
    decreases digits.len(),
{
    if digits.len() == 0 {
        0
    } else {
        let c = digits.last() as int;
        value_of(digits.drop_last(), base) * base + if c >= 97 {
            c - 87
        } else {
            c - 48
        }
    }
}

/// Digits stand for the number that they were written for.
pub proof fn law_digits_read_back(n: nat)
    ensures
        value_of(decimal(n), 10) == n,
        value_of(hexadecimal(n), 16) == n,
{
    lemma_decimal_reads_back(n);
    lemma_hexadecimal_reads_back(n);
}

proof fn lemma_decimal_reads_back(n: nat)
    ensures
        value_of(decimal(n), 10) == n,
    decreases n,
{
    reveal_with_fuel(value_of, 2);
    if n >= 10 {
        lemma_decimal_reads_back(n / 10);
        assert(decimal(n).drop_last() =~= decimal(n / 10));
    } else {
        assert(decimal(n).drop_last() =~= Seq::<char>::empty());
    }
}

proof fn lemma_hexadecimal_reads_back(n: nat)
    ensures
        value_of(hexadecimal(n), 16) == n,
    decreases n,
{
    reveal_with_fuel(value_of, 2);
    if n >= 16 {
        lemma_hexadecimal_reads_back(n / 16);
        assert(hexadecimal(n).drop_last() =~= hexadecimal(n / 16));
    } else {
        assert(hexadecimal(n).drop_last() =~= Seq::<char>::empty());
    }
}

} // verus!
