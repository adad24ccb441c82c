//! Whether an input looks like a file of this format.

use crate::boxes::{FREE, FTYP, MOOV, SKIP};
use crate::bytes::{code_at, same_code};
use vstd::prelude::*;

verus! {

/// `wide`: room for a longer size field.
pub const WIDE: [u8; 4] = [0x77, 0x69, 0x64, 0x65];

/// The input has the code at `p`.
pub open spec fn has_code(s: Seq<u8>, p: int, code: [u8; 4]) -> bool {
    s.subrange(p, p + 4) == code@
}

/// How sure it is that an input is of this format, up to 100: brands first,
/// brands behind a small filler box, or a movie box first.
pub open spec fn probe_score(s: Seq<u8>) -> u8 {
    if s.len() < 8 {
        0
    } else if has_code(s, 4, FTYP) {
        100
    } else if s.len() >= 16 && (has_code(s, 4, WIDE) || has_code(s, 4, FREE) || has_code(
        s,
        4,
        SKIP,
    )) && has_code(s, 12, FTYP) {
        90
    } else if has_code(s, 4, MOOV) {
        50
    } else {
        0
    }
}

/// How sure it is that an input is of this format, by how it starts.
pub fn probe(buf: &[u8]) -> (r: u8)
    ensures
        r == probe_score(buf@),
{
    if buf.len() < 8 {
        return 0;
    }
    let first: [u8; 4] = code_at(buf, 4);
    if same_code(&first, &FTYP) {
        return 100;
    }
    if buf.len() >= 16 && (same_code(&first, &WIDE) || same_code(&first, &FREE) || same_code(
        &first,
        &SKIP,
    )) {
        let second: [u8; 4] = code_at(buf, 12);
        if same_code(&second, &FTYP) {
            return 90;
        }
    }
    if same_code(&first, &MOOV) {
        return 50;
    }
    0
}

/// What comes later in the input does not change the answer.
pub proof fn law_probe_reads_sixteen_bytes(s: Seq<u8>, more: Seq<u8>)
    requires
        s.len() >= 16,
    ensures
        probe_score(s + more) == probe_score(s),
{
    let t = s + more;
    assert(t.subrange(4, 8) =~= s.subrange(4, 8));
    assert(t.subrange(12, 16) =~= s.subrange(12, 16));
}

/// An input scores 100 if and only if it starts with brands, 90 if and only
/// if it starts with a `wide`, `free` or `skip` header with brands right
/// behind it, 50 if and only if it starts with a movie box, and else 0.
pub proof fn law_probe_scores(s: Seq<u8>)
    requires
        s.len() >= 16,
    ensures
        ({
            let first = s.subrange(4, 8);
            let second = s.subrange(12, 16);
            let ftyp = seq![0x66u8, 0x74, 0x79, 0x70];
            let filler = first == seq![0x77u8, 0x69, 0x64, 0x65] || first == seq![
                0x66u8,
                0x72,
                0x65,
                0x65,
            ] || first == seq![0x73u8, 0x6b, 0x69, 0x70];
            &&& probe_score(s) == 100 <==> first == ftyp
            &&& probe_score(s) == 90 <==> filler && second == ftyp
            &&& probe_score(s) == 50 <==> first == seq![0x6du8, 0x6f, 0x6f, 0x76]
            &&& probe_score(s) == 0 || probe_score(s) == 50 || probe_score(s) == 90 || probe_score(
                s,
            ) == 100
        }),
{
    assert(FTYP@ =~= seq![0x66u8, 0x74, 0x79, 0x70]);
    assert(WIDE@ =~= seq![0x77u8, 0x69, 0x64, 0x65]);
    assert(FREE@ =~= seq![0x66u8, 0x72, 0x65, 0x65]);
    assert(SKIP@ =~= seq![0x73u8, 0x6b, 0x69, 0x70]);
    assert(MOOV@ =~= seq![0x6du8, 0x6f, 0x6f, 0x76]);
    assert(WIDE@[0] != FTYP@[0] && FREE@[1] != FTYP@[1] && SKIP@[0] != FTYP@[0] && MOOV@[0]
        != FTYP@[0] && MOOV@[0] != WIDE@[0] && MOOV@[0] != FREE@[0] && MOOV@[0] != SKIP@[0]);
}

} // verus!
