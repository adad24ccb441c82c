//! Damage to a file, as a recipe says: bits are turned over, the end is cut
//! off, and fields behind a box type are overwritten.

use crate::boxes::{
    CO64, CTTS, ELST, IINF, ILOC, IPMA, IREF, MDAT, MDHD, MEHD, MFRO, MOOF, MVHD, SAIO, SAIZ, SENC,
    SIDX, STCO, STSC, STSD, STSS, STSZ, STTS, STZ2, TFDT, TFHD, TFRA, TKHD, TREX, TRUN,
};
use crate::recipe::{byte_of, lemma_past_past, past, word32_of, Recipe};
use vstd::prelude::*;

verus! {

/// How many box types can be aimed at.
pub const TARGETS: u8 = 30;

/// The box types that can be aimed at.
pub open spec fn target_of(k: u8) -> [u8; 4] {
    match k {
        0 => STTS,
        1 => STSC,
        2 => STSZ,
        3 => STZ2,
        4 => STCO,
        5 => CO64,
        6 => STSS,
        7 => CTTS,
        8 => TRUN,
        9 => TFHD,
        10 => TFDT,
        11 => TREX,
        12 => MEHD,
        13 => ELST,
        14 => ILOC,
        15 => IREF,
        16 => IPMA,
        17 => IINF,
        18 => SENC,
        19 => SAIZ,
        20 => SAIO,
        21 => SIDX,
        22 => TFRA,
        23 => MFRO,
        24 => MDAT,
        25 => STSD,
        26 => MVHD,
        27 => TKHD,
        28 => MDHD,
        _ => MOOF,
    }
}

/// A byte with bits turned over, one where none is asked for.
pub open spec fn flipped(b: u8, by: u8) -> u8 {
    b ^ if by == 0 {
        1u8
    } else {
        by
    }
}

/// The four bytes from `k` on are a box type.
pub open spec fn stands_at(file: Seq<u8>, code: [u8; 4], k: int) -> bool {
    file[k] == code[0] && file[k + 1] == code[1] && file[k + 2] == code[2] && file[k + 3] == code[3]
}

/// Where a box type stands among the first `n` positions, in order.
pub open spec fn places(file: Seq<u8>, code: [u8; 4], n: nat) -> Seq<usize>
    decreases n,
{
    if n == 0 {
        Seq::empty()
    } else {
        let before = places(file, code, (n - 1) as nat);
        if stands_at(file, code, n - 1) {
            before.push((n - 1) as usize)
        } else {
            before
        }
    }
}

/// How many positions are searched for a box type: those with a byte behind
/// it.
pub open spec fn searched(len: nat) -> nat {
    if len < 4 {
        0
    } else {
        (len - 4) as nat
    }
}

/// A position `n` further on, within `len`.
pub open spec fn moved(at: int, n: int, len: nat) -> int {
    if at + n > len {
        len as int
    } else {
        at + n
    }
}

/// A file whose bytes from `start` to `end` are the next ones of a recipe.
pub open spec fn filled(file: Seq<u8>, start: int, end: int, s: Seq<u8>) -> Seq<u8> {
    Seq::new(
        file.len(),
        |i: int|
            if start <= i < end {
                byte_of(past(s, (i - start) as nat))
            } else {
                file[i]
            },
    )
}

/// What one operation leaves: the file, the rest of the recipe, and whether
/// another operation may follow.
#[verifier::ext_equal]
pub struct Damage {
    pub file: Seq<u8>,
    pub rest: Seq<u8>,
    pub more: bool,
}

/// Bits of one byte are turned over.
pub open spec fn flip_of(file: Seq<u8>, s: Seq<u8>) -> Damage {
    let at = word32_of(s) as int % file.len() as int;
    Damage {
        file: file.update(at, flipped(file[at], byte_of(past(s, 4)))),
        rest: past(s, 5),
        more: true,
    }
}

/// The end is cut off, which is the last operation.
pub open spec fn cut_of(file: Seq<u8>, s: Seq<u8>) -> Damage {
    Damage {
        file: file.take(word32_of(s) as int % (file.len() as int + 1)),
        rest: past(s, 4),
        more: false,
    }
}

/// Bytes behind a box type are overwritten, if the file holds it.
pub open spec fn aimed_of(file: Seq<u8>, s: Seq<u8>) -> Damage {
    let found = places(file, target_of(byte_of(s) % TARGETS), searched(file.len()));
    if found.len() == 0 {
        Damage { file, rest: past(s, 1), more: true }
    } else {
        let at = found[byte_of(past(s, 1)) as int % found.len() as int];
        let start = moved(at as int, 4 + 4 * (byte_of(past(s, 2)) % 4), file.len());
        let end = moved(start, 4 + byte_of(past(s, 3)) % 13, file.len());
        Damage {
            file: filled(file, start, end, past(s, 4)),
            rest: past(s, (4 + end - start) as nat),
            more: true,
        }
    }
}

/// One operation. Where nothing is aimed at, bits are turned over instead.
pub open spec fn damage_of(file: Seq<u8>, s: Seq<u8>, aimed: bool) -> Damage {
    let op = byte_of(s) % 4;
    if op == 2 {
        cut_of(file, past(s, 1))
    } else if op == 3 && aimed {
        aimed_of(file, past(s, 1))
    } else {
        flip_of(file, past(s, 1))
    }
}

/// Up to `n` operations, as long as there is a file.
pub open spec fn damaged(file: Seq<u8>, s: Seq<u8>, aimed: bool, n: nat) -> Seq<u8>
    decreases n,
{
    if n == 0 || file.len() == 0 {
        file
    } else {
        let d = damage_of(file, s, aimed);
        if d.more {
            damaged(d.file, d.rest, aimed, (n - 1) as nat)
        } else {
            d.file
        }
    }
}

/// A file after the one to eight operations of a recipe.
pub open spec fn mutant_of(file: Seq<u8>, s: Seq<u8>, aimed: bool) -> Seq<u8> {
    damaged(file, past(s, 1), aimed, (1 + byte_of(s) % 8) as nat)
}

/// The box types that can be aimed at.
fn find_target(k: u8) -> (r: [u8; 4])
    ensures
        r == target_of(k),
{
    match k {
        0 => STTS,
        1 => STSC,
        2 => STSZ,
        3 => STZ2,
        4 => STCO,
        5 => CO64,
        6 => STSS,
        7 => CTTS,
        8 => TRUN,
        9 => TFHD,
        10 => TFDT,
        11 => TREX,
        12 => MEHD,
        13 => ELST,
        14 => ILOC,
        15 => IREF,
        16 => IPMA,
        17 => IINF,
        18 => SENC,
        19 => SAIZ,
        20 => SAIO,
        21 => SIDX,
        22 => TFRA,
        23 => MFRO,
        24 => MDAT,
        25 => STSD,
        26 => MVHD,
        27 => TKHD,
        28 => MDHD,
        _ => MOOF,
    }
}

/// Where a box type stands.
fn find_places(file: &Vec<u8>, code: &[u8; 4]) -> (r: Vec<usize>)
    ensures
        r@ == places(file@, *code, searched(file@.len())),
        forall|i: int| 0 <= i < r@.len() ==> #[trigger] r@[i] < file@.len(),
{
    let mut found: Vec<usize> = Vec::new();
    let n: usize = if file.len() < 4 {
        0
    } else {
        file.len() - 4
    };
    let mut k: usize = 0;
    while k < n
        invariant
            k <= n,
            n == searched(file@.len()),
            n > 0 ==> n + 4 == file.len(),
            found@ == places(file@, *code, k as nat),
            forall|i: int| 0 <= i < found@.len() ==> #[trigger] found@[i] < file@.len(),
        decreases n - k,
    {
        if file[k] == code[0] && file[k + 1] == code[1] && file[k + 2] == code[2] && file[k + 3]
            == code[3] {
            found.push(k);
        }
        k = k + 1;
    }
    found
}

/// A position `n` further on, within `len`.
fn move_on(at: usize, n: usize, len: usize) -> (r: usize)
    requires
        at <= len,
    ensures
        r == moved(at as int, n as int, len as nat),
{
    if n > len - at {
        len
    } else {
        at + n
    }
}

/// Turn over bits of one byte.
fn flip(file: &mut Vec<u8>, ops: &mut Recipe)
    requires
        old(file)@.len() > 0,
    ensures
        (Damage { file: final(file)@, rest: final(ops)@, more: true }) == flip_of(
            old(file)@,
            old(ops)@,
        ),
{
    let ghost s = ops@;
    let at: usize = ops.u32() as usize % file.len();
    let by: u8 = ops.u8();
    let b: u8 = file[at] ^ if by == 0 {
        1u8
    } else {
        by
    };
    file.set(at, b);
    proof {
        lemma_past_past(s, 4, 1);
    }
}

/// Overwrite bytes behind a box type.
fn aim(file: &mut Vec<u8>, ops: &mut Recipe)
    ensures
        (Damage { file: final(file)@, rest: final(ops)@, more: true }) == aimed_of(
            old(file)@,
            old(ops)@,
        ),
{
    let ghost s = ops@;
    let ghost whole = file@;
    let code: [u8; 4] = find_target(ops.u8() % TARGETS);
    let found: Vec<usize> = find_places(file, &code);
    if found.len() == 0 {
        return ;
    }
    let at: usize = found[ops.u8() as usize % found.len()];
    let skip: usize = 4 + 4 * (ops.u8() as usize % 4);
    let start: usize = move_on(at, skip, file.len());
    let n: usize = 4 + ops.u8() as usize % 13;
    let end: usize = move_on(start, n, file.len());
    proof {
        lemma_past_past(s, 1, 1);
        lemma_past_past(s, 2, 1);
        lemma_past_past(s, 3, 1);
    }
    let ghost from = ops@;
    let mut k: usize = start;
    assert(past(from, 0) =~= from);
    assert(file@ =~= filled(whole, start as int, start as int, from));
    while k < end
        invariant
            start <= k <= end <= file@.len(),
            ops@ == past(from, (k - start) as nat),
            file@ == filled(whole, start as int, k as int, from),
        decreases end - k,
    {
        let b: u8 = ops.u8();
        proof {
            lemma_past_past(from, (k - start) as nat, 1);
        }
        file.set(k, b);
        k = k + 1;
        assert(file@ =~= filled(whole, start as int, k as int, from));
    }
    proof {
        lemma_past_past(s, 4, (end - start) as nat);
    }
}

/// Damage a file as a recipe says; `aimed` says that fields behind a box
/// type may be overwritten.
pub fn mutate(file: Vec<u8>, ops: &mut Recipe, aimed: bool) -> (r: Vec<u8>)
    requires
        file@.len() < usize::MAX,
    ensures
        r@ == mutant_of(file@, old(ops)@, aimed),
{
    let ghost whole = file@;
    let ghost s = ops@;
    let mut out: Vec<u8> = file;
    let mut left: u8 = 1 + ops.u8() % 8;
    while left > 0 && out.len() > 0
        invariant
            left <= 8,
            out@.len() < usize::MAX,
            whole == file@,
            s == old(ops)@,
            damaged(out@, ops@, aimed, left as nat) == mutant_of(whole, s, aimed),
        decreases left,
    {
        let ghost before = out@;
        let ghost from = ops@;
        let op: u8 = ops.u8() % 4;
        if op == 2 {
            let cut: usize = ops.u32() as usize % (out.len() + 1);
            out.truncate(cut);
            assert(out@ =~= before.take(cut as int));
            return out;
        }
        if op == 3 && aimed {
            aim(&mut out, ops);
        } else {
            flip(&mut out, ops);
        }
        assert(Damage { file: out@, rest: ops@, more: true } == damage_of(before, from, aimed));
        left = left - 1;
    }
    out
}

/// Damage never makes a file longer.
pub proof fn law_mutant_is_no_longer(file: Seq<u8>, s: Seq<u8>, aimed: bool)
    ensures
        mutant_of(file, s, aimed).len() <= file.len(),
{
    lemma_no_longer(file, past(s, 1), aimed, (1 + byte_of(s) % 8) as nat);
}

/// Operations never make a file longer.
proof fn lemma_no_longer(file: Seq<u8>, s: Seq<u8>, aimed: bool, n: nat)
    ensures
        damaged(file, s, aimed, n).len() <= file.len(),
    decreases n,
{
    if n > 0 && file.len() > 0 {
        let d = damage_of(file, s, aimed);
        if d.more {
            lemma_no_longer(d.file, d.rest, aimed, (n - 1) as nat);
        }
    }
}

/// To turn over bits changes one byte, and no other.
pub proof fn law_flip_changes_one_byte(file: Seq<u8>, s: Seq<u8>)
    requires
        file.len() > 0,
    ensures
        ({
            let at = word32_of(s) as int % file.len() as int;
            let after = flip_of(file, s).file;
            &&& after.len() == file.len()
            &&& after[at] != file[at]
            &&& forall|i: int| 0 <= i < file.len() && i != at ==> #[trigger] after[i] == file[i]
        }),
{
    let at = word32_of(s) as int % file.len() as int;
    let b = file[at];
    let by = byte_of(past(s, 4));
    let x = if by == 0 {
        1u8
    } else {
        by
    };
    assert(b ^ x != b) by (bit_vector)
        requires
            x != 0,
    ;
}

/// An aimed operation leaves a file without the box type as it is, and the
/// box type itself in any case.
pub proof fn law_aimed_damage_is_behind_the_type(file: Seq<u8>, s: Seq<u8>)
    ensures
        ({
            let found = places(file, target_of(byte_of(s) % TARGETS), searched(file.len()));
            let after = aimed_of(file, s).file;
            &&& after.len() == file.len()
            &&& found.len() == 0 ==> after == file
            &&& found.len() > 0 ==> {
                let at = found[byte_of(past(s, 1)) as int % found.len() as int];
                forall|i: int| 0 <= i < at + 4 && i < file.len() ==> #[trigger] after[i] == file[i]
            }
        }),
{
}

/// The places of a box type are all positions among the first `n` where it
/// stands, and no others, in order.
pub proof fn law_places(file: Seq<u8>, code: [u8; 4], n: nat)
    requires
        n <= usize::MAX,
    ensures
        forall|j: int|
            0 <= j < places(file, code, n).len() ==> {
                let k = #[trigger] places(file, code, n)[j];
                k < n && file[k as int] == code@[0] && file[k + 1] == code@[1] && file[k + 2]
                    == code@[2] && file[k + 3] == code@[3]
            },
        forall|k: int|
            0 <= k < n && #[trigger] file[k] == code@[0] && file[k + 1] == code@[1] && file[k + 2]
                == code@[2] && file[k + 3] == code@[3] ==> places(file, code, n).contains(
                k as usize,
            ),
        forall|i: int, j: int|
            0 <= i < j < places(file, code, n).len() ==> places(file, code, n)[i] < places(
                file,
                code,
                n,
            )[j],
    decreases n,
{
    if n > 0 {
        law_places(file, code, (n - 1) as nat);
        let before = places(file, code, (n - 1) as nat);
        let all = places(file, code, n);
        assert forall|j: int| 0 <= j < all.len() implies {
            let k = #[trigger] all[j];
            k < n && file[k as int] == code@[0] && file[k + 1] == code@[1] && file[k + 2]
                == code@[2] && file[k + 3] == code@[3]
        } by {
            if j < before.len() {
                assert(all[j] == before[j]);
            }
        }
        assert forall|k: int|
            0 <= k < n && #[trigger] file[k] == code@[0] && file[k + 1] == code@[1] && file[k + 2]
                == code@[2] && file[k + 3] == code@[3] implies all.contains(k as usize) by {
            if k < n - 1 {
                assert(before.contains(k as usize));
                let j = choose|j: int| 0 <= j < before.len() && before[j] == k as usize;
                assert(all[j] == k as usize);
            } else {
                assert(stands_at(file, code, k));
                assert(all[all.len() - 1] == k as usize);
            }
        }
        assert forall|i: int, j: int| 0 <= i < j < all.len() implies all[i] < all[j] by {
            assert(all[i] == before[i]);
            if j < before.len() {
                assert(all[j] == before[j]);
            } else {
                assert(before[i] < n - 1);
            }
        }
    }
}

/// What an operation does is said by the two low bits of its first byte: 2
/// cuts the file off behind as many bytes as the next four say, and ends the
/// damage; 3 is aimed, where that is allowed; all others turn over bits of
/// the byte that the next four point to.
pub proof fn law_operations(file: Seq<u8>, s: Seq<u8>, aimed: bool)
    requires
        file.len() > 0,
        s.len() >= 6,
    ensures
        ({
            let d = damage_of(file, s, aimed);
            let word = s[1] * 0x100_0000 + s[2] * 0x1_0000 + s[3] * 0x100 + s[4];
            &&& s[0] % 4 == 2 ==> {
                &&& d.file == file.subrange(0, word % (file.len() as int + 1))
                &&& !d.more
            }
            &&& s[0] % 4 != 2 ==> d.more && d.file.len() == file.len()
            &&& s[0] % 4 < 2 || (s[0] % 4 == 3 && !aimed) ==> {
                let at = word % file.len() as int;
                &&& d.file[at] == file[at] ^ if s[5] == 0 {
                    1u8
                } else {
                    s[5]
                }
                &&& forall|i: int| 0 <= i < file.len() && i != at ==> #[trigger] d.file[i] == file[i]
                &&& d.rest == s.skip(6)
            }
        }),
{
    lemma_past_past(s, 1, 1);
    lemma_past_past(s, 1, 2);
    lemma_past_past(s, 1, 4);
    lemma_past_past(s, 1, 5);
    lemma_past_past(s, 3, 1);
    assert(word32_of(past(s, 1)) == s[1] * 0x100_0000 + s[2] * 0x1_0000 + s[3] * 0x100 + s[4]);
}

/// An aimed operation picks one of the places where its box type stands, and
/// overwrites 4 to 16 bytes, starting 4, 8, 12 or 16 bytes behind that place
/// and ending with the file at the latest, with the next bytes of the recipe.
pub proof fn law_aimed_window(file: Seq<u8>, s: Seq<u8>)
    requires
        s.len() >= 4,
        places(file, target_of(s[0] % 30), searched(file.len())).len() > 0,
    ensures
        ({
            let found = places(file, target_of(s[0] % 30), searched(file.len()));
            let at = found[s[1] as int % found.len() as int];
            let start = at + 4 + 4 * (s[2] % 4);
            let end = start + 4 + s[3] % 13;
            let after = aimed_of(file, s).file;
            &&& after.len() == file.len()
            &&& forall|i: int|
                0 <= i < file.len() ==> #[trigger] after[i] == if start <= i < end {
                    byte_of(past(s, (4 + i - start) as nat))
                } else {
                    file[i]
                }
        }),
{
    let found = places(file, target_of(s[0] % 30), searched(file.len()));
    let at = found[s[1] as int % found.len() as int];
    let start = at + 4 + 4 * (s[2] % 4);
    let after = aimed_of(file, s).file;
    assert forall|i: int| 0 <= i < file.len() && start <= i implies past(
        past(s, 4),
        (i - start) as nat,
    ) == #[trigger] past(s, (4 + i - start) as nat) by {
        lemma_past_past(s, 4, (i - start) as nat);
    }
    assert forall|i: int| 0 <= i < file.len() implies #[trigger] after[i] == if start <= i < start + 4
        + s[3] % 13 {
        byte_of(past(s, (4 + i - start) as nat))
    } else {
        file[i]
    } by {
        if start <= i {
            lemma_past_past(s, 4, (i - start) as nat);
        }
    }
}

/// The damage is one to eight operations, by the low three bits of the first
/// byte. Each starts where the one before it has left the file and the
/// recipe, and there is no other behind a cut or once the file is empty.
pub proof fn law_mutant_operations(file: Seq<u8>, s: Seq<u8>, aimed: bool, n: nat)
    requires
        s.len() > 0,
    ensures
        mutant_of(file, s, aimed) == damaged(file, s.skip(1), aimed, (1 + s[0] % 8) as nat),
        damaged(file, s, aimed, 0) == file,
        file.len() > 0 ==> {
            let d = damage_of(file, s, aimed);
            damaged(file, s, aimed, n + 1) == if d.more {
                damaged(d.file, d.rest, aimed, n)
            } else {
                d.file
            }
        },
        file.len() == 0 ==> damaged(file, s, aimed, n) == file,
{
}

/// The box types that can be aimed at, by their characters.
pub proof fn law_targets()
    ensures
        target_of(0)@ == seq![0x73u8, 0x74, 0x74, 0x73],
        target_of(1)@ == seq![0x73u8, 0x74, 0x73, 0x63],
        target_of(2)@ == seq![0x73u8, 0x74, 0x73, 0x7a],
        target_of(3)@ == seq![0x73u8, 0x74, 0x7a, 0x32],
        target_of(4)@ == seq![0x73u8, 0x74, 0x63, 0x6f],
        target_of(5)@ == seq![0x63u8, 0x6f, 0x36, 0x34],
        target_of(6)@ == seq![0x73u8, 0x74, 0x73, 0x73],
        target_of(7)@ == seq![0x63u8, 0x74, 0x74, 0x73],
        target_of(8)@ == seq![0x74u8, 0x72, 0x75, 0x6e],
        target_of(9)@ == seq![0x74u8, 0x66, 0x68, 0x64],
        target_of(10)@ == seq![0x74u8, 0x66, 0x64, 0x74],
        target_of(11)@ == seq![0x74u8, 0x72, 0x65, 0x78],
        target_of(12)@ == seq![0x6du8, 0x65, 0x68, 0x64],
        target_of(13)@ == seq![0x65u8, 0x6c, 0x73, 0x74],
        target_of(14)@ == seq![0x69u8, 0x6c, 0x6f, 0x63],
        target_of(15)@ == seq![0x69u8, 0x72, 0x65, 0x66],
        target_of(16)@ == seq![0x69u8, 0x70, 0x6d, 0x61],
        target_of(17)@ == seq![0x69u8, 0x69, 0x6e, 0x66],
        target_of(18)@ == seq![0x73u8, 0x65, 0x6e, 0x63],
        target_of(19)@ == seq![0x73u8, 0x61, 0x69, 0x7a],
        target_of(20)@ == seq![0x73u8, 0x61, 0x69, 0x6f],
        target_of(21)@ == seq![0x73u8, 0x69, 0x64, 0x78],
        target_of(22)@ == seq![0x74u8, 0x66, 0x72, 0x61],
        target_of(23)@ == seq![0x6du8, 0x66, 0x72, 0x6f],
        target_of(24)@ == seq![0x6du8, 0x64, 0x61, 0x74],
        target_of(25)@ == seq![0x73u8, 0x74, 0x73, 0x64],
        target_of(26)@ == seq![0x6du8, 0x76, 0x68, 0x64],
        target_of(27)@ == seq![0x74u8, 0x6b, 0x68, 0x64],
        target_of(28)@ == seq![0x6du8, 0x64, 0x68, 0x64],
        target_of(29)@ == seq![0x6du8, 0x6f, 0x6f, 0x66],
{
}

} // verus!
