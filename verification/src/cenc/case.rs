//! A sample and how it is protected, read from a recipe: valid by
//! construction, so that every recipe that has one has a cipher plan.

use crate::bytes::id16_at;
use crate::cenc::error::CencError;
use crate::cenc::plan::{row_len, sample_plan};
use crate::cenc::plan_laws::{
    law_sample_has_a_plan, lemma_total_nonnegative, no_empty_row, rows_total,
};
use crate::cenc::scheme::{decision_of, patterned, supply_of, CencSchemeDecision, DecisionView};
use crate::cenc::tenc::tenc_refusal;
use crate::cenc::types::{CencScheme, IvSupply, SubsampleEntry, TencBox, TencView};
use crate::recipe::{byte_of, chunk, lemma_past_past, past, resize, resized, word16_of, Recipe};
use vstd::prelude::*;

verus! {

/// A sample and how it is protected.
pub struct CipherCase {
    /// The scheme and the track defaults.
    pub decision: CencSchemeDecision,
    /// The key.
    pub key: [u8; 16],
    /// The initialization vector, unless the track has a constant one.
    pub iv: Option<Vec<u8>>,
    /// Which bytes stay clear, if that is said.
    pub subsamples: Option<Vec<SubsampleEntry>>,
    /// The sample.
    pub data: Vec<u8>,
}

/// The value of a [`CipherCase`].
#[verifier::ext_equal]
pub struct CaseView {
    pub decision: DecisionView,
    pub key: Seq<u8>,
    pub iv: Option<Seq<u8>>,
    pub subsamples: Option<Seq<SubsampleEntry>>,
    pub data: Seq<u8>,
}

impl View for CipherCase {
    type V = CaseView;

    open spec fn view(&self) -> CaseView {
        CaseView {
            decision: self.decision@,
            key: self.key@,
            iv: match self.iv {
                Some(v) => Some(v@),
                None => None,
            },
            subsamples: match self.subsamples {
                Some(v) => Some(v@),
                None => None,
            },
            data: self.data@,
        }
    }
}

/// The scheme and the defaults fit together and can be written, the
/// initialization vector is as wide as they say, and the subsamples cover
/// the sample.
pub open spec fn case_wf(c: CaseView) -> bool {
    let t = c.decision.tenc;
    &&& c.decision.scheme !is Unknown
    &&& decision_of(c.decision.scheme, t) == Ok::<DecisionView, CencError>(c.decision)
    &&& tenc_refusal(t) is None
    &&& c.key.len() == 16
    &&& match supply_of(t.is_protected, t.per_sample_iv_size) {
        IvSupply::PerSample { size } => c.iv matches Some(v) && v.len() == size,
        IvSupply::Constant => c.iv is None,
        IvSupply::Unprotected => false,
    }
    &&& 0 < c.data.len() <= 2_296
    &&& c.subsamples matches Some(rows) ==> no_empty_row(rows, 0) && rows_total(rows, 0)
        == c.data.len()
}

// ---------------------------------------------------------------------
// What a recipe says
// ---------------------------------------------------------------------

/// The scheme that a byte picks.
pub open spec fn scheme_pick(b: u8) -> CencScheme {
    match b % 4 {
        0 => CencScheme::Cenc,
        1 => CencScheme::Cbc1,
        2 => CencScheme::Cens,
        _ => CencScheme::Cbcs,
    }
}

/// The next `n` bytes of a recipe, filled up with zeros.
pub open spec fn exact(s: Seq<u8>, n: nat) -> Seq<u8> {
    resized(chunk(s, n), n, 0)
}

/// The width of an initialization vector that a byte picks.
pub open spec fn width_pick(b: u8) -> u8 {
    if b % 2 == 1 {
        16
    } else {
        8
    }
}

/// The IV width and the constant IV of a track, and what is left of `s`. A
/// constant one is for pattern schemes only.
pub open spec fn iv_fields_of(s: Seq<u8>, pattern: bool) -> (u8, Option<Seq<u8>>, Seq<u8>) {
    if pattern && byte_of(s) % 2 == 1 {
        let n = width_pick(byte_of(past(s, 1))) as nat;
        (0, Some(exact(past(s, 2), n)), past(s, 2 + n))
    } else if pattern {
        (width_pick(byte_of(past(s, 1))), None, past(s, 2))
    } else {
        (width_pick(byte_of(s)), None, past(s, 1))
    }
}

/// The track defaults, and what is left of `s`.
pub open spec fn defaults_of(s: Seq<u8>, pattern: bool) -> (TencView, Seq<u8>) {
    let (per_sample_iv_size, constant_iv, s1) = iv_fields_of(s, pattern);
    let s2 = if pattern {
        past(s1, 2)
    } else {
        s1
    };
    (
        TencView {
            version: if pattern {
                1
            } else {
                0
            },
            is_protected: 1,
            per_sample_iv_size,
            kid: exact(s2, 16),
            crypt_byte_block: if pattern {
                (1 + byte_of(s1) % 9) as u8
            } else {
                0
            },
            skip_byte_block: if pattern {
                byte_of(past(s1, 1)) % 10
            } else {
                0
            },
            constant_iv,
        },
        past(s2, 16),
    )
}

/// The first `n` subsamples without the empty ones, and what is left of `s`.
/// With `align` protected bytes come in whole blocks.
pub open spec fn rows_of(s: Seq<u8>, align: bool, n: nat) -> (Seq<SubsampleEntry>, Seq<u8>)
    decreases n,
{
    if n == 0 {
        (Seq::empty(), s)
    } else {
        let (before, rest) = rows_of(s, align, (n - 1) as nat);
        let clear = byte_of(rest) % 64;
        let drawn = word16_of(past(rest, 1)) % 512;
        let row = SubsampleEntry {
            bytes_of_clear_data: clear as u16,
            bytes_of_protected_data: if align {
                (drawn - drawn % 16) as u32
            } else {
                drawn as u32
            },
        };
        (
            if row_len(row) == 0 {
                before
            } else {
                before.push(row)
            },
            past(rest, 3),
        )
    }
}

/// A sample of `n` bytes, filled up where the recipe ends.
pub open spec fn payload(s: Seq<u8>, n: nat) -> Seq<u8> {
    resized(chunk(s, n), n, 0xA5)
}

/// The subsamples and the sample, or nothing where all subsamples are empty,
/// and what is left of `s`.
pub open spec fn sample_of(s: Seq<u8>) -> (
    Option<(Option<Seq<SubsampleEntry>>, Seq<u8>)>,
    Seq<u8>,
) {
    if byte_of(past(s, 2)) % 2 == 0 {
        let n = (1 + word16_of(s) % 2_048) as nat;
        (Some((None, payload(past(s, 3), n))), past(s, 3 + n))
    } else {
        let (rows, rest) = rows_of(
            past(s, 5),
            byte_of(past(s, 4)) % 2 == 1,
            (1 + byte_of(past(s, 3)) % 4) as nat,
        );
        if rows.len() == 0 {
            (None, rest)
        } else {
            let n = rows_total(rows, 0) as nat;
            (Some((Some(rows), payload(rest, n))), past(rest, n))
        }
    }
}

/// The case that a recipe holds, if it holds one, and what is left of it.
pub open spec fn case_of(s: Seq<u8>) -> (Option<CaseView>, Seq<u8>) {
    let scheme = scheme_pick(byte_of(s));
    let (tenc, s1) = defaults_of(past(s, 1), patterned(scheme));
    let width = tenc.per_sample_iv_size as nat;
    let (sample, rest) = sample_of(past(s1, 16 + width));
    (
        match sample {
            None => None,
            Some((subsamples, data)) => Some(
                CaseView {
                    decision: DecisionView { scheme, tenc },
                    key: exact(s1, 16),
                    iv: if width > 0 {
                        Some(exact(past(s1, 16), width))
                    } else {
                        None
                    },
                    subsamples,
                    data,
                },
            ),
        },
        rest,
    )
}

// ---------------------------------------------------------------------
// Reading
// ---------------------------------------------------------------------

/// One more subsample covers as much more.
proof fn lemma_total_push(rows: Seq<SubsampleEntry>, row: SubsampleEntry, i: int)
    requires
        0 <= i <= rows.len(),
    ensures
        rows_total(rows.push(row), i) == rows_total(rows, i) + row_len(row),
    decreases rows.len() - i,
{
    reveal_with_fuel(rows_total, 2);
    if i < rows.len() {
        lemma_total_push(rows, row, i + 1);
    }
}

/// Read sixteen bytes.
fn read_id(r: &mut Recipe) -> (id: [u8; 16])
    ensures
        id@ == exact(old(r)@, 16),
        final(r)@ == past(old(r)@, 16),
{
    let v: Vec<u8> = r.take_exact(16);
    let id: [u8; 16] = id16_at(v.as_slice(), 0);
    assert(id@ =~= v@);
    id
}

/// Read the IV width and the constant IV of a track.
fn read_iv_fields(r: &mut Recipe, pattern: bool) -> (f: (u8, Option<Vec<u8>>))
    ensures
        ({
            let (size, iv, rest) = iv_fields_of(old(r)@, pattern);
            &&& f.0 == size
            &&& match f.1 {
                Some(v) => iv == Some(v@),
                None => iv is None,
            }
            &&& final(r)@ == rest
        }),
{
    let ghost s = r@;
    proof {
        lemma_past_past(s, 1, 1);
        lemma_past_past(s, 2, 8);
        lemma_past_past(s, 2, 16);
    }
    if pattern && r.u8() % 2 == 1 {
        let n: usize = if r.u8() % 2 == 1 {
            16
        } else {
            8
        };
        return (0, Some(r.take_exact(n)));
    }
    let size: u8 = if r.u8() % 2 == 1 {
        16
    } else {
        8
    };
    (size, None)
}

/// Read the track defaults.
fn read_defaults(r: &mut Recipe, pattern: bool) -> (t: TencBox)
    ensures
        (t@, final(r)@) == defaults_of(old(r)@, pattern),
{
    let (size, constant_iv): (u8, Option<Vec<u8>>) = read_iv_fields(r, pattern);
    let ghost s1 = r@;
    let mut crypt: u8 = 0;
    let mut skip: u8 = 0;
    if pattern {
        crypt = 1 + r.u8() % 9;
        skip = r.u8() % 10;
        proof {
            lemma_past_past(s1, 1, 1);
        }
    }
    let kid: [u8; 16] = read_id(r);
    let t: TencBox = TencBox {
        version: if pattern {
            1
        } else {
            0
        },
        default_is_protected: 1,
        default_per_sample_iv_size: size,
        default_kid: kid,
        default_crypt_byte_block: crypt,
        default_skip_byte_block: skip,
        default_constant_iv: constant_iv,
    };
    assert(t@ =~= defaults_of(old(r)@, pattern).0);
    t
}

/// Read subsamples, and say how many bytes they cover.
fn read_rows(r: &mut Recipe, align: bool, n: u8) -> (f: (Vec<SubsampleEntry>, usize))
    requires
        n <= 4,
    ensures
        (f.0@, final(r)@) == rows_of(old(r)@, align, n as nat),
        f.1 == rows_total(f.0@, 0) <= 574 * n,
        no_empty_row(f.0@, 0),
{
    let ghost s = r@;
    let mut rows: Vec<SubsampleEntry> = Vec::new();
    let mut total: usize = 0;
    let mut i: u8 = 0;
    while i < n
        invariant
            i <= n <= 4,
            (rows@, r@) == rows_of(s, align, i as nat),
            total == rows_total(rows@, 0) <= 574 * i,
            no_empty_row(rows@, 0),
        decreases n - i,
    {
        let ghost rest = r@;
        let ghost before = rows@;
        let clear: u16 = (r.u8() % 64) as u16;
        let drawn: u16 = r.u16() % 512;
        proof {
            lemma_past_past(rest, 1, 2);
        }
        let protected: u32 = if align {
            (drawn - drawn % 16) as u32
        } else {
            drawn as u32
        };
        if clear != 0 || protected != 0 {
            let row: SubsampleEntry = SubsampleEntry {
                bytes_of_clear_data: clear,
                bytes_of_protected_data: protected,
            };
            rows.push(row);
            total = total + clear as usize + protected as usize;
            proof {
                lemma_total_push(before, row, 0);
            }
        }
        i = i + 1;
    }
    (rows, total)
}

impl CipherCase {
    /// The case that a recipe holds, if it holds one.
    pub fn decode(r: &mut Recipe) -> (c: Option<CipherCase>)
        ensures
            match c {
                Some(c) => case_of(old(r)@) == (Some(c@), final(r)@) && case_wf(c@),
                None => case_of(old(r)@) == (None::<CaseView>, final(r)@),
            },
    {
        let ghost s = r@;
        let scheme: CencScheme = match r.u8() % 4 {
            0 => CencScheme::Cenc,
            1 => CencScheme::Cbc1,
            2 => CencScheme::Cens,
            _ => CencScheme::Cbcs,
        };
        let tenc: TencBox = read_defaults(r, scheme.uses_pattern_encryption());
        let width: u8 = tenc.default_per_sample_iv_size;
        let decision: CencSchemeDecision = match CencSchemeDecision::new(scheme, tenc) {
            Ok(d) => d,
            Err(_) => {
                return None;
            },
        };
        let ghost s1 = r@;
        let key: [u8; 16] = read_id(r);
        let iv: Option<Vec<u8>> = match decision.iv_supply() {
            IvSupply::PerSample { size } => Some(r.take_exact(size as usize)),
            _ => None,
        };
        proof {
            lemma_past_past(s1, 16, width as nat);
        }
        let ghost s2 = r@;
        assert(s2 =~= past(s1, (16 + width) as nat));
        let len: usize = 1 + (r.u16() % 2_048) as usize;
        let mapped: bool = r.u8() % 2 == 1;
        proof {
            lemma_past_past(s2, 2, 1);
            lemma_past_past(s2, 3, 1);
            lemma_past_past(s2, 4, 1);
        }
        if !mapped {
            let drawn: Vec<u8> = r.take(len);
            proof {
                lemma_past_past(s2, 3, len as nat);
            }
            let data: Vec<u8> = resize(drawn, len, 0xA5);
            let c: CipherCase = CipherCase { decision, key, iv, subsamples: None, data };
            assert(c@ =~= case_of(s).0->0);
            return Some(c);
        }
        let n: u8 = 1 + r.u8() % 4;
        let align: bool = r.u8() % 2 == 1;
        let (rows, total): (Vec<SubsampleEntry>, usize) = read_rows(r, align, n);
        if rows.len() == 0 {
            return None;
        }
        proof {
            assert(row_len(rows@[0]) > 0);
            lemma_total_nonnegative(rows@, 1);
        }
        let drawn: Vec<u8> = r.take(total);
        let data: Vec<u8> = resize(drawn, total, 0xA5);
        let c: CipherCase = CipherCase { decision, key, iv, subsamples: Some(rows), data };
        assert(c@ =~= case_of(s).0->0);
        Some(c)
    }
}

// ---------------------------------------------------------------------
// Laws
// ---------------------------------------------------------------------

/// What is read from a recipe can always be ciphered.
pub proof fn law_case_has_a_plan(c: CaseView)
    requires
        case_wf(c),
    ensures
        sample_plan(c.decision, c.subsamples, c.data.len() as u64) is Ok,
{
    law_sample_has_a_plan(c.decision, c.subsamples, c.data.len() as u64);
}

} // verus!
