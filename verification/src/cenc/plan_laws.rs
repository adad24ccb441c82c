//! What every cipher plan has in common.

use crate::cenc::error::CencError;
use crate::cenc::plan::{
    min_of, pattern_steps, row_len, rows_plan, sample_plan, span, subsample_steps,
    whole_sample_steps, CipherStep, CipherStepKind,
};
use crate::cenc::scheme::{mode_of, patterned, supply_of, DecisionView};
use crate::cenc::types::{CencScheme, CipherMode, SubsampleEntry};
use vstd::prelude::*;

verus! {

/// The runs follow one another without a gap from `from` to `to`, and none
/// of them is empty.
pub open spec fn tiles(steps: Seq<CipherStep>, from: int, to: int) -> bool
    decreases steps.len(),
{
    if steps.len() == 0 {
        from == to
    } else {
        &&& steps[0].offset == from
        &&& steps[0].len > 0
        &&& tiles(steps.drop_first(), from + steps[0].len, to)
    }
}

/// The bytes that the runs cover in all.
pub open spec fn total_len(steps: Seq<CipherStep>) -> int
    decreases steps.len(),
{
    if steps.len() == 0 {
        0
    } else {
        steps[0].len + total_len(steps.drop_first())
    }
}

/// Some encrypted run holds byte `k`.
#[verifier::opaque]
pub open spec fn encrypted_at(steps: Seq<CipherStep>, k: int) -> bool {
    exists|i: int|
        0 <= i < steps.len() && (#[trigger] steps[i]).offset <= k < steps[i].offset + steps[i].len
            && steps[i].kind is Encrypted
}

proof fn lemma_tiles_concat(a: Seq<CipherStep>, b: Seq<CipherStep>, from: int, mid: int, to: int)
    requires
        tiles(a, from, mid),
        tiles(b, mid, to),
    ensures
        tiles(a + b, from, to),
    decreases a.len(),
{
    if a.len() == 0 {
        assert(a + b =~= b);
    } else {
        lemma_tiles_concat(a.drop_first(), b, from + a[0].len, mid, to);
        assert((a + b).drop_first() =~= a.drop_first() + b);
    }
}

proof fn lemma_span_tiles(at: int, len: int, kind: CipherStepKind, iv_restart: bool)
    requires
        0 <= at,
        0 <= len,
        at + len <= u64::MAX,
    ensures
        tiles(span(at, len, kind, iv_restart), at, at + len),
{
    let s = span(at, len, kind, iv_restart);
    reveal_with_fuel(tiles, 2);
    if len > 0 {
        assert(s.drop_first() =~= Seq::empty());
    }
}

proof fn lemma_pattern_tiles(at: int, len: int, crypt: int, skip: int, restart: bool)
    requires
        0 <= at,
        0 <= len,
        0 <= crypt,
        0 <= skip,
        at + len <= u64::MAX,
    ensures
        tiles(pattern_steps(at, len, crypt, skip, restart), at, at + len),
    decreases len,
{
    if len == 0 {
    } else if crypt == 0 {
        lemma_span_tiles(at, len, CipherStepKind::Clear, false);
    } else {
        let full = min_of(crypt, len - len % 16);
        lemma_span_tiles(at, full, CipherStepKind::Encrypted, restart);
        let head = span(at, full, CipherStepKind::Encrypted, restart);
        if full < crypt {
            lemma_span_tiles(at + full, len - full, CipherStepKind::Clear, false);
            lemma_tiles_concat(
                head,
                span(at + full, len - full, CipherStepKind::Clear, false),
                at,
                at + full,
                at + len,
            );
        } else {
            let gap = if skip > 0 {
                min_of(skip, len - crypt)
            } else {
                0
            };
            let clear = span(at + crypt, gap, CipherStepKind::Clear, false);
            lemma_span_tiles(at + crypt, gap, CipherStepKind::Clear, false);
            lemma_pattern_tiles(at + crypt + gap, len - crypt - gap, crypt, skip, false);
            lemma_tiles_concat(head, clear, at, at + crypt, at + crypt + gap);
            lemma_tiles_concat(
                head + clear,
                pattern_steps(at + crypt + gap, len - crypt - gap, crypt, skip, false),
                at,
                at + crypt + gap,
                at + len,
            );
        }
    }
}

proof fn lemma_subsample_tiles(d: DecisionView, s: SubsampleEntry, at: int)
    requires
        0 <= at,
        at + row_len(s) <= u64::MAX,
    ensures
        tiles(subsample_steps(d, s, at), at, at + row_len(s)),
{
    let clear = s.bytes_of_clear_data as int;
    let prot = s.bytes_of_protected_data as int;
    lemma_span_tiles(at, clear, CipherStepKind::Clear, false);
    let head = span(at, clear, CipherStepKind::Clear, false);
    if patterned(d.scheme) {
        let crypt = d.tenc.crypt_byte_block * 16;
        let skip = d.tenc.skip_byte_block * 16;
        lemma_pattern_tiles(at + clear, prot, crypt, skip, d.scheme is Cbcs);
        lemma_tiles_concat(
            head,
            pattern_steps(at + clear, prot, crypt, skip, d.scheme is Cbcs),
            at,
            at + clear,
            at + row_len(s),
        );
    } else {
        lemma_span_tiles(at + clear, prot, CipherStepKind::Encrypted, false);
        lemma_tiles_concat(
            head,
            span(at + clear, prot, CipherStepKind::Encrypted, false),
            at,
            at + clear,
            at + row_len(s),
        );
    }
}

proof fn lemma_rows_tile(
    d: DecisionView,
    subs: Seq<SubsampleEntry>,
    i: int,
    at: int,
    sample_len: u64,
)
    requires
        0 <= i <= subs.len(),
        0 <= at <= sample_len,
    ensures
        rows_plan(d, subs, i, at, sample_len) matches Ok(p) ==> tiles(p, at, sample_len as int),
    decreases subs.len() - i,
{
    if i < subs.len() && rows_plan(d, subs, i, at, sample_len) is Ok {
        let next = at + row_len(subs[i]);
        lemma_rows_tile(d, subs, i + 1, next, sample_len);
        lemma_subsample_tiles(d, subs[i], at);
        let rest = rows_plan(d, subs, i + 1, next, sample_len)->Ok_0;
        lemma_tiles_concat(subsample_steps(d, subs[i], at), rest, at, next, sample_len as int);
    }
}

proof fn lemma_tiles_total(steps: Seq<CipherStep>, from: int, to: int)
    requires
        tiles(steps, from, to),
    ensures
        total_len(steps) == to - from,
    decreases steps.len(),
{
    if steps.len() > 0 {
        lemma_tiles_total(steps.drop_first(), from + steps[0].len, to);
    }
}

/// A plan cuts the sample into runs that follow one another from its first
/// byte to its last, so their lengths add up to the sample's.
pub proof fn law_plan_partitions_sample(
    d: DecisionView,
    subsamples: Option<Seq<SubsampleEntry>>,
    sample_len: u64,
)
    ensures
        sample_plan(d, subsamples, sample_len) matches Ok(p) ==> {
            &&& tiles(p, 0, sample_len as int)
            &&& total_len(p) == sample_len
        },
{
    if sample_plan(d, subsamples, sample_len) is Ok {
        let p = sample_plan(d, subsamples, sample_len)->Ok_0;
        match subsamples {
            Some(subs) => {
                lemma_rows_tile(d, subs, 0, 0, sample_len);
            },
            None => {
                let len = sample_len as int;
                if mode_of(d.scheme) == Some(CipherMode::Ctr) && !patterned(d.scheme) {
                    lemma_span_tiles(0, len, CipherStepKind::Encrypted, false);
                } else {
                    let cut = len - len % 16;
                    lemma_span_tiles(0, cut, CipherStepKind::Encrypted, false);
                    lemma_span_tiles(cut, len % 16, CipherStepKind::Clear, false);
                    lemma_tiles_concat(
                        span(0, cut, CipherStepKind::Encrypted, false),
                        span(cut, len % 16, CipherStepKind::Clear, false),
                        0,
                        cut,
                        len,
                    );
                }
            },
        }
        lemma_tiles_total(p, 0, sample_len as int);
    }
}

/// In the runs of one subsample the IV starts over at the first encrypted
/// one under `cbcs`, and nowhere else.
pub open spec fn restarts_at_first_encrypted(steps: Seq<CipherStep>, cbcs: bool) -> bool {
    forall|i: int|
        0 <= i < steps.len() ==> ((#[trigger] steps[i]).iv_restart <==> cbcs
            && steps[i].kind is Encrypted && forall|j: int|
            0 <= j < i ==> (#[trigger] steps[j]).kind is Clear)
}

proof fn lemma_pattern_restart(at: int, len: int, crypt: int, skip: int, restart: bool)
    requires
        0 <= crypt,
        0 <= skip,
    ensures
        restart ==> restarts_at_first_encrypted(
            pattern_steps(at, len, crypt, skip, restart),
            true,
        ),
        !restart ==> forall|i: int|
            0 <= i < pattern_steps(at, len, crypt, skip, restart).len()
                ==> !(#[trigger] pattern_steps(at, len, crypt, skip, restart)[i]).iv_restart,
    decreases len,
{
    if len > 0 && crypt > 0 {
        let full = min_of(crypt, len - len % 16);
        if full >= crypt {
            let gap = if skip > 0 {
                min_of(skip, len - crypt)
            } else {
                0
            };
            lemma_pattern_restart(at + crypt + gap, len - crypt - gap, crypt, skip, false);
            let p = pattern_steps(at, len, crypt, skip, restart);
            let head = span(at, crypt, CipherStepKind::Encrypted, restart);
            let clear = span(at + crypt, gap, CipherStepKind::Clear, false);
            let rest = pattern_steps(at + crypt + gap, len - crypt - gap, crypt, skip, false);
            assert(p == head + clear + rest);
            assert(p[0] == head[0]);
            assert forall|i: int| 0 < i < p.len() implies !(#[trigger] p[i]).iv_restart by {
                if i < head.len() + clear.len() {
                    assert(p[i] == (head + clear)[i]);
                } else {
                    assert(p[i] == rest[i - head.len() - clear.len()]);
                }
            }
        }
    }
}

proof fn lemma_clear_before(head: Seq<CipherStep>, tail: Seq<CipherStep>, cbcs: bool)
    requires
        head.len() <= 1,
        head.len() == 1 ==> head[0].kind is Clear && !head[0].iv_restart,
        restarts_at_first_encrypted(tail, cbcs),
    ensures
        restarts_at_first_encrypted(head + tail, cbcs),
{
    let steps = head + tail;
    if head.len() == 0 {
        assert(steps =~= tail);
    } else {
        assert(steps[0] == head[0]);
        assert forall|i: int| 0 <= i < steps.len() implies ((#[trigger] steps[i]).iv_restart
            <==> cbcs && steps[i].kind is Encrypted && forall|j: int|
            0 <= j < i ==> (#[trigger] steps[j]).kind is Clear) by {
            if i > 0 {
                assert(steps[i] == tail[i - 1]);
                if forall|j: int| 0 <= j < i ==> (#[trigger] steps[j]).kind is Clear {
                    assert forall|j: int| 0 <= j < i - 1 implies (#[trigger] tail[j]).kind
                        is Clear by {
                        assert(steps[j + 1] == tail[j]);
                    }
                }
                if forall|j: int| 0 <= j < i - 1 ==> (#[trigger] tail[j]).kind is Clear {
                    assert forall|j: int| 0 <= j < i implies (#[trigger] steps[j]).kind is Clear by {
                        if j > 0 {
                            assert(steps[j] == tail[j - 1]);
                        }
                    }
                }
            }
        }
    }
}

/// The IV starts over once per subsample, at its first encrypted run, under
/// `cbcs`; under the other schemes it never does.
pub proof fn law_iv_restart_per_subsample(d: DecisionView, s: SubsampleEntry, at: int)
    ensures
        restarts_at_first_encrypted(subsample_steps(d, s, at), d.scheme is Cbcs),
{
    let clear = s.bytes_of_clear_data as int;
    let prot = s.bytes_of_protected_data as int;
    let head = span(at, clear, CipherStepKind::Clear, false);
    if patterned(d.scheme) {
        let crypt = d.tenc.crypt_byte_block * 16;
        let skip = d.tenc.skip_byte_block * 16;
        lemma_pattern_restart(at + clear, prot, crypt, skip, d.scheme is Cbcs);
        lemma_clear_before(
            head,
            pattern_steps(at + clear, prot, crypt, skip, d.scheme is Cbcs),
            d.scheme is Cbcs,
        );
    } else {
        lemma_clear_before(
            head,
            span(at + clear, prot, CipherStepKind::Encrypted, false),
            d.scheme is Cbcs,
        );
    }
}

/// A sample without a subsample map never restarts the IV.
pub proof fn law_no_restart_without_subsamples(d: DecisionView, sample_len: u64)
    ensures
        sample_plan(d, None, sample_len) matches Ok(p) ==> forall|i: int|
            0 <= i < p.len() ==> !(#[trigger] p[i]).iv_restart,
{
}

proof fn lemma_encrypted_concat(a: Seq<CipherStep>, b: Seq<CipherStep>, k: int)
    ensures
        encrypted_at(a + b, k) <==> encrypted_at(a, k) || encrypted_at(b, k),
{
    reveal(encrypted_at);
    let c = a + b;
    if encrypted_at(a, k) {
        let i = choose|i: int|
            0 <= i < a.len() && (#[trigger] a[i]).offset <= k < a[i].offset + a[i].len
                && a[i].kind is Encrypted;
        assert(c[i] == a[i]);
    }
    if encrypted_at(b, k) {
        let i = choose|i: int|
            0 <= i < b.len() && (#[trigger] b[i]).offset <= k < b[i].offset + b[i].len
                && b[i].kind is Encrypted;
        assert(c[a.len() + i] == b[i]);
    }
    if encrypted_at(c, k) {
        let i = choose|i: int|
            0 <= i < c.len() && (#[trigger] c[i]).offset <= k < c[i].offset + c[i].len
                && c[i].kind is Encrypted;
        if i < a.len() {
            assert(c[i] == a[i]);
        } else {
            assert(c[i] == b[i - a.len()]);
        }
    }
}

proof fn lemma_encrypted_span(at: int, len: int, kind: CipherStepKind, iv_restart: bool, k: int)
    requires
        0 <= at,
        0 <= len,
        at + len <= u64::MAX,
    ensures
        encrypted_at(span(at, len, kind, iv_restart), k) <==> kind is Encrypted && at <= k < at
            + len,
{
    reveal(encrypted_at);
    let s = span(at, len, kind, iv_restart);
    if kind is Encrypted && at <= k < at + len {
        assert(s[0].offset <= k < s[0].offset + s[0].len);
    }
}

/// Byte `k` of `len` protected ones falls into the encrypted part of a
/// pattern of `crypt` and `skip` bytes, in a complete 16-byte block.
pub open spec fn in_pattern(len: int, crypt: int, skip: int, k: int) -> bool {
    k % (crypt + skip) < crypt && k - k % 16 + 16 <= len
}

proof fn lemma_in_pattern_first(len: int, crypt: int, skip: int, k: int)
    requires
        crypt > 0,
        skip >= 0,
        crypt % 16 == 0,
        0 <= k < len,
        k < crypt + skip,
    ensures
        in_pattern(len, crypt, skip, k) <==> k < min_of(crypt, len - len % 16),
{
    vstd::arithmetic::div_mod::lemma_small_mod(k as nat, (crypt + skip) as nat);
}

proof fn lemma_in_pattern_next(len: int, crypt: int, skip: int, k: int)
    requires
        crypt > 0,
        skip >= 0,
        crypt % 16 == 0,
        skip % 16 == 0,
        crypt + skip <= k < len,
    ensures
        in_pattern(len, crypt, skip, k) <==> in_pattern(
            len - crypt - skip,
            crypt,
            skip,
            k - crypt - skip,
        ),
{
    let m = crypt + skip;
    vstd::arithmetic::div_mod::lemma_mod_sub_multiples_vanish(k, m);
    assert((k - m) % m == k % m);
    assert((k - m) % 16 == k % 16);
}

/// A protected byte is encrypted by the pattern exactly where it falls into
/// the pattern's encrypted part and its 16-byte block is complete.
pub proof fn law_pattern_byte(at: int, len: int, crypt: int, skip: int, restart: bool, k: int)
    requires
        0 <= at,
        0 <= len,
        at + len <= u64::MAX,
        crypt > 0,
        skip >= 0,
        crypt % 16 == 0,
        skip % 16 == 0,
        0 <= k < len,
    ensures
        encrypted_at(pattern_steps(at, len, crypt, skip, restart), at + k) <==> in_pattern(
            len,
            crypt,
            skip,
            k,
        ),
    decreases len,
{
    let full = min_of(crypt, len - len % 16);
    let head = span(at, full, CipherStepKind::Encrypted, restart);
    lemma_encrypted_span(at, full, CipherStepKind::Encrypted, restart, at + k);
    if full < crypt {
        let tail = span(at + full, len - full, CipherStepKind::Clear, false);
        lemma_encrypted_span(at + full, len - full, CipherStepKind::Clear, false, at + k);
        lemma_encrypted_concat(head, tail, at + k);
        assert(k < crypt);
        lemma_in_pattern_first(len, crypt, skip, k);
    } else {
        let gap = if skip > 0 {
            min_of(skip, len - crypt)
        } else {
            0
        };
        let clear = span(at + crypt, gap, CipherStepKind::Clear, false);
        let next = at + crypt + gap;
        let left = len - crypt - gap;
        let rest = pattern_steps(next, left, crypt, skip, false);
        lemma_encrypted_span(at + crypt, gap, CipherStepKind::Clear, false, at + k);
        lemma_encrypted_concat(head, clear, at + k);
        lemma_encrypted_concat(head + clear, rest, at + k);
        lemma_pattern_tiles(next, left, crypt, skip, false);
        assert(pattern_steps(at, len, crypt, skip, restart) == head + clear + rest);
        if k < crypt + gap {
            lemma_before_tiles(rest, next, next + left, at + k);
            lemma_in_pattern_first(len, crypt, skip, k);
        } else {
            assert(gap == skip);
            law_pattern_byte(next, left, crypt, skip, false, k - crypt - skip);
            lemma_in_pattern_next(len, crypt, skip, k);
        }
    }
}

proof fn lemma_before_tiles(steps: Seq<CipherStep>, from: int, to: int, k: int)
    requires
        tiles(steps, from, to),
        k < from,
    ensures
        !encrypted_at(steps, k),
    decreases steps.len(),
{
    reveal(encrypted_at);
    if steps.len() > 0 {
        let rest = steps.drop_first();
        lemma_before_tiles(rest, from + steps[0].len, to, k);
        if encrypted_at(steps, k) {
            let i = choose|i: int|
                0 <= i < steps.len() && (#[trigger] steps[i]).offset <= k < steps[i].offset
                    + steps[i].len && steps[i].kind is Encrypted;
            if i > 0 {
                assert(rest[i - 1] == steps[i]);
            }
        }
    }
}

/// Without a subsample map counter mode encrypts every byte; every other
/// registered scheme encrypts exactly the complete 16-byte blocks.
pub proof fn law_whole_sample_byte(scheme: CencScheme, len: u64, k: int)
    requires
        !(scheme is Unknown),
        0 <= k < len,
    ensures
        encrypted_at(whole_sample_steps(scheme, len as int), k) <==> (scheme is Cenc || k - k % 16
            + 16 <= len),
{
    if scheme is Cenc {
        lemma_encrypted_span(0, len as int, CipherStepKind::Encrypted, false, k);
    } else {
        let cut = len - len % 16;
        lemma_encrypted_span(0, cut, CipherStepKind::Encrypted, false, k);
        lemma_encrypted_span(cut, (len % 16) as int, CipherStepKind::Clear, false, k);
        lemma_encrypted_concat(
            span(0, cut, CipherStepKind::Encrypted, false),
            span(cut, (len % 16) as int, CipherStepKind::Clear, false),
            k,
        );
    }
}

/// How many bytes the subsamples from the `i`-th on cover.
pub open spec fn rows_total(rows: Seq<SubsampleEntry>, i: int) -> int
    decreases rows.len() - i,
{
    if i < 0 || i >= rows.len() {
        0
    } else {
        row_len(rows[i]) + rows_total(rows, i + 1)
    }
}

/// None of the subsamples from the `i`-th on is empty.
pub open spec fn no_empty_row(rows: Seq<SubsampleEntry>, i: int) -> bool {
    forall|j: int| i <= j < rows.len() ==> row_len(#[trigger] rows[j]) > 0
}

/// What subsamples cover is never negative.
pub proof fn lemma_total_nonnegative(rows: Seq<SubsampleEntry>, i: int)
    ensures
        rows_total(rows, i) >= 0,
    decreases rows.len() - i,
{
    if 0 <= i < rows.len() {
        lemma_total_nonnegative(rows, i + 1);
    }
}

/// The subsamples from the `i`-th on have a plan if and only if none is
/// empty and they end with the sample.
proof fn lemma_rows_have_a_plan(
    d: DecisionView,
    rows: Seq<SubsampleEntry>,
    i: int,
    at: int,
    sample_len: u64,
)
    requires
        0 <= i <= rows.len(),
        0 <= at <= sample_len,
    ensures
        rows_plan(d, rows, i, at, sample_len) is Ok <==> no_empty_row(rows, i) && at + rows_total(
            rows,
            i,
        ) == sample_len,
    decreases rows.len() - i,
{
    if i < rows.len() {
        let next = at + row_len(rows[i]);
        lemma_total_nonnegative(rows, i + 1);
        if row_len(rows[i]) > 0 && next <= sample_len {
            lemma_rows_have_a_plan(d, rows, i + 1, next, sample_len);
            assert(no_empty_row(rows, i) <==> no_empty_row(rows, i + 1)) by {
                if no_empty_row(rows, i + 1) {
                    assert forall|j: int| i <= j < rows.len() implies row_len(#[trigger] rows[j])
                        > 0 by {}
                }
            }
        }
    }
}

/// A protected sample of a known scheme has a plan without subsamples, and
/// with them if and only if none is empty and together they cover it.
pub proof fn law_sample_has_a_plan(
    d: DecisionView,
    subsamples: Option<Seq<SubsampleEntry>>,
    sample_len: u64,
)
    requires
        supply_of(d.tenc.is_protected, d.tenc.per_sample_iv_size) !is Unprotected,
        d.scheme !is Unknown,
    ensures
        sample_plan(d, subsamples, sample_len) is Ok <==> (subsamples matches Some(rows)
            ==> no_empty_row(rows, 0) && rows_total(rows, 0) == sample_len),
{
    match subsamples {
        Some(rows) => {
            lemma_rows_have_a_plan(d, rows, 0, 0, sample_len);
        },
        None => {},
    }
}

/// Where the `n`-th subsample starts in its sample: behind the clear and the
/// protected bytes of all before it.
pub open spec fn row_start(rows: Seq<SubsampleEntry>, n: int) -> int
    decreases n,
{
    if n <= 0 {
        0
    } else {
        row_start(rows, n - 1) + rows[n - 1].bytes_of_clear_data + rows[n
            - 1].bytes_of_protected_data
    }
}

/// Whether byte `k` of `len` protected bytes goes through the cipher: every
/// one under `cenc` and `cbc1`; under `cens` and `cbcs` those in the part of
/// the pattern that is encrypted whose block of 16 bytes is complete.
pub open spec fn ciphered(d: DecisionView, len: int, k: int) -> bool {
    let crypt = 16 * d.tenc.crypt_byte_block;
    let skip = 16 * d.tenc.skip_byte_block;
    match d.scheme {
        CencScheme::Cenc | CencScheme::Cbc1 => true,
        CencScheme::Cens | CencScheme::Cbcs => crypt > 0 && k % (crypt + skip) < crypt && k - k % 16
            + 16 <= len,
        CencScheme::Unknown(_) => false,
    }
}

/// Where the runs that follow one another stand.
proof fn lemma_tiles_at(steps: Seq<CipherStep>, from: int, to: int, i: int)
    requires
        tiles(steps, from, to),
        0 <= i < steps.len(),
    ensures
        from <= steps[i].offset,
        steps[i].len > 0,
        steps[i].offset + steps[i].len <= to,
    decreases steps.len(),
{
    let rest = steps.drop_first();
    lemma_tiles_forward(rest, from + steps[0].len, to);
    if i > 0 {
        lemma_tiles_at(rest, from + steps[0].len, to, i - 1);
        assert(rest[i - 1] == steps[i]);
    }
}

/// Runs that follow one another do not go backwards.
proof fn lemma_tiles_forward(steps: Seq<CipherStep>, from: int, to: int)
    requires
        tiles(steps, from, to),
    ensures
        from <= to,
    decreases steps.len(),
{
    if steps.len() > 0 {
        lemma_tiles_forward(steps.drop_first(), from + steps[0].len, to);
    }
}

/// An earlier run ends where a later one starts, or before it.
proof fn lemma_tiles_order(steps: Seq<CipherStep>, from: int, to: int, i: int, j: int)
    requires
        tiles(steps, from, to),
        0 <= i < j < steps.len(),
    ensures
        steps[i].offset + steps[i].len <= steps[j].offset,
    decreases steps.len(),
{
    let rest = steps.drop_first();
    assert(rest[j - 1] == steps[j]);
    if i == 0 {
        lemma_tiles_at(rest, from + steps[0].len, to, j - 1);
    } else {
        lemma_tiles_order(rest, from + steps[0].len, to, i - 1, j - 1);
        assert(rest[i - 1] == steps[i]);
    }
}

/// No run reaches past where the runs end.
proof fn lemma_past_tiles(steps: Seq<CipherStep>, from: int, to: int, k: int)
    requires
        tiles(steps, from, to),
        k >= to,
    ensures
        !encrypted_at(steps, k),
{
    reveal(encrypted_at);
    assert forall|i: int| 0 <= i < steps.len() implies (#[trigger] steps[i]).offset + steps[i].len
        <= k by {
        lemma_tiles_at(steps, from, to, i);
    }
}

/// Which bytes of one subsample are encrypted.
proof fn lemma_subsample_byte(d: DecisionView, s: SubsampleEntry, at: int, k: int)
    requires
        d.scheme !is Unknown,
        0 <= at,
        at + row_len(s) <= u64::MAX,
        0 <= k < row_len(s),
    ensures
        encrypted_at(subsample_steps(d, s, at), at + k) <==> k >= s.bytes_of_clear_data
            && ciphered(d, s.bytes_of_protected_data as int, k - s.bytes_of_clear_data),
{
    let clear = s.bytes_of_clear_data as int;
    let prot = s.bytes_of_protected_data as int;
    let head = span(at, clear, CipherStepKind::Clear, false);
    lemma_encrypted_span(at, clear, CipherStepKind::Clear, false, at + k);
    if patterned(d.scheme) {
        let crypt = d.tenc.crypt_byte_block * 16;
        let skip = d.tenc.skip_byte_block * 16;
        let tail = pattern_steps(at + clear, prot, crypt, skip, d.scheme is Cbcs);
        lemma_pattern_tiles(at + clear, prot, crypt, skip, d.scheme is Cbcs);
        lemma_encrypted_concat(head, tail, at + k);
        if k < clear {
            lemma_before_tiles(tail, at + clear, at + clear + prot, at + k);
        } else if crypt == 0 {
            lemma_encrypted_span(at + clear, prot, CipherStepKind::Clear, false, at + k);
        } else {
            law_pattern_byte(at + clear, prot, crypt, skip, d.scheme is Cbcs, k - clear);
        }
    } else {
        let tail = span(at + clear, prot, CipherStepKind::Encrypted, false);
        lemma_encrypted_span(at + clear, prot, CipherStepKind::Encrypted, false, at + k);
        lemma_encrypted_concat(head, tail, at + k);
    }
}

/// A later subsample does not start before an earlier one ends.
proof fn lemma_row_start_order(rows: Seq<SubsampleEntry>, i: int, j: int)
    requires
        0 <= i <= j,
    ensures
        row_start(rows, i) <= row_start(rows, j),
    decreases j - i,
{
    if i < j {
        lemma_row_start_order(rows, i, j - 1);
    }
}

/// Which bytes of the subsamples from the `i`-th on are encrypted.
proof fn lemma_rows_byte(
    d: DecisionView,
    rows: Seq<SubsampleEntry>,
    i: int,
    sample_len: u64,
    j: int,
    k: int,
)
    requires
        d.scheme !is Unknown,
        0 <= i <= j < rows.len(),
        row_start(rows, i) <= sample_len,
        rows_plan(d, rows, i, row_start(rows, i), sample_len) is Ok,
        0 <= k < row_len(rows[j]),
    ensures
        encrypted_at(
            rows_plan(d, rows, i, row_start(rows, i), sample_len)->Ok_0,
            row_start(rows, j) + k,
        ) <==> k >= rows[j].bytes_of_clear_data && ciphered(
            d,
            rows[j].bytes_of_protected_data as int,
            k - rows[j].bytes_of_clear_data,
        ),
    decreases rows.len() - i,
{
    lemma_row_start_order(rows, 0, i);
    let at = row_start(rows, i);
    let next = row_start(rows, i + 1);
    assert(next == at + row_len(rows[i]));
    let steps = subsample_steps(d, rows[i], at);
    let rest = rows_plan(d, rows, i + 1, next, sample_len)->Ok_0;
    let b = row_start(rows, j) + k;
    lemma_subsample_tiles(d, rows[i], at);
    lemma_rows_tile(d, rows, i + 1, next, sample_len);
    lemma_encrypted_concat(steps, rest, b);
    if j == i {
        lemma_before_tiles(rest, next, sample_len as int, b);
        lemma_subsample_byte(d, rows[i], at, k);
    } else {
        lemma_row_start_order(rows, i + 1, j);
        lemma_past_tiles(steps, at, next, b);
        lemma_rows_byte(d, rows, i + 1, sample_len, j, k);
    }
}

/// In a sample with a subsample map exactly the protected parts of the
/// subsamples are encrypted. Byte `k` of the `i`-th subsample, which starts
/// behind all before it, is encrypted if and only if it is past the clear
/// bytes and, under a scheme with a pattern, falls into a complete block of
/// the pattern's encrypted part, counted from where the protected part
/// starts.
pub proof fn law_subsample_byte(
    d: DecisionView,
    rows: Seq<SubsampleEntry>,
    sample_len: u64,
    i: int,
    k: int,
)
    requires
        sample_plan(d, Some(rows), sample_len) is Ok,
        0 <= i < rows.len(),
        0 <= k < rows[i].bytes_of_clear_data + rows[i].bytes_of_protected_data,
    ensures
        encrypted_at(sample_plan(d, Some(rows), sample_len)->Ok_0, row_start(rows, i) + k) <==> (k
            >= rows[i].bytes_of_clear_data && ciphered(
            d,
            rows[i].bytes_of_protected_data as int,
            k - rows[i].bytes_of_clear_data,
        )),
{
    lemma_rows_byte(d, rows, 0, sample_len, i, k);
}

/// A sample without a subsample map is encrypted whole under `cenc`, and in
/// its complete blocks of 16 bytes under the other schemes.
pub proof fn law_unmapped_byte(d: DecisionView, sample_len: u64, k: int)
    requires
        sample_plan(d, None, sample_len) is Ok,
        0 <= k < sample_len,
    ensures
        encrypted_at(sample_plan(d, None, sample_len)->Ok_0, k) <==> (d.scheme is Cenc || k - k % 16
            + 16 <= sample_len),
{
    law_whole_sample_byte(d.scheme, sample_len, k);
}

/// A run of one subsample has only clear runs before it if and only if no
/// byte before it is encrypted.
proof fn lemma_clear_runs_before(steps: Seq<CipherStep>, from: int, to: int, idx: int)
    requires
        tiles(steps, from, to),
        0 <= idx < steps.len(),
    ensures
        (forall|j: int| 0 <= j < idx ==> (#[trigger] steps[j]).kind is Clear) <==> (forall|k: int|
            from <= k < steps[idx].offset ==> !#[trigger] encrypted_at(steps, k)),
{
    reveal(encrypted_at);
    if forall|j: int| 0 <= j < idx ==> (#[trigger] steps[j]).kind is Clear {
        assert forall|k: int| from <= k < steps[idx].offset implies !#[trigger] encrypted_at(
            steps,
            k,
        ) by {
            assert forall|j: int|
                0 <= j < steps.len() && (#[trigger] steps[j]).offset <= k < steps[j].offset
                    + steps[j].len implies !(steps[j].kind is Encrypted) by {
                if j > idx {
                    lemma_tiles_order(steps, from, to, idx, j);
                }
            }
        }
    }
    if forall|k: int| from <= k < steps[idx].offset ==> !#[trigger] encrypted_at(steps, k) {
        assert forall|j: int| 0 <= j < idx implies (#[trigger] steps[j]).kind is Clear by {
            lemma_tiles_at(steps, from, to, j);
            lemma_tiles_order(steps, from, to, j, idx);
            assert(!encrypted_at(steps, steps[j].offset as int));
        }
    }
}

/// Where the IV starts over in the subsamples from the `i`-th on.
proof fn lemma_rows_restart(
    d: DecisionView,
    rows: Seq<SubsampleEntry>,
    i: int,
    sample_len: u64,
    j: int,
    idx: int,
)
    requires
        d.scheme !is Unknown,
        0 <= i <= j < rows.len(),
        row_start(rows, i) <= sample_len,
        rows_plan(d, rows, i, row_start(rows, i), sample_len) is Ok,
        0 <= idx < rows_plan(d, rows, i, row_start(rows, i), sample_len)->Ok_0.len(),
        row_start(rows, j) <= rows_plan(
            d,
            rows,
            i,
            row_start(rows, i),
            sample_len,
        )->Ok_0[idx].offset < row_start(rows, j + 1),
    ensures
        ({
            let p = rows_plan(d, rows, i, row_start(rows, i), sample_len)->Ok_0;
            p[idx].iv_restart <==> (d.scheme is Cbcs && p[idx].kind is Encrypted && forall|k: int|
                row_start(rows, j) <= k < p[idx].offset ==> !#[trigger] encrypted_at(p, k))
        }),
    decreases rows.len() - i,
{
    lemma_row_start_order(rows, 0, i);
    let at = row_start(rows, i);
    let next = row_start(rows, i + 1);
    assert(next == at + row_len(rows[i]));
    let steps = subsample_steps(d, rows[i], at);
    let rest = rows_plan(d, rows, i + 1, next, sample_len)->Ok_0;
    let p = rows_plan(d, rows, i, at, sample_len)->Ok_0;
    assert(p == steps + rest);
    lemma_subsample_tiles(d, rows[i], at);
    lemma_rows_tile(d, rows, i + 1, next, sample_len);
    assert forall|k: int| k < next implies #[trigger] encrypted_at(p, k) == encrypted_at(
        steps,
        k,
    ) by {
        lemma_encrypted_concat(steps, rest, k);
        lemma_before_tiles(rest, next, sample_len as int, k);
    }
    assert forall|k: int| k >= next implies #[trigger] encrypted_at(p, k) == encrypted_at(
        rest,
        k,
    ) by {
        lemma_encrypted_concat(steps, rest, k);
        lemma_past_tiles(steps, at, next, k);
    }
    if j == i {
        if idx >= steps.len() {
            lemma_tiles_at(rest, next, sample_len as int, idx - steps.len());
            assert(p[idx] == rest[idx - steps.len()]);
        }
        assert(p[idx] == steps[idx]);
        law_iv_restart_per_subsample(d, rows[i], at);
        lemma_clear_runs_before(steps, at, next, idx);
        if forall|k: int| at <= k < p[idx].offset ==> !#[trigger] encrypted_at(p, k) {
            assert forall|k: int| at <= k < steps[idx].offset implies !#[trigger] encrypted_at(
                steps,
                k,
            ) by {
                assert(!encrypted_at(p, k));
            }
        }
    } else {
        lemma_row_start_order(rows, i + 1, j);
        if idx < steps.len() {
            lemma_tiles_at(steps, at, next, idx);
            assert(p[idx] == steps[idx]);
        }
        assert(p[idx] == rest[idx - steps.len()]);
        lemma_rows_restart(d, rows, i + 1, sample_len, j, idx - steps.len());
        if forall|k: int|
            row_start(rows, j) <= k < p[idx].offset ==> !#[trigger] encrypted_at(p, k) {
            assert forall|k: int| row_start(rows, j) <= k < p[idx].offset implies !#[trigger] encrypted_at(
                rest,
                k,
            ) by {
                assert(!encrypted_at(p, k));
            }
        }
    }
}

/// With a subsample map the IV starts over at a run if and only if the
/// scheme is `cbcs` and the run is the first encrypted one of its subsample:
/// no byte of that subsample before it is encrypted.
pub proof fn law_iv_restarts_in_each_subsample(
    d: DecisionView,
    rows: Seq<SubsampleEntry>,
    sample_len: u64,
    i: int,
    idx: int,
)
    requires
        sample_plan(d, Some(rows), sample_len) is Ok,
        0 <= i < rows.len(),
        0 <= idx < sample_plan(d, Some(rows), sample_len)->Ok_0.len(),
        row_start(rows, i) <= sample_plan(d, Some(rows), sample_len)->Ok_0[idx].offset < row_start(
            rows,
            i + 1,
        ),
    ensures
        ({
            let p = sample_plan(d, Some(rows), sample_len)->Ok_0;
            p[idx].iv_restart <==> (d.scheme is Cbcs && p[idx].kind is Encrypted && forall|k: int|
                row_start(rows, i) <= k < p[idx].offset ==> !#[trigger] encrypted_at(p, k))
        }),
{
    lemma_rows_restart(d, rows, 0, sample_len, i, idx);
}

/// The first `n` subsamples are not empty and end within the sample.
pub open spec fn rows_fit(rows: Seq<SubsampleEntry>, n: int, sample_len: u64) -> bool {
    forall|j: int|
        0 <= j < n ==> ((#[trigger] rows[j]).bytes_of_clear_data > 0
            || rows[j].bytes_of_protected_data > 0) && row_start(rows, j + 1) <= sample_len
}

/// What is wrong with a subsample map that has no plan.
pub open spec fn rows_fault(
    rows: Seq<SubsampleEntry>,
    sample_len: u64,
    e: CencError,
) -> bool {
    match e {
        CencError::BothZero { index } => index < rows.len() && rows_fit(
            rows,
            index as int,
            sample_len,
        ) && rows[index as int].bytes_of_clear_data == 0
            && rows[index as int].bytes_of_protected_data == 0,
        CencError::PastSampleLen { index, end, sample_len: len } => index < rows.len() && rows_fit(
            rows,
            index as int,
            sample_len,
        ) && end == row_start(rows, index + 1) && len == sample_len && end > len,
        CencError::SubsampleTotal { total, sample_len: len } => rows_fit(
            rows,
            rows.len() as int,
            sample_len,
        ) && total == row_start(rows, rows.len() as int) && len == sample_len && total < len,
        CencError::RunLengthOverflow => exists|n: int|
            0 <= n < rows.len() && #[trigger] rows_fit(rows, n, sample_len) && row_start(rows, n + 1)
                > u64::MAX,
        _ => false,
    }
}

proof fn lemma_rows_fault(d: DecisionView, rows: Seq<SubsampleEntry>, i: int, sample_len: u64)
    requires
        rows.len() <= usize::MAX,
        0 <= i <= rows.len(),
        row_start(rows, i) <= sample_len,
        rows_fit(rows, i, sample_len),
    ensures
        rows_plan(d, rows, i, row_start(rows, i), sample_len) matches Err(e) ==> rows_fault(
            rows,
            sample_len,
            e,
        ),
    decreases rows.len() - i,
{
    lemma_row_start_order(rows, 0, i);
    if i < rows.len() {
        let next = row_start(rows, i + 1);
        assert(next == row_start(rows, i) + row_len(rows[i]));
        if row_len(rows[i]) > 0 && next <= sample_len {
            assert(rows_fit(rows, i + 1, sample_len));
            lemma_rows_fault(d, rows, i + 1, sample_len);
        }
    }
}

/// Why a sample has no plan. A track that is not protected has none, nor
/// has an unknown scheme. A subsample map has none from its first fault on:
/// an empty subsample, one that ends past the sample, or an end before the
/// sample's.
pub proof fn law_plan_refusals(
    d: DecisionView,
    subsamples: Option<Seq<SubsampleEntry>>,
    sample_len: u64,
)
    requires
        subsamples matches Some(rows) ==> rows.len() <= usize::MAX,
    ensures
        ({
            let r = sample_plan(d, subsamples, sample_len);
            &&& r == Err::<Seq<CipherStep>, CencError>(CencError::Unprotected) <==> d.tenc.is_protected
                == 0
            &&& r == Err::<Seq<CipherStep>, CencError>(CencError::UnknownScheme) <==> (
            d.tenc.is_protected != 0 && d.scheme is Unknown)
            &&& (r matches Err(e) && d.tenc.is_protected != 0 && !(d.scheme is Unknown)) ==> (
            subsamples matches Some(rows) && rows_fault(rows, sample_len, r->Err_0))
        }),
{
    match subsamples {
        Some(rows) => {
            lemma_rows_fault(d, rows, 0, sample_len);
        },
        None => {},
    }
}

} // verus!
