//! What a recipe says about a case, byte by byte.

use crate::cenc::case::{case_of, exact, rows_of, sample_of};
use crate::cenc::plan::row_len;
use crate::cenc::plan_laws::{lemma_total_nonnegative, row_start, rows_total};
use crate::cenc::types::SubsampleEntry;
use crate::recipe::{law_rest_goes_on, lemma_exact_bytes, lemma_past_past, nth_byte, past};
use vstd::prelude::*;

verus! {

/// The width that an even and an odd byte ask for.
pub open spec fn wide(b: u8) -> int {
    if b % 2 == 1 {
        16
    } else {
        8
    }
}

/// A run holds the bytes of an input from `at` on, which goes on with zeros.
pub open spec fn reads(x: Seq<u8>, s: Seq<u8>, at: int, n: int) -> bool {
    x.len() == n && forall|i: int| 0 <= i < n ==> #[trigger] x[i] == nth_byte(s, at + i)
}

proof fn lemma_exact_reads(s: Seq<u8>, at: nat, n: nat)
    ensures
        reads(exact(past(s, at), n), s, at as int, n as int),
{
    lemma_exact_bytes(s, at, n, 0);
}

/// The first byte of a case picks the scheme. Under `cenc` and `cbc1` the
/// second picks the width of the initialization vector, and then follow the
/// 16 bytes of the default key identifier, the 16 bytes of the key and the
/// vector. There is no pattern and no constant vector.
pub proof fn law_case_without_pattern(s: Seq<u8>)
    requires
        case_of(s).0 is Some,
        nth_byte(s, 0) % 4 < 2,
    ensures
        ({
            let c = case_of(s).0->0;
            let t = c.decision.tenc;
            let n = wide(nth_byte(s, 1));
            &&& nth_byte(s, 0) % 4 == 0 ==> c.decision.scheme is Cenc
            &&& nth_byte(s, 0) % 4 == 1 ==> c.decision.scheme is Cbc1
            &&& t.version == 0 && t.is_protected == 1
            &&& t.crypt_byte_block == 0 && t.skip_byte_block == 0 && t.constant_iv is None
            &&& t.per_sample_iv_size == n
            &&& reads(t.kid, s, 2, 16)
            &&& reads(c.key, s, 18, 16)
            &&& c.iv is Some && reads(c.iv->0, s, 34, n)
            &&& case_of(s).1 == sample_of(past(s, (34 + n) as nat)).1
            &&& sample_of(past(s, (34 + n) as nat)).0 == Some((c.subsamples, c.data))
        }),
{
    let n = wide(nth_byte(s, 1)) as nat;
    law_rest_goes_on(s, 0, 0);
    law_rest_goes_on(s, 1, 0);
    lemma_past_past(s, 1, 1);
    lemma_past_past(s, 2, 16);
    lemma_past_past(s, 18, 16);
    lemma_past_past(s, 18, 16 + n);
    lemma_exact_reads(s, 2, 16);
    lemma_exact_reads(s, 18, 16);
    lemma_exact_reads(s, 34, n);
    assert(past(s, 0) =~= s);
}

/// Under `cens` and `cbcs` an odd second byte asks for a constant vector. The
/// third byte picks its width, and then follow the vector, the number of
/// encrypted blocks, 1 to 9, of clear blocks, 0 to 9, the default key
/// identifier and the key.
pub proof fn law_case_with_constant_vector(s: Seq<u8>)
    requires
        case_of(s).0 is Some,
        nth_byte(s, 0) % 4 >= 2,
        nth_byte(s, 1) % 2 == 1,
    ensures
        ({
            let c = case_of(s).0->0;
            let t = c.decision.tenc;
            let n = wide(nth_byte(s, 2));
            &&& nth_byte(s, 0) % 4 == 2 ==> c.decision.scheme is Cens
            &&& nth_byte(s, 0) % 4 == 3 ==> c.decision.scheme is Cbcs
            &&& t.version == 1 && t.is_protected == 1 && t.per_sample_iv_size == 0
            &&& t.constant_iv is Some && reads(t.constant_iv->0, s, 3, n)
            &&& t.crypt_byte_block == 1 + nth_byte(s, 3 + n) % 9
            &&& t.skip_byte_block == nth_byte(s, 4 + n) % 10
            &&& reads(t.kid, s, 5 + n, 16)
            &&& reads(c.key, s, 21 + n, 16)
            &&& c.iv is None
            &&& sample_of(past(s, (37 + n) as nat)).0 == Some((c.subsamples, c.data))
        }),
{
    let n = wide(nth_byte(s, 2)) as nat;
    assert(past(s, 0) =~= s);
    law_rest_goes_on(s, 0, 0);
    law_rest_goes_on(s, 1, 0);
    law_rest_goes_on(s, 2, 0);
    law_rest_goes_on(s, 3 + n, 0);
    law_rest_goes_on(s, 4 + n, 0);
    lemma_past_past(s, 1, 1);
    lemma_past_past(s, 1, 2);
    lemma_past_past(s, 1, 2 + n);
    lemma_past_past(s, 3 + n, 1);
    lemma_past_past(s, 3 + n, 2);
    lemma_past_past(s, 5 + n, 16);
    lemma_past_past(s, 21 + n, 16);
    lemma_exact_reads(s, 3, n);
    lemma_exact_reads(s, 5 + n, 16);
    lemma_exact_reads(s, 21 + n, 16);
}

/// Under `cens` and `cbcs` an even second byte asks for a vector of every
/// sample's own. The third byte picks its width, and then follow the number
/// of encrypted blocks, 1 to 9, of clear blocks, 0 to 9, the default key
/// identifier, the key and the vector.
pub proof fn law_case_with_own_vectors(s: Seq<u8>)
    requires
        case_of(s).0 is Some,
        nth_byte(s, 0) % 4 >= 2,
        nth_byte(s, 1) % 2 == 0,
    ensures
        ({
            let c = case_of(s).0->0;
            let t = c.decision.tenc;
            let n = wide(nth_byte(s, 2));
            &&& nth_byte(s, 0) % 4 == 2 ==> c.decision.scheme is Cens
            &&& nth_byte(s, 0) % 4 == 3 ==> c.decision.scheme is Cbcs
            &&& t.version == 1 && t.is_protected == 1 && t.per_sample_iv_size == n
            &&& t.constant_iv is None
            &&& t.crypt_byte_block == 1 + nth_byte(s, 3) % 9
            &&& t.skip_byte_block == nth_byte(s, 4) % 10
            &&& reads(t.kid, s, 5, 16)
            &&& reads(c.key, s, 21, 16)
            &&& c.iv is Some && reads(c.iv->0, s, 37, n)
            &&& sample_of(past(s, (37 + n) as nat)).0 == Some((c.subsamples, c.data))
        }),
{
    let n = wide(nth_byte(s, 2)) as nat;
    assert(past(s, 0) =~= s);
    law_rest_goes_on(s, 0, 0);
    law_rest_goes_on(s, 1, 0);
    law_rest_goes_on(s, 2, 0);
    law_rest_goes_on(s, 3, 0);
    law_rest_goes_on(s, 4, 0);
    lemma_past_past(s, 1, 1);
    lemma_past_past(s, 1, 2);
    lemma_past_past(s, 3, 1);
    lemma_past_past(s, 3, 2);
    lemma_past_past(s, 5, 16);
    lemma_past_past(s, 21, 16);
    lemma_past_past(s, 21, 16 + n);
    lemma_exact_reads(s, 5, 16);
    lemma_exact_reads(s, 21, 16);
    lemma_exact_reads(s, 37, n);
}

/// A sample without a subsample map, which an even third byte asks for, has
/// 1 to 2048 bytes by the first two bytes. They follow, and where the input
/// ends bytes of `0xA5` do.
pub proof fn law_sample_without_map(s: Seq<u8>)
    requires
        nth_byte(s, 2) % 2 == 0,
    ensures
        ({
            let n = 1 + (0x100 * nth_byte(s, 0) + nth_byte(s, 1)) % 2_048;
            &&& sample_of(s).0 matches Some((subsamples, data)) && subsamples is None && data.len()
                == n && forall|i: int|
                0 <= i < n ==> #[trigger] data[i] == if 3 + i < s.len() {
                    s[3 + i]
                } else {
                    0xA5u8
                }
        }),
{
    assert(past(s, 0) =~= s);
    law_rest_goes_on(s, 0, 0);
    law_rest_goes_on(s, 1, 0);
    law_rest_goes_on(s, 2, 0);
    let n = (1 + (0x100 * nth_byte(s, 0) + nth_byte(s, 1)) % 2_048) as nat;
    lemma_exact_bytes(s, 3, n, 0xA5);
}

/// Subsamples of a map are not empty, have fewer than 64 clear and 512
/// protected bytes, and the protected ones come in whole blocks where that
/// was asked for.
proof fn lemma_rows_shape(s: Seq<u8>, align: bool, n: nat)
    ensures
        rows_of(s, align, n).0.len() <= n,
        forall|k: int|
            0 <= k < rows_of(s, align, n).0.len() ==> {
                let r = #[trigger] rows_of(s, align, n).0[k];
                &&& r.bytes_of_clear_data < 64
                &&& r.bytes_of_protected_data < 512
                &&& r.bytes_of_clear_data + r.bytes_of_protected_data > 0
                &&& align ==> r.bytes_of_protected_data % 16 == 0
            },
    decreases n,
{
    if n > 0 {
        lemma_rows_shape(s, align, (n - 1) as nat);
    }
}

/// What subsamples cover is where the next one would start.
proof fn lemma_rows_total(rows: Seq<SubsampleEntry>, i: int)
    requires
        0 <= i <= rows.len(),
    ensures
        row_start(rows, i) + rows_total(rows, i) == row_start(rows, rows.len() as int),
    decreases rows.len() - i,
{
    if i < rows.len() {
        lemma_rows_total(rows, i + 1);
        assert(row_start(rows, i + 1) == row_start(rows, i) + row_len(rows[i]));
    }
}

/// A sample with a subsample map, which an odd third byte asks for, has one
/// to four subsamples by the fourth byte, of which empty ones are left out,
/// and exactly the bytes that they cover. The fifth byte says whether
/// protected bytes come in whole blocks. Without a subsample that is not
/// empty there is no sample.
pub proof fn law_sample_with_map(s: Seq<u8>)
    requires
        nth_byte(s, 2) % 2 == 1,
    ensures
        sample_of(s).0 matches Some((subsamples, data)) ==> {
            &&& subsamples matches Some(rows)
            &&& 0 < rows.len() <= 1 + nth_byte(s, 3) % 4
            &&& data.len() == row_start(rows, rows.len() as int)
            &&& forall|k: int|
                0 <= k < rows.len() ==> {
                    let r = #[trigger] rows[k];
                    &&& r.bytes_of_clear_data < 64
                    &&& r.bytes_of_protected_data < 512
                    &&& r.bytes_of_clear_data + r.bytes_of_protected_data > 0
                    &&& nth_byte(s, 4) % 2 == 1 ==> r.bytes_of_protected_data % 16 == 0
                }
        },
        sample_of(s).0 is None <==> rows_of(
            past(s, 5),
            nth_byte(s, 4) % 2 == 1,
            (1 + nth_byte(s, 3) % 4) as nat,
        ).0.len() == 0,
{
    law_rest_goes_on(s, 2, 0);
    law_rest_goes_on(s, 3, 0);
    law_rest_goes_on(s, 4, 0);
    let align = nth_byte(s, 4) % 2 == 1;
    let n = (1 + nth_byte(s, 3) % 4) as nat;
    let (rows, rest) = rows_of(past(s, 5), align, n);
    lemma_rows_shape(past(s, 5), align, n);
    lemma_rows_total(rows, 0);
    lemma_total_nonnegative(rows, 0);
}

/// The next subsample is three bytes: the clear bytes, modulo 64, and the
/// protected ones in 16 bits, modulo 512, cut to whole blocks where that was
/// asked for. It joins those before it unless it is empty.
pub proof fn law_next_row(s: Seq<u8>, align: bool, n: nat)
    ensures
        ({
            let (before, rest) = rows_of(s, align, n);
            let (after, left) = rows_of(s, align, n + 1);
            let clear = nth_byte(rest, 0) % 64;
            let drawn = (0x100 * nth_byte(rest, 1) + nth_byte(rest, 2)) % 512;
            let kept = if align {
                16 * (drawn / 16)
            } else {
                drawn
            };
            &&& left == past(rest, 3)
            &&& clear + kept == 0 ==> after == before
            &&& clear + kept > 0 ==> after.len() == before.len() + 1 && after.drop_last() == before
                && after.last().bytes_of_clear_data == clear
                && after.last().bytes_of_protected_data == kept
        }),
{
    let (before, rest) = rows_of(s, align, n);
    let (after, left) = rows_of(s, align, n + 1);
    assert(past(rest, 0) =~= rest);
    law_rest_goes_on(rest, 0, 0);
    law_rest_goes_on(rest, 1, 0);
    law_rest_goes_on(rest, 2, 0);
    lemma_past_past(rest, 1, 1);
    if after.len() > before.len() {
        assert(after.drop_last() =~= before);
    }
}

} // verus!
