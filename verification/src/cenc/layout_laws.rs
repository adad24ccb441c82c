//! Where the fields of encryption records stand, and which schemes and
//! defaults go together.

use crate::bytes::{be16_at, be24_at, be32_at};
use crate::cenc::error::CencError;
use crate::cenc::piff::{
    piff_as_senc, piff_as_tenc, piff_scheme, piff_senc_of, piff_tenc_of, PiffParamsView,
    PiffSencView,
};
use crate::cenc::pssh::{pssh_body, pssh_of, pssh_refusal};
use crate::cenc::scheme::{code_of, decision_of, mode_of, supply_of};
use crate::cenc::senc::{
    entries_of, entries_refusal, entry_of, senc_body, senc_of, senc_refusal,
};
use crate::cenc::tenc::{
    seig_body, seig_of, seig_refusal, tenc_body, tenc_of, tenc_refusal,
};
use crate::cenc::types::{
    CencScheme, CipherMode, IvSupply, PsshView, SeigView, SencSampleView, SencView, TencView,
};
use vstd::prelude::*;

verus! {

// ---------------------------------------------------------------------
// Schemes
// ---------------------------------------------------------------------

/// A scheme and track defaults go together if and only if the defaults are
/// of version 0 under `cenc` and `cbc1`, and of version 1 with a pattern
/// under `cens` and `cbcs`. An unknown scheme takes any defaults.
pub proof fn law_scheme_goes_with_defaults(scheme: CencScheme, t: TencView)
    ensures
        decision_of(scheme, t) is Ok <==> match scheme {
            CencScheme::Cenc | CencScheme::Cbc1 => t.version == 0,
            CencScheme::Cens | CencScheme::Cbcs => t.version == 1 && (t.crypt_byte_block != 0
                || t.skip_byte_block != 0),
            CencScheme::Unknown(_) => true,
        },
        decision_of(scheme, t) matches Ok(d) ==> d.scheme == scheme && d.tenc == t,
{
}

/// Counter mode is that of `cenc` and `cens`, block chaining that of `cbc1`
/// and `cbcs`, and an unknown scheme has neither.
pub proof fn law_mode_of_a_scheme(scheme: CencScheme)
    ensures
        mode_of(scheme) == Some(CipherMode::Ctr) <==> scheme is Cenc || scheme is Cens,
        mode_of(scheme) == Some(CipherMode::Cbc) <==> scheme is Cbc1 || scheme is Cbcs,
        mode_of(scheme) is None <==> scheme is Unknown,
{
}

/// Samples have no initialization vector if and only if they are not
/// protected, a constant one if and only if the flag is 1 and the width is
/// 0, and else one of their own of that width.
pub proof fn law_supply_of_vectors(is_protected: u8, iv_size: u8)
    ensures
        supply_of(is_protected, iv_size) is Unprotected <==> is_protected == 0,
        supply_of(is_protected, iv_size) is Constant <==> is_protected == 1 && iv_size == 0,
        supply_of(is_protected, iv_size) matches IvSupply::PerSample { size } ==> size == iv_size,
{
}

// ---------------------------------------------------------------------
// Parameters
// ---------------------------------------------------------------------

/// A constant initialization vector can be read at `at`: its length, which
/// is 8 or 16, in a byte, and as many bytes.
pub open spec fn constant_iv_at(s: Seq<u8>, at: int) -> bool {
    s.len() > at && (s[at] == 8 || s[at] == 16) && s.len() >= at + 1 + s[at]
}

/// Track defaults are read by their layout: the version, a byte with the
/// pattern in its two halves, which version 0 does not have, the protection
/// flag, the width of the initialization vectors, the key and, where the
/// flag is 1 and the width is 0, a constant vector.
pub proof fn law_tenc_layout(s: Seq<u8>)
    ensures
        tenc_of(s) is Ok <==> s.len() >= 24 && if s[6] == 1 && s[7] == 0 {
            constant_iv_at(s, 24)
        } else {
            s[7] == 0 || s[7] == 8 || s[7] == 16
        },
        tenc_of(s) matches Ok(t) ==> {
            &&& t.version == s[0]
            &&& s[0] == 0 ==> t.crypt_byte_block == 0 && t.skip_byte_block == 0
            &&& s[0] != 0 ==> 16 * t.crypt_byte_block + t.skip_byte_block == s[5]
                && t.skip_byte_block < 16
            &&& t.is_protected == s[6]
            &&& t.per_sample_iv_size == s[7]
            &&& t.kid == s.subrange(8, 24)
            &&& t.constant_iv == if s[6] == 1 && s[7] == 0 {
                Some(s.subrange(25, 25 + s[24]))
            } else {
                None
            }
        },
{
}

/// An override is read by its layout: a byte that is not used, a byte with
/// the pattern in its two halves, the protection flag, the width of the
/// initialization vectors, the key and, where the flag is 1 and the width is
/// 0, a constant vector.
pub proof fn law_seig_layout(s: Seq<u8>)
    ensures
        seig_of(s) is Ok <==> s.len() >= 20 && if s[2] == 1 && s[3] == 0 {
            constant_iv_at(s, 20)
        } else {
            s[3] == 0 || s[3] == 8 || s[3] == 16
        },
        seig_of(s) matches Ok(e) ==> {
            &&& 16 * e.crypt_byte_block + e.skip_byte_block == s[1]
            &&& e.skip_byte_block < 16
            &&& e.is_protected == s[2]
            &&& e.per_sample_iv_size == s[3]
            &&& e.kid == s.subrange(4, 20)
            &&& e.constant_iv == if s[2] == 1 && s[3] == 0 {
                Some(s.subrange(21, 21 + s[20]))
            } else {
                None
            }
        },
{
}

/// A protection header is read by its layout: the version, the system, the
/// keys with their count, which version 0 does not have, and the data with
/// its size.
pub proof fn law_pssh_layout(s: Seq<u8>)
    ensures
        ({
            let keys = if s[0] == 0 {
                0int
            } else {
                be32_at(s, 20) as int
            };
            let at = if s[0] == 0 {
                20int
            } else {
                24 + 16 * keys
            };
            &&& pssh_of(s) is Ok <==> s.len() >= 20 && (s[0] == 0 || s.len() >= 24) && s.len() >= at
                + 4 && s.len() >= at + 4 + be32_at(s, at)
            &&& pssh_of(s) matches Ok(p) ==> {
                &&& p.version == s[0]
                &&& p.system_id == s.subrange(4, 20)
                &&& p.kids.len() == keys
                &&& forall|i: int|
                    0 <= i < keys ==> #[trigger] p.kids[i] == s.subrange(24 + 16 * i, 40 + 16 * i)
                &&& p.data == s.subrange(at + 4, at + 4 + be32_at(s, at))
            }
        }),
{
}

/// PIFF track defaults are read by their layout: version 0, the algorithm in
/// 24 bits, the width of the initialization vectors and the key.
pub proof fn law_piff_tenc_layout(s: Seq<u8>)
    ensures
        piff_tenc_of(s) is Ok <==> s.len() >= 24 && s[0] == 0 && (s[7] == 0 || s[7] == 8 || s[7]
            == 16),
        piff_tenc_of(s) matches Ok(p) ==> p.algorithm_id == be24_at(s, 4) && p.iv_size == s[7]
            && p.kid == s.subrange(8, 24),
{
}

// ---------------------------------------------------------------------
// Sample tables
// ---------------------------------------------------------------------

/// How many bytes the first `n` entries take: the initialization vector,
/// and with subsample maps 16 bits and six bytes for every subsample.
pub open spec fn entries_len(e: Seq<SencSampleView>, n: int, maps: bool) -> int
    decreases n,
{
    if n <= 0 {
        0
    } else {
        entries_len(e, n - 1, maps) + e[n - 1].iv.len() + if maps {
            2 + 6 * e[n - 1].subsamples.len()
        } else {
            0
        }
    }
}

/// An entry as it stands at `at`.
pub open spec fn entry_stands_at(
    s: Seq<u8>,
    at: int,
    e: SencSampleView,
    maps: bool,
    iv_size: int,
) -> bool {
    &&& 0 <= at
    &&& at + iv_size <= s.len()
    &&& e.iv == s.subrange(at, at + iv_size)
    &&& !maps ==> e.subsamples.len() == 0
    &&& maps ==> {
        let rows = at + iv_size + 2;
        &&& e.subsamples.len() == be16_at(s, at + iv_size)
        &&& rows + 6 * e.subsamples.len() <= s.len()
        &&& forall|k: int|
            0 <= k < e.subsamples.len() ==> (#[trigger] e.subsamples[k]).bytes_of_clear_data
                == be16_at(s, rows + 6 * k) && e.subsamples[k].bytes_of_protected_data == be32_at(
                s,
                rows + 6 * k + 2,
            )
    }
}

/// Entries after the first one.
proof fn lemma_entries_len(e: Seq<SencSampleView>, n: int, maps: bool)
    requires
        1 <= n <= e.len(),
    ensures
        entries_len(e, n, maps) == entries_len(e, 1, maps) + entries_len(
            e.drop_first(),
            n - 1,
            maps,
        ),
    decreases n,
{
    if n > 1 {
        lemma_entries_len(e, n - 1, maps);
        assert(e.drop_first()[n - 2] == e[n - 1]);
    }
}

proof fn lemma_entries_stand(s: Seq<u8>, at: int, n: nat, maps: bool, iv_size: int, i: int)
    requires
        0 <= at,
        0 <= iv_size,
        entries_of(s, at, n, maps, iv_size) is Ok,
        0 <= i < n,
    ensures
        ({
            let e = entries_of(s, at, n, maps, iv_size)->Ok_0;
            &&& e.len() == n
            &&& entry_stands_at(s, at + entries_len(e, i, maps), e[i], maps, iv_size)
        }),
    decreases n,
{
    let e = entries_of(s, at, n, maps, iv_size)->Ok_0;
    let (first, next) = entry_of(s, at, maps, iv_size)->Ok_0;
    let rest = entries_of(s, next, (n - 1) as nat, maps, iv_size)->Ok_0;
    lemma_entries_count(s, next, (n - 1) as nat, maps, iv_size);
    assert(e[0] == first);
    assert(entries_len(e, 0, maps) == 0);
    assert(entries_len(e, 1, maps) == next - at);
    if i > 0 {
        lemma_entries_stand(s, next, (n - 1) as nat, maps, iv_size, i - 1);
        assert(e.drop_first() =~= rest);
        if i > 1 {
            lemma_entries_len(e, i, maps);
        }
        assert(entries_len(rest, 0, maps) == 0);
        assert(e[i] == rest[i - 1]);
    }
}

proof fn lemma_entries_count(s: Seq<u8>, at: int, n: nat, maps: bool, iv_size: int)
    requires
        entries_of(s, at, n, maps, iv_size) is Ok,
    ensures
        entries_of(s, at, n, maps, iv_size)->Ok_0.len() == n,
    decreases n,
{
    if n > 0 {
        let (_first, next) = entry_of(s, at, maps, iv_size)->Ok_0;
        lemma_entries_count(s, next, (n - 1) as nat, maps, iv_size);
    }
}

/// A sample table is read by its layout: the flags, of which the second bit
/// says that there are subsample maps, the count, and the entries one behind
/// the other.
pub proof fn law_senc_layout(s: Seq<u8>, iv_size: u8, i: int)
    requires
        senc_of(s, iv_size) is Ok,
        0 <= i < be32_at(s, 4),
    ensures
        ({
            let b = senc_of(s, iv_size)->Ok_0;
            let maps = (be24_at(s, 1) / 2) % 2 == 1;
            &&& b.flags == be24_at(s, 1)
            &&& b.samples.len() == be32_at(s, 4)
            &&& entry_stands_at(
                s,
                8 + entries_len(b.samples, i, maps),
                b.samples[i],
                maps,
                iv_size as int,
            )
        }),
{
    let maps = (be24_at(s, 1) / 2) % 2 == 1;
    lemma_entries_stand(s, 8, be32_at(s, 4) as nat, maps, iv_size as int, i);
}

/// A PIFF sample table is read by its layout: version 0, the flags, of which
/// the first bit says that there are parameters of its own and the second
/// that there are subsample maps, the parameters, the count, and the entries
/// one behind the other, with initialization vectors as wide as those
/// parameters say, or else as the track says.
pub proof fn law_piff_senc_layout(s: Seq<u8>, default_iv_size: u8, i: int)
    requires
        piff_senc_of(s, default_iv_size) is Ok,
        0 <= i < piff_senc_of(s, default_iv_size)->Ok_0.samples.len(),
    ensures
        ({
            let p = piff_senc_of(s, default_iv_size)->Ok_0;
            let own = be24_at(s, 1) % 2 == 1;
            let maps = (be24_at(s, 1) / 2) % 2 == 1;
            let at = if own {
                24int
            } else {
                4int
            };
            let iv_size = if own {
                s[7]
            } else {
                default_iv_size
            };
            &&& s[0] == 0
            &&& p.flags == be24_at(s, 1)
            &&& p.override_params is Some <==> own
            &&& p.override_params matches Some(q) ==> q.algorithm_id == be24_at(s, 4) && q.iv_size
                == s[7] && q.kid == s.subrange(8, 24)
            &&& p.samples.len() == be32_at(s, at)
            &&& entry_stands_at(
                s,
                at + 4 + entries_len(p.samples, i, maps),
                p.samples[i],
                maps,
                iv_size as int,
            )
        }),
{
    let own = be24_at(s, 1) % 2 == 1;
    let maps = (be24_at(s, 1) / 2) % 2 == 1;
    let at = if own {
        24int
    } else {
        4int
    };
    let iv_size = if own {
        s[7]
    } else {
        default_iv_size
    };
    lemma_entries_count(s, at + 4, be32_at(s, at) as nat, maps, iv_size as int);
    lemma_entries_stand(s, at + 4, be32_at(s, at) as nat, maps, iv_size as int, i);
}

// ---------------------------------------------------------------------
// Which records can be written
// ---------------------------------------------------------------------

/// The widths and the constant vector of a record go together: a width is 0,
/// 8 or 16, and there is a constant vector, of 8 or 16 bytes, if and only if
/// the flag is 1 and the width is 0.
pub open spec fn vectors_fit(is_protected: u8, iv_size: u8, constant_iv: Option<Seq<u8>>) -> bool {
    &&& iv_size == 0 || iv_size == 8 || iv_size == 16
    &&& constant_iv is Some <==> is_protected == 1 && iv_size == 0
    &&& constant_iv matches Some(v) ==> v.len() == 8 || v.len() == 16
}

/// Track defaults can be written if and only if they are of version 0 without
/// a pattern or of version 1, the halves of the pattern fit four bits each,
/// and the vectors fit.
pub proof fn law_which_tenc_are_written(t: TencView)
    ensures
        tenc_refusal(t) is None <==> {
            &&& t.version <= 1
            &&& t.version == 0 ==> t.crypt_byte_block == 0 && t.skip_byte_block == 0
            &&& t.crypt_byte_block <= 15 && t.skip_byte_block <= 15
            &&& vectors_fit(t.is_protected, t.per_sample_iv_size, t.constant_iv)
        },
{
}

/// An override can be written if and only if the halves of its pattern fit
/// four bits each and the vectors fit.
pub proof fn law_which_seig_are_written(e: SeigView)
    ensures
        seig_refusal(e) is None <==> {
            &&& e.crypt_byte_block <= 15 && e.skip_byte_block <= 15
            &&& vectors_fit(e.is_protected, e.per_sample_iv_size, e.constant_iv)
        },
{
}

/// A protection header can be written if and only if it lists keys in no
/// version 0, and its keys and its data can be counted in 32 bits.
pub proof fn law_which_pssh_are_written(p: PsshView)
    ensures
        pssh_refusal(p) is None <==> (p.version == 0 ==> p.kids.len() == 0) && p.kids.len()
            <= u32::MAX && p.data.len() <= u32::MAX,
{
}

/// An entry of a table can be written if and only if its vector is as wide
/// as the others, and its subsamples can be counted in 16 bits or, without
/// maps, there are none.
proof fn lemma_which_entries(samples: Seq<SencSampleView>, i: int, iv_size: int, maps: bool)
    requires
        0 <= i <= samples.len(),
    ensures
        entries_refusal(samples, i, iv_size, maps) is None <==> forall|k: int|
            i <= k < samples.len() ==> (#[trigger] samples[k]).iv.len() == iv_size && (if maps {
                samples[k].subsamples.len() <= u16::MAX
            } else {
                samples[k].subsamples.len() == 0
            }),
    decreases samples.len() - i,
{
    if i < samples.len() {
        lemma_which_entries(samples, i + 1, iv_size, maps);
    }
}

/// A sample table can be written if and only if its flags fit 24 bits, the
/// vectors are all of one width, which is 0, 8 or 16, the samples can be
/// counted in 32 bits, and subsamples are there, and can be counted in 16
/// bits, only where the flags say that there are maps.
pub proof fn law_which_senc_are_written(b: SencView)
    ensures
        senc_refusal(b) is None <==> {
            let maps = (b.flags / 2) % 2 == 1;
            let width = if b.samples.len() == 0 {
                0nat
            } else {
                b.samples[0].iv.len()
            };
            &&& b.flags <= 0xFF_FFFF
            &&& width == 0 || width == 8 || width == 16
            &&& b.samples.len() <= u32::MAX
            &&& forall|k: int|
                0 <= k < b.samples.len() ==> (#[trigger] b.samples[k]).iv.len() == width && (
                if maps {
                    b.samples[k].subsamples.len() <= u16::MAX
                } else {
                    b.samples[k].subsamples.len() == 0
                })
        },
{
    let width = if b.samples.len() == 0 {
        0nat
    } else {
        b.samples[0].iv.len()
    };
    lemma_which_entries(b.samples, 0, width as int, (b.flags / 2) % 2 == 1);
}

// ---------------------------------------------------------------------
// PIFF records in their later forms
// ---------------------------------------------------------------------

/// Algorithm 1 is `cenc` and algorithm 2 is `cbc1`; no other names a cipher.
pub proof fn law_piff_algorithms(algorithm_id: u32)
    ensures
        piff_scheme(algorithm_id) == Some(CencScheme::Cenc) <==> algorithm_id == 1,
        piff_scheme(algorithm_id) == Some(CencScheme::Cbc1) <==> algorithm_id == 2,
        piff_scheme(algorithm_id) is None <==> algorithm_id != 1 && algorithm_id != 2,
{
}

/// PIFF track defaults are those of version 0 with the same key and width,
/// protected unless the algorithm is 0, and they go with the scheme of their
/// algorithm.
pub proof fn law_piff_defaults(p: PiffParamsView)
    ensures
        ({
            let t = piff_as_tenc(p);
            &&& t.version == 0 && t.crypt_byte_block == 0 && t.skip_byte_block == 0
            &&& t.is_protected == 0 <==> p.algorithm_id == 0
            &&& t.is_protected <= 1
            &&& t.per_sample_iv_size == p.iv_size
            &&& t.kid == p.kid
            &&& t.constant_iv is None
            &&& piff_scheme(p.algorithm_id) matches Some(s) ==> decision_of(s, t) is Ok
        }),
{
}

/// A PIFF sample table is a later one with the same samples, and with maps
/// if and only if it has maps.
pub proof fn law_piff_table(p: PiffSencView)
    ensures
        piff_as_senc(p).samples == p.samples,
        (piff_as_senc(p).flags / 2) % 2 == (p.flags / 2) % 2,
        piff_as_senc(p).flags == 0 || piff_as_senc(p).flags == 2,
{
}

/// The bytes of records that are not used are written as zeros: the flags of
/// track defaults and protection headers and the byte behind them, the first
/// byte of an override, and the version of a sample table.
pub proof fn law_unused_bytes_are_zeros(t: TencView, e: SeigView, p: PsshView, b: SencView)
    requires
        t.kid.len() == 16,
        e.kid.len() == 16,
        p.system_id.len() == 16,
    ensures
        be32_at(tenc_body(t), 1) == 0,
        seig_body(e)[0] == 0,
        be24_at(pssh_body(p), 1) == 0,
        senc_body(b)[0] == 0,
{
    let x = pssh_body(p);
    assert(x[1] == 0 && x[2] == 0 && x[3] == 0);
    let y = tenc_body(t);
    assert(y[1] == 0 && y[2] == 0 && y[3] == 0 && y[4] == 0);
}

/// Why a scheme and track defaults do not go together: the version of the
/// defaults is not the one that goes with the scheme, else the pattern is
/// missing.
pub proof fn law_why_defaults_are_refused(scheme: CencScheme, t: TencView)
    ensures
        decision_of(scheme, t) matches Err(e) ==> {
            let required: u8 = if scheme is Cenc || scheme is Cbc1 {
                0
            } else {
                1
            };
            if t.version != required {
                e == (CencError::VersionMismatch {
                    scheme: code_of(scheme),
                    required,
                    found: t.version,
                })
            } else {
                e == (CencError::ZeroPattern { scheme: code_of(scheme) })
            }
        },
{
}

} // verus!
