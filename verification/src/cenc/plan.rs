//! The cipher plan of one sample: which of its bytes stay clear, which go
//! through AES, and where the IV starts over.

use crate::cenc::error::CencError;
use crate::cenc::scheme::{mode_of, patterned, supply_of, CencSchemeDecision, DecisionView};
use crate::cenc::types::{CencScheme, CipherMode, IvSupply, SubsampleEntry};
use vstd::prelude::*;

verus! {

/// What happens to the bytes of a [`CipherStep`].
#[derive(Clone, Copy, Debug, PartialEq, Eq, Structural)]
pub enum CipherStepKind {
    /// They pass through unchanged.
    Clear,
    /// They go through the cipher.
    Encrypted,
}

/// One run of bytes of a sample.
#[derive(Clone, Copy, Debug, PartialEq, Eq, Structural)]
pub struct CipherStep {
    /// Where the run starts in the sample.
    pub offset: u64,
    /// How long the run is.
    pub len: u64,
    /// Whether the run is clear or encrypted.
    pub kind: CipherStepKind,
    /// Whether the cipher chain starts over with the IV here.
    pub iv_restart: bool,
}

// ---------------------------------------------------------------------
// The plan as a value
// ---------------------------------------------------------------------

/// The run of `len` bytes at `at`, or no run where there are no bytes.
pub open spec fn span(at: int, len: int, kind: CipherStepKind, iv_restart: bool) -> Seq<
    CipherStep,
> {
    if len > 0 {
        seq![CipherStep { offset: at as u64, len: len as u64, kind, iv_restart }]
    } else {
        Seq::empty()
    }
}

/// The smaller of two numbers.
pub open spec fn min_of(a: int, b: int) -> int {
    if a <= b {
        a
    } else {
        b
    }
}

/// The pattern over `len` protected bytes at `at`: `crypt` bytes encrypted,
/// `skip` bytes clear, and so on. The encrypted part takes whole blocks of
/// 16 bytes only; where fewer than `crypt` are left, what remains is clear.
/// With `crypt` 0 everything is clear.
pub open spec fn pattern_steps(at: int, len: int, crypt: int, skip: int, restart: bool) -> Seq<
    CipherStep,
>
    decreases len,
{
    if len <= 0 {
        Seq::empty()
    } else if crypt <= 0 {
        span(at, len, CipherStepKind::Clear, false)
    } else {
        let full = min_of(crypt, len - len % 16);
        if full < crypt {
            span(at, full, CipherStepKind::Encrypted, restart) + span(
                at + full,
                len - full,
                CipherStepKind::Clear,
                false,
            )
        } else {
            let gap = if skip > 0 {
                min_of(skip, len - crypt)
            } else {
                0
            };
            span(at, crypt, CipherStepKind::Encrypted, restart) + span(
                at + crypt,
                gap,
                CipherStepKind::Clear,
                false,
            ) + pattern_steps(at + crypt + gap, len - crypt - gap, crypt, skip, false)
        }
    }
}

/// The plan of a sample without a subsample map. Counter mode without a
/// pattern takes every byte; elsewhere a partial last block stays clear.
pub open spec fn whole_sample_steps(scheme: CencScheme, len: int) -> Seq<CipherStep> {
    if mode_of(scheme) == Some(CipherMode::Ctr) && !patterned(scheme) {
        span(0, len, CipherStepKind::Encrypted, false)
    } else {
        span(0, len - len % 16, CipherStepKind::Encrypted, false) + span(
            len - len % 16,
            len % 16,
            CipherStepKind::Clear,
            false,
        )
    }
}

/// The bytes that a subsample covers.
pub open spec fn row_len(s: SubsampleEntry) -> int {
    s.bytes_of_clear_data + s.bytes_of_protected_data
}

/// The runs of one subsample at `at`: its clear bytes, then its protected
/// ones. Under `cbcs` the IV starts over in each subsample.
pub open spec fn subsample_steps(d: DecisionView, s: SubsampleEntry, at: int) -> Seq<CipherStep> {
    let protected_at = at + s.bytes_of_clear_data;
    span(at, s.bytes_of_clear_data as int, CipherStepKind::Clear, false) + if patterned(d.scheme) {
        pattern_steps(
            protected_at,
            s.bytes_of_protected_data as int,
            d.tenc.crypt_byte_block * 16,
            d.tenc.skip_byte_block * 16,
            d.scheme is Cbcs,
        )
    } else {
        span(protected_at, s.bytes_of_protected_data as int, CipherStepKind::Encrypted, false)
    }
}

/// The runs of the subsamples from the `i`-th on, the first of which starts
/// at `at`. They have to end exactly at `sample_len`, and none may be empty.
pub open spec fn rows_plan(
    d: DecisionView,
    subs: Seq<SubsampleEntry>,
    i: int,
    at: int,
    sample_len: u64,
) -> Result<Seq<CipherStep>, CencError>
    decreases subs.len() - i,
{
    if i >= subs.len() {
        if at == sample_len {
            Ok(Seq::empty())
        } else {
            Err(CencError::SubsampleTotal { total: at as u64, sample_len })
        }
    } else if row_len(subs[i]) == 0 {
        Err(CencError::BothZero { index: i as usize })
    } else if at + row_len(subs[i]) > u64::MAX {
        Err(CencError::RunLengthOverflow)
    } else if at + row_len(subs[i]) > sample_len {
        Err(
            CencError::PastSampleLen {
                index: i as usize,
                end: (at + row_len(subs[i])) as u64,
                sample_len,
            },
        )
    } else {
        match rows_plan(d, subs, i + 1, at + row_len(subs[i]), sample_len) {
            Ok(rest) => Ok(subsample_steps(d, subs[i], at) + rest),
            Err(e) => Err(e),
        }
    }
}

/// The cipher plan of a sample.
pub open spec fn sample_plan(
    d: DecisionView,
    subsamples: Option<Seq<SubsampleEntry>>,
    sample_len: u64,
) -> Result<Seq<CipherStep>, CencError> {
    if supply_of(d.tenc.is_protected, d.tenc.per_sample_iv_size) is Unprotected {
        Err(CencError::Unprotected)
    } else if d.scheme is Unknown {
        Err(CencError::UnknownScheme)
    } else {
        match subsamples {
            None => Ok(whole_sample_steps(d.scheme, sample_len as int)),
            Some(subs) => rows_plan(d, subs, 0, 0, sample_len),
        }
    }
}

// ---------------------------------------------------------------------
// The plan computed
// ---------------------------------------------------------------------

/// Append the run of `len` bytes at `at`, unless it is empty.
fn push_span(plan: &mut Vec<CipherStep>, at: u64, len: u64, kind: CipherStepKind, iv_restart: bool)
    ensures
        final(plan)@ == old(plan)@ + span(at as int, len as int, kind, iv_restart),
{
    if len > 0 {
        plan.push(CipherStep { offset: at, len, kind, iv_restart });
    }
    assert(plan@ =~= old(plan)@ + span(at as int, len as int, kind, iv_restart));
}

/// Append the pattern over the `protected_len` bytes at `offset`.
#[verifier::loop_isolation(false)]
pub fn plan_pattern_run(
    plan: &mut Vec<CipherStep>,
    offset: u64,
    protected_len: u64,
    crypt_blocks: u64,
    skip_blocks: u64,
    cbcs_restart_per_sub: bool,
)
    requires
        offset + protected_len <= u64::MAX,
        crypt_blocks * 16 <= u64::MAX,
        skip_blocks * 16 <= u64::MAX,
    ensures
        final(plan)@ == old(plan)@ + pattern_steps(
            offset as int,
            protected_len as int,
            crypt_blocks * 16,
            skip_blocks * 16,
            cbcs_restart_per_sub,
        ),
{
    let ghost base = plan@;
    if protected_len == 0 {
        assert(plan@ =~= base + pattern_steps(
            offset as int,
            protected_len as int,
            crypt_blocks * 16,
            skip_blocks * 16,
            cbcs_restart_per_sub,
        ));
        return;
    }
    if crypt_blocks == 0 {
        push_span(plan, offset, protected_len, CipherStepKind::Clear, false);
        return;
    }
    let crypt_bytes: u64 = crypt_blocks * 16;
    let skip_bytes: u64 = skip_blocks * 16;
    let mut remaining: u64 = protected_len;
    let mut cursor: u64 = offset;
    let mut restart: bool = cbcs_restart_per_sub;
    let ghost whole = pattern_steps(
        offset as int,
        protected_len as int,
        crypt_bytes as int,
        skip_bytes as int,
        cbcs_restart_per_sub,
    );
    assert(plan@ + whole =~= base + whole);
    while remaining > 0
        invariant
            crypt_bytes > 0,
            cursor + remaining <= u64::MAX,
            plan@ + pattern_steps(
                cursor as int,
                remaining as int,
                crypt_bytes as int,
                skip_bytes as int,
                restart,
            ) == base + whole,
        decreases remaining,
    {
        let whole_blocks: u64 = remaining - remaining % 16;
        let take_full: u64 = if crypt_bytes <= whole_blocks {
            crypt_bytes
        } else {
            whole_blocks
        };
        let ghost before = plan@;
        push_span(plan, cursor, take_full, CipherStepKind::Encrypted, restart);
        if take_full < crypt_bytes {
            push_span(
                plan,
                cursor + take_full,
                remaining - take_full,
                CipherStepKind::Clear,
                false,
            );
            assert(plan@ =~= before + pattern_steps(
                cursor as int,
                remaining as int,
                crypt_bytes as int,
                skip_bytes as int,
                restart,
            ));
            return;
        }
        let left: u64 = remaining - take_full;
        let gap: u64 = if skip_bytes <= left {
            skip_bytes
        } else {
            left
        };
        push_span(plan, cursor + take_full, gap, CipherStepKind::Clear, false);
        proof {
            let rest = pattern_steps(
                cursor + take_full + gap,
                left - gap,
                crypt_bytes as int,
                skip_bytes as int,
                false,
            );
            assert(plan@ + rest =~= before + pattern_steps(
                cursor as int,
                remaining as int,
                crypt_bytes as int,
                skip_bytes as int,
                restart,
            ));
        }
        cursor = cursor + take_full + gap;
        remaining = left - gap;
        restart = false;
    }
    assert(plan@ =~= plan@ + pattern_steps(
        cursor as int,
        remaining as int,
        crypt_bytes as int,
        skip_bytes as int,
        restart,
    ));
}

/// Plan the ciphering of one sample of `sample_len` bytes.
#[verifier::loop_isolation(false)]
pub fn plan_sample_cipher(
    decision: &CencSchemeDecision,
    subsamples: Option<&[SubsampleEntry]>,
    sample_len: u64,
) -> (r: Result<Vec<CipherStep>, CencError>)
    ensures
        match r {
            Ok(plan) => sample_plan(
                decision@,
                match subsamples {
                    Some(s) => Some(s@),
                    None => None,
                },
                sample_len,
            ) == Ok::<Seq<CipherStep>, CencError>(plan@),
            Err(e) => sample_plan(
                decision@,
                match subsamples {
                    Some(s) => Some(s@),
                    None => None,
                },
                sample_len,
            ) == Err::<Seq<CipherStep>, CencError>(e),
        },
{
    if let IvSupply::Unprotected = decision.iv_supply() {
        return Err(CencError::Unprotected);
    }
    let mode: CipherMode = match decision.cipher_mode() {
        Some(m) => m,
        None => {
            return Err(CencError::UnknownScheme);
        },
    };
    let uses_pattern: bool = decision.uses_pattern_encryption();
    let mut plan: Vec<CipherStep> = Vec::new();
    match subsamples {
        None => {
            let leave_partial_clear: bool = match mode {
                CipherMode::Cbc => true,
                CipherMode::Ctr => uses_pattern,
            };
            if leave_partial_clear {
                let tail: u64 = sample_len % 16;
                push_span(&mut plan, 0, sample_len - tail, CipherStepKind::Encrypted, false);
                push_span(&mut plan, sample_len - tail, tail, CipherStepKind::Clear, false);
            } else {
                push_span(&mut plan, 0, sample_len, CipherStepKind::Encrypted, false);
            }
            assert(plan@ =~= whole_sample_steps(decision.scheme, sample_len as int));
            Ok(plan)
        },
        Some(subs) => {
            let crypt_blocks: u64 = decision.tenc.default_crypt_byte_block as u64;
            let skip_blocks: u64 = decision.tenc.default_skip_byte_block as u64;
            let cbcs_restart_per_sub: bool = match decision.scheme {
                CencScheme::Cbcs => true,
                _ => false,
            };
            let mut cursor: u64 = 0;
            let mut i: usize = 0;
            let ghost all = rows_plan(decision@, subs@, 0, 0, sample_len);
            while i < subs.len()
                invariant
                    i <= subs.len(),
                    cursor <= sample_len,
                    uses_pattern == patterned(decision.scheme),
                    crypt_blocks == decision.tenc.default_crypt_byte_block,
                    skip_blocks == decision.tenc.default_skip_byte_block,
                    cbcs_restart_per_sub == decision.scheme is Cbcs,
                    all == rows_plan(decision@, subs@, 0, 0, sample_len),
                    match rows_plan(decision@, subs@, i as int, cursor as int, sample_len) {
                        Ok(rest) => all == Ok::<Seq<CipherStep>, CencError>(plan@ + rest),
                        Err(e) => all == Err::<Seq<CipherStep>, CencError>(e),
                    },
                decreases subs.len() - i,
            {
                let ghost before = plan@;
                let ghost at = cursor as int;
                let clear: u64 = subs[i].bytes_of_clear_data as u64;
                let protected: u64 = subs[i].bytes_of_protected_data as u64;
                if clear == 0 && protected == 0 {
                    return Err(CencError::BothZero { index: i });
                }
                let row: u64 = clear + protected;
                let row_end: u64 = match cursor.checked_add(row) {
                    Some(e) => e,
                    None => {
                        return Err(CencError::RunLengthOverflow);
                    },
                };
                if row_end > sample_len {
                    return Err(CencError::PastSampleLen { index: i, end: row_end, sample_len });
                }
                push_span(&mut plan, cursor, clear, CipherStepKind::Clear, false);
                cursor = cursor + clear;
                if uses_pattern {
                    plan_pattern_run(
                        &mut plan,
                        cursor,
                        protected,
                        crypt_blocks,
                        skip_blocks,
                        cbcs_restart_per_sub,
                    );
                } else {
                    push_span(&mut plan, cursor, protected, CipherStepKind::Encrypted, false);
                }
                cursor = cursor + protected;
                proof {
                    assert(plan@ =~= before + subsample_steps(decision@, subs@[i as int], at));
                    let next = rows_plan(decision@, subs@, i + 1, cursor as int, sample_len);
                    if let Ok(rest) = next {
                        assert(plan@ + rest =~= before + (subsample_steps(
                            decision@,
                            subs@[i as int],
                            at,
                        ) + rest));
                    }
                }
                i = i + 1;
            }
            if cursor != sample_len {
                return Err(CencError::SubsampleTotal { total: cursor, sample_len });
            }
            assert(plan@ + Seq::<CipherStep>::empty() =~= plan@);
            Ok(plan)
        },
    }
}

} // verus!
