//! `senc`: the IVs and subsample maps of a run of samples.

use crate::boxes::SENC;
use crate::bytes::{
    be16, be16_at, be24, be24_at, be32, be32_at, boxed, copy_range, lemma_be16_at, lemma_be24_at,
    lemma_be32_at, put_bytes, put_u16, put_u24, put_u32, put_u8, u16_at, u24_at, u32_at, wrap_box,
};
use crate::cenc::error::{Carrier, CencError};
use crate::cenc::tenc::iv_width;
use crate::cenc::types::{
    agrees, flag1, sample_views, SencBox, SencSample, SencSampleView, SencView, SubsampleEntry,
};
use crate::seqs::{joined, lemma_joined_equal_parts, lemma_joined_first, lemma_joined_push};
use vstd::prelude::*;

verus! {

/// The largest count of entries that take no bytes.
pub const MAX_EMPTY_ENTRIES: u32 = 0x10_0000;

// ---------------------------------------------------------------------
// The table as a value
// ---------------------------------------------------------------------

/// The subsample table with `n` rows at `at`.
pub open spec fn subsamples_of(s: Seq<u8>, at: int, n: nat) -> Seq<SubsampleEntry> {
    Seq::new(
        n,
        |i: int|
            SubsampleEntry {
                bytes_of_clear_data: be16_at(s, at + 6 * i),
                bytes_of_protected_data: be32_at(s, at + 6 * i + 2),
            },
    )
}

/// The entry at `at`, and where it ends.
pub open spec fn entry_of(s: Seq<u8>, at: int, use_subsamples: bool, iv_size: int) -> Result<
    (SencSampleView, int),
    CencError,
> {
    let subs_at = at + iv_size;
    if s.len() < subs_at {
        Err(CencError::TruncatedIv)
    } else if !use_subsamples {
        Ok((SencSampleView { iv: s.subrange(at, subs_at), subsamples: Seq::empty() }, subs_at))
    } else if s.len() < subs_at + 2 {
        Err(CencError::MissingSubsampleCount)
    } else if s.len() < subs_at + 2 + 6 * be16_at(s, subs_at) {
        Err(CencError::TruncatedSubsamples)
    } else {
        Ok(
            (
                SencSampleView {
                    iv: s.subrange(at, subs_at),
                    subsamples: subsamples_of(s, subs_at + 2, be16_at(s, subs_at) as nat),
                },
                subs_at + 2 + 6 * be16_at(s, subs_at),
            ),
        )
    }
}

/// The `n` entries that start at `at`.
pub open spec fn entries_of(
    s: Seq<u8>,
    at: int,
    n: nat,
    use_subsamples: bool,
    iv_size: int,
) -> Result<Seq<SencSampleView>, CencError>
    decreases n,
{
    if n == 0 {
        Ok(Seq::empty())
    } else {
        match entry_of(s, at, use_subsamples, iv_size) {
            Err(e) => Err(e),
            Ok((first, next)) => match entries_of(
                s,
                next,
                (n - 1) as nat,
                use_subsamples,
                iv_size,
            ) {
                Err(e) => Err(e),
                Ok(rest) => Ok(seq![first] + rest),
            },
        }
    }
}

/// The fewest bytes that an entry takes.
pub open spec fn min_entry(use_subsamples: bool, iv_size: int) -> int {
    iv_size + if use_subsamples {
        2int
    } else {
        0int
    }
}

/// `count` entries can stand in `remaining` bytes. Entries that take no
/// bytes are bounded in number instead.
pub open spec fn backed(count: int, remaining: int, entry: int) -> bool {
    if entry == 0 {
        count <= MAX_EMPTY_ENTRIES
    } else {
        count * entry <= remaining
    }
}

/// The table of entries, led by its count, at `at`.
pub open spec fn table_of(s: Seq<u8>, at: int, use_subsamples: bool, iv_size: int) -> Result<
    Seq<SencSampleView>,
    CencError,
> {
    if s.len() < at + 4 {
        Err(CencError::ShortPayload(Carrier::Senc))
    } else if !backed(
        be32_at(s, at) as int,
        s.len() - at - 4,
        min_entry(use_subsamples, iv_size),
    ) {
        Err(CencError::UnbackedSampleCount)
    } else {
        entries_of(s, at + 4, be32_at(s, at) as nat, use_subsamples, iv_size)
    }
}

/// The record that a `senc` body holds, under a given IV width.
pub open spec fn senc_of(s: Seq<u8>, iv_size: u8) -> Result<SencView, CencError> {
    if !iv_width(iv_size as int) {
        Err(CencError::IvSize(Carrier::Senc, iv_size as u64))
    } else if s.len() < 8 {
        Err(CencError::ShortPayload(Carrier::Senc))
    } else {
        match table_of(s, 4, flag1(be24_at(s, 1)), iv_size as int) {
            Err(e) => Err(e),
            Ok(samples) => Ok(SencView { flags: be24_at(s, 1), samples }),
        }
    }
}

/// One row of a subsample table on the wire.
pub open spec fn subsample_wire(e: SubsampleEntry) -> Seq<u8> {
    be16(e.bytes_of_clear_data) + be32(e.bytes_of_protected_data)
}

/// The rows of a subsample table on the wire.
pub open spec fn subsample_wires(subs: Seq<SubsampleEntry>) -> Seq<Seq<u8>> {
    Seq::new(subs.len(), |i: int| subsample_wire(subs[i]))
}

/// An entry on the wire.
pub open spec fn entry_wire(e: SencSampleView, use_subsamples: bool) -> Seq<u8> {
    if use_subsamples {
        e.iv + be16(e.subsamples.len() as u16) + joined(subsample_wires(e.subsamples))
    } else {
        e.iv
    }
}

/// The entries on the wire.
pub open spec fn entry_wires(samples: Seq<SencSampleView>, use_subsamples: bool) -> Seq<Seq<u8>> {
    Seq::new(samples.len(), |i: int| entry_wire(samples[i], use_subsamples))
}

/// The table on the wire: the count, then the entries.
pub open spec fn table_wire(samples: Seq<SencSampleView>, use_subsamples: bool) -> Seq<u8> {
    be32(samples.len() as u32) + joined(entry_wires(samples, use_subsamples))
}

/// Why the entry at `i` cannot be written, if it cannot.
pub open spec fn entry_refusal(
    e: SencSampleView,
    i: int,
    iv_size: int,
    use_subsamples: bool,
) -> Option<CencError> {
    if e.iv.len() != iv_size {
        Some(
            CencError::IvLengthDiffers {
                index: i as usize,
                length: e.iv.len() as usize,
                shared: iv_size as usize,
            },
        )
    } else if use_subsamples && e.subsamples.len() > u16::MAX {
        Some(CencError::SubsampleCountTooLarge { index: i as usize })
    } else if !use_subsamples && e.subsamples.len() > 0 {
        Some(CencError::UnexpectedSubsamples { index: i as usize })
    } else {
        None
    }
}

/// Why the entries from `i` on cannot be written, if they cannot.
pub open spec fn entries_refusal(
    samples: Seq<SencSampleView>,
    i: int,
    iv_size: int,
    use_subsamples: bool,
) -> Option<CencError>
    decreases samples.len() - i,
{
    if i >= samples.len() {
        None
    } else if entry_refusal(samples[i], i, iv_size, use_subsamples) is Some {
        entry_refusal(samples[i], i, iv_size, use_subsamples)
    } else {
        entries_refusal(samples, i + 1, iv_size, use_subsamples)
    }
}

/// Why a table cannot be written, if it cannot.
pub open spec fn table_refusal(
    samples: Seq<SencSampleView>,
    iv_size: int,
    use_subsamples: bool,
) -> Option<CencError> {
    if samples.len() > u32::MAX {
        Some(CencError::SampleCountTooLarge)
    } else {
        entries_refusal(samples, 0, iv_size, use_subsamples)
    }
}

/// The count of a table and its first `n` entries.
pub open spec fn table_start(samples: Seq<SencSampleView>, use_subsamples: bool, n: int) -> Seq<u8> {
    be32(samples.len() as u32) + joined(entry_wires(samples, use_subsamples).take(n))
}

/// What is written of a table that is refused for `e`: all before the entry
/// that is to blame, with its IV where only its subsamples are.
pub open spec fn table_until(
    samples: Seq<SencSampleView>,
    use_subsamples: bool,
    e: CencError,
) -> Seq<u8> {
    match e {
        CencError::IvLengthDiffers { index, .. } => table_start(
            samples,
            use_subsamples,
            index as int,
        ),
        CencError::SubsampleCountTooLarge { index } => table_start(
            samples,
            use_subsamples,
            index as int,
        ) + samples[index as int].iv,
        CencError::UnexpectedSubsamples { index } => table_start(
            samples,
            use_subsamples,
            index as int,
        ) + samples[index as int].iv,
        _ => Seq::empty(),
    }
}

/// The IV width of a table: that of its first entry.
pub open spec fn shared_iv_size(samples: Seq<SencSampleView>) -> int {
    if samples.len() == 0 {
        0
    } else {
        samples[0].iv.len() as int
    }
}

/// Why a `senc` record cannot be written, if it cannot.
pub open spec fn senc_refusal(b: SencView) -> Option<CencError> {
    if b.flags > 0xFF_FFFF {
        Some(CencError::FlagsTooLarge(Carrier::Senc))
    } else if !iv_width(shared_iv_size(b.samples)) {
        Some(CencError::BuildIvSize(Carrier::Senc, shared_iv_size(b.samples) as u64))
    } else {
        table_refusal(b.samples, shared_iv_size(b.samples), flag1(b.flags))
    }
}

/// The body of a `senc` box.
pub open spec fn senc_body(b: SencView) -> Seq<u8> {
    seq![0u8] + be24(b.flags) + table_wire(b.samples, flag1(b.flags))
}

// ---------------------------------------------------------------------
// Parsing
// ---------------------------------------------------------------------

/// Parse the entry at `at`; the second part of the result is where it ends.
fn parse_entry(body: &[u8], at: usize, use_subsamples: bool, iv_size: usize) -> (r: Result<
    (SencSample, usize),
    CencError,
>)
    requires
        at <= body@.len(),
    ensures
        match r {
            Ok(e) => {
                &&& e.1 <= body@.len()
                &&& entry_of(body@, at as int, use_subsamples, iv_size as int) == Ok::<
                    (SencSampleView, int),
                    CencError,
                >((e.0@, e.1 as int))
            },
            Err(e) => entry_of(body@, at as int, use_subsamples, iv_size as int) == Err::<
                (SencSampleView, int),
                CencError,
            >(e),
        },
{
    if body.len() - at < iv_size {
        return Err(CencError::TruncatedIv);
    }
    let mut cursor: usize = at + iv_size;
    let iv: Vec<u8> = copy_range(body, at, cursor);
    let mut subsamples: Vec<SubsampleEntry> = Vec::new();
    if use_subsamples {
        if body.len() - cursor < 2 {
            return Err(CencError::MissingSubsampleCount);
        }
        let count: u16 = u16_at(body, cursor);
        cursor = cursor + 2;
        let ghost rows_at = cursor as int;
        if ((body.len() - cursor) as u64) < 6 * (count as u64) {
            return Err(CencError::TruncatedSubsamples);
        }
        let mut k: u16 = 0;
        while k < count
            invariant
                k <= count,
                rows_at + 6 * count <= body.len(),
                cursor == rows_at + 6 * k,
                subsamples.len() == k,
                forall|j: int|
                    0 <= j < k ==> #[trigger] subsamples@[j] == subsamples_of(
                        body@,
                        rows_at,
                        count as nat,
                    )[j],
            decreases count - k,
        {
            let clear: u16 = u16_at(body, cursor);
            let protected: u32 = u32_at(body, cursor + 2);
            subsamples.push(
                SubsampleEntry { bytes_of_clear_data: clear, bytes_of_protected_data: protected },
            );
            cursor = cursor + 6;
            k = k + 1;
        }
        assert(subsamples@ =~= subsamples_of(body@, rows_at, count as nat));
    } else {
        assert(subsamples@ =~= Seq::<SubsampleEntry>::empty());
    }
    Ok((SencSample { initialization_vector: iv, subsamples }, cursor))
}

/// Parse the table of entries that starts with its count at `at`.
#[verifier::loop_isolation(false)]
pub fn parse_senc_sample_table(
    body: &[u8],
    at: usize,
    use_subsamples: bool,
    iv_size: usize,
) -> (r: Result<Vec<SencSample>, CencError>)
    ensures
        match r {
            Ok(v) => table_of(body@, at as int, use_subsamples, iv_size as int) == Ok::<
                Seq<SencSampleView>,
                CencError,
            >(sample_views(v@)),
            Err(e) => table_of(body@, at as int, use_subsamples, iv_size as int) == Err::<
                Seq<SencSampleView>,
                CencError,
            >(e),
        },
{
    if at > body.len() || body.len() - at < 4 {
        return Err(CencError::ShortPayload(Carrier::Senc));
    }
    let sample_count: u32 = u32_at(body, at);
    let mut cursor: usize = at + 4;
    let entry: u128 = iv_size as u128 + if use_subsamples {
        2
    } else {
        0
    };
    let fits: bool = if entry == 0 {
        sample_count <= MAX_EMPTY_ENTRIES
    } else {
        assert(sample_count * entry <= 0xFFFF_FFFF * 0x1_0000_0000_0000_0001) by (nonlinear_arith)
            requires
                sample_count <= 0xFFFF_FFFF,
                entry <= 0x1_0000_0000_0000_0001,
        ;
        (sample_count as u128) * entry <= (body.len() - cursor) as u128
    };
    if !fits {
        return Err(CencError::UnbackedSampleCount);
    }
    let mut samples: Vec<SencSample> = Vec::new();
    let mut i: u32 = 0;
    let ghost all = entries_of(
        body@,
        cursor as int,
        sample_count as nat,
        use_subsamples,
        iv_size as int,
    );
    assert(sample_views(samples@) =~= Seq::<SencSampleView>::empty());
    proof {
        if let Ok(rest) = all {
            assert(sample_views(samples@) + rest =~= rest);
        }
    }
    while i < sample_count
        invariant
            i <= sample_count,
            cursor <= body.len(),
            match entries_of(
                body@,
                cursor as int,
                (sample_count - i) as nat,
                use_subsamples,
                iv_size as int,
            ) {
                Ok(rest) => all == Ok::<Seq<SencSampleView>, CencError>(
                    sample_views(samples@) + rest,
                ),
                Err(e) => all == Err::<Seq<SencSampleView>, CencError>(e),
            },
        decreases sample_count - i,
    {
        let ghost before = sample_views(samples@);
        match parse_entry(body, cursor, use_subsamples, iv_size) {
            Err(e) => {
                return Err(e);
            },
            Ok((sample, next)) => {
                let ghost v = sample@;
                samples.push(sample);
                cursor = next;
                proof {
                    assert(sample_views(samples@) =~= before.push(v));
                    if let Ok(rest) = entries_of(
                        body@,
                        next as int,
                        (sample_count - i - 1) as nat,
                        use_subsamples,
                        iv_size as int,
                    ) {
                        assert(before + (seq![v] + rest) =~= sample_views(samples@) + rest);
                    }
                }
            },
        }
        i = i + 1;
    }
    assert(sample_views(samples@) + Seq::<SencSampleView>::empty() =~= sample_views(samples@));
    Ok(samples)
}

/// Parse a `senc` body: what follows the box header. The IV width comes
/// from the track defaults, as the box does not carry it.
pub fn parse_senc(body: &[u8], per_sample_iv_size: u8) -> (r: Result<SencBox, CencError>)
    ensures
        agrees(r, senc_of(body@, per_sample_iv_size)),
{
    if !(per_sample_iv_size == 0 || per_sample_iv_size == 8 || per_sample_iv_size == 16) {
        return Err(CencError::IvSize(Carrier::Senc, per_sample_iv_size as u64));
    }
    if body.len() < 8 {
        return Err(CencError::ShortPayload(Carrier::Senc));
    }
    let flags: u32 = u24_at(body, 1);
    let use_subsamples: bool = (flags / 2) % 2 == 1;
    match parse_senc_sample_table(body, 4, use_subsamples, per_sample_iv_size as usize) {
        Err(e) => Err(e),
        Ok(samples) => Ok(SencBox { flags, samples }),
    }
}

// ---------------------------------------------------------------------
// Building
// ---------------------------------------------------------------------

/// Append an entry.
fn put_entry(body: &mut Vec<u8>, sample: &SencSample, use_subsamples: bool)
    requires
        use_subsamples ==> sample@.subsamples.len() <= u16::MAX,
    ensures
        final(body)@ == old(body)@ + entry_wire(sample@, use_subsamples),
{
    let ghost start = body@;
    put_bytes(body, sample.initialization_vector.as_slice());
    if use_subsamples {
        put_u16(body, sample.subsamples.len() as u16);
        let ghost counted = body@;
        let ghost wires = subsample_wires(sample.subsamples@);
        let mut k: usize = 0;
        assert(wires.take(0) =~= Seq::<Seq<u8>>::empty());
        assert(body@ =~= counted + joined(wires.take(0)));
        while k < sample.subsamples.len()
            invariant
                k <= sample.subsamples.len(),
                wires == subsample_wires(sample.subsamples@),
                body@ == counted + joined(wires.take(k as int)),
            decreases sample.subsamples.len() - k,
        {
            let ghost before = body@;
            put_u16(body, sample.subsamples[k].bytes_of_clear_data);
            put_u32(body, sample.subsamples[k].bytes_of_protected_data);
            proof {
                let part = wires[k as int];
                assert(body@ =~= before + part);
                lemma_joined_push(wires.take(k as int), part);
                assert(wires.take(k as int).push(part) =~= wires.take(k + 1));
                assert(body@ =~= counted + joined(wires.take(k + 1)));
            }
            k = k + 1;
        }
        assert(wires.take(wires.len() as int) =~= wires);
    }
    assert(body@ =~= start + entry_wire(sample@, use_subsamples));
}

/// Append the table of entries, led by its count.
#[verifier::loop_isolation(false)]
pub fn build_senc_sample_table(
    body: &mut Vec<u8>,
    samples: &[SencSample],
    iv_size: usize,
    use_subsamples: bool,
) -> (r: Result<(), CencError>)
    ensures
        match r {
            Ok(_) => {
                &&& table_refusal(sample_views(samples@), iv_size as int, use_subsamples) is None
                &&& final(body)@ == old(body)@ + table_wire(sample_views(samples@), use_subsamples)
            },
            Err(e) => {
                &&& table_refusal(sample_views(samples@), iv_size as int, use_subsamples) == Some(e)
                &&& final(body)@ == old(body)@ + table_until(
                    sample_views(samples@),
                    use_subsamples,
                    e,
                )
            },
        },
{
    assert(body@ =~= old(body)@ + Seq::<u8>::empty());
    if samples.len() as u64 > u32::MAX as u64 {
        return Err(CencError::SampleCountTooLarge);
    }
    let ghost start = body@;
    let ghost views = sample_views(samples@);
    let ghost wires = entry_wires(views, use_subsamples);
    put_u32(body, samples.len() as u32);
    let ghost counted = body@;
    let mut i: usize = 0;
    assert(wires.take(0) =~= Seq::<Seq<u8>>::empty());
    assert(body@ =~= counted + joined(wires.take(0)));
    while i < samples.len()
        invariant
            i <= samples.len(),
            body@ == counted + joined(wires.take(i as int)),
            entries_refusal(views, 0, iv_size as int, use_subsamples) == entries_refusal(
                views,
                i as int,
                iv_size as int,
                use_subsamples,
            ),
        decreases samples.len() - i,
    {
        let sample: &SencSample = &samples[i];
        assert(views[i as int] == sample@);
        assert(body@ =~= start + table_start(views, use_subsamples, i as int));
        if sample.initialization_vector.len() != iv_size {
            return Err(
                CencError::IvLengthDiffers {
                    index: i,
                    length: sample.initialization_vector.len(),
                    shared: iv_size,
                },
            );
        }
        if use_subsamples {
            if sample.subsamples.len() > 0xFFFF {
                put_bytes(body, sample.initialization_vector.as_slice());
                assert(body@ =~= start + (table_start(views, use_subsamples, i as int)
                    + sample@.iv));
                return Err(CencError::SubsampleCountTooLarge { index: i });
            }
        } else if sample.subsamples.len() > 0 {
            put_bytes(body, sample.initialization_vector.as_slice());
            assert(body@ =~= start + (table_start(views, use_subsamples, i as int) + sample@.iv));
            return Err(CencError::UnexpectedSubsamples { index: i });
        }
        put_entry(body, sample, use_subsamples);
        proof {
            let part = wires[i as int];
            lemma_joined_push(wires.take(i as int), part);
            assert(wires.take(i as int).push(part) =~= wires.take(i + 1));
            assert(body@ =~= counted + joined(wires.take(i + 1)));
        }
        i = i + 1;
    }
    assert(wires.take(wires.len() as int) =~= wires);
    assert(body@ =~= start + table_wire(views, use_subsamples));
    Ok(())
}

/// Serialise a `senc` box. Records that would not parse back are refused.
pub fn build_senc_box(senc: &SencBox) -> (r: Result<Vec<u8>, CencError>)
    ensures
        match r {
            Ok(b) => senc_refusal(senc@) is None && b@ == boxed(SENC, senc_body(senc@)),
            Err(e) => senc_refusal(senc@) == Some(e),
        },
{
    if senc.flags > 0xFF_FFFF {
        return Err(CencError::FlagsTooLarge(Carrier::Senc));
    }
    let iv_size: usize = if senc.samples.len() == 0 {
        0
    } else {
        senc.samples[0].initialization_vector.len()
    };
    assert(iv_size == shared_iv_size(senc@.samples));
    if !(iv_size == 0 || iv_size == 8 || iv_size == 16) {
        return Err(CencError::BuildIvSize(Carrier::Senc, iv_size as u64));
    }
    let mut body: Vec<u8> = Vec::new();
    put_u8(&mut body, 0);
    put_u24(&mut body, senc.flags);
    assert(body@ =~= seq![0u8] + be24(senc.flags));
    match build_senc_sample_table(
        &mut body,
        senc.samples.as_slice(),
        iv_size,
        senc.uses_subsample_encryption(),
    ) {
        Err(e) => Err(e),
        Ok(_) => Ok(wrap_box(&SENC, body.as_slice())),
    }
}

// ---------------------------------------------------------------------
// Laws
// ---------------------------------------------------------------------

proof fn lemma_entry_round_trip(
    s: Seq<u8>,
    at: int,
    e: SencSampleView,
    i: int,
    iv_size: int,
    use_subsamples: bool,
)
    requires
        0 <= at,
        at + entry_wire(e, use_subsamples).len() <= s.len(),
        s.subrange(at, at + entry_wire(e, use_subsamples).len()) == entry_wire(e, use_subsamples),
        entry_refusal(e, i, iv_size, use_subsamples) is None,
    ensures
        entry_of(s, at, use_subsamples, iv_size) == Ok::<(SencSampleView, int), CencError>(
            (e, at + entry_wire(e, use_subsamples).len()),
        ),
{
    let w = entry_wire(e, use_subsamples);
    let t = s.subrange(at, at + w.len());
    assert(s.subrange(at, at + iv_size) =~= t.subrange(0, iv_size));
    assert(t.subrange(0, iv_size) =~= e.iv);
    if use_subsamples {
        let n = e.subsamples.len();
        let wires = subsample_wires(e.subsamples);
        lemma_joined_equal_parts(wires, 6);
        let c = at + iv_size;
        assert(s.subrange(c, c + 2) =~= t.subrange(iv_size, iv_size + 2));
        assert(t.subrange(iv_size, iv_size + 2) =~= be16(n as u16));
        lemma_be16_at(s, c, n as u16);
        assert(t.subrange(iv_size + 2, w.len() as int) =~= joined(wires));
        assert(s.subrange(c + 2, c + 2 + 6 * n) =~= t.subrange(iv_size + 2, w.len() as int));
        assert forall|k: int| 0 <= k < n implies #[trigger] subsamples_of(s, c + 2, n)[k]
            == e.subsamples[k] by {
            let r = c + 2 + 6 * k;
            let row = wires[k];
            assert(joined(wires).subrange(6 * k, 6 * k + 6) == row);
            assert(s.subrange(r, r + 6) =~= s.subrange(c + 2, c + 2 + 6 * n).subrange(
                6 * k,
                6 * k + 6,
            ));
            assert(s.subrange(r, r + 2) =~= row.subrange(0, 2));
            assert(row.subrange(0, 2) =~= be16(e.subsamples[k].bytes_of_clear_data));
            assert(s.subrange(r + 2, r + 6) =~= row.subrange(2, 6));
            assert(row.subrange(2, 6) =~= be32(e.subsamples[k].bytes_of_protected_data));
            lemma_be16_at(s, r, e.subsamples[k].bytes_of_clear_data);
            lemma_be32_at(s, r + 2, e.subsamples[k].bytes_of_protected_data);
        }
        assert(subsamples_of(s, c + 2, n) =~= e.subsamples);
    } else {
        assert(e.subsamples =~= Seq::<SubsampleEntry>::empty());
    }
}

proof fn lemma_entries_round_trip(
    s: Seq<u8>,
    at: int,
    samples: Seq<SencSampleView>,
    i: int,
    iv_size: int,
    use_subsamples: bool,
)
    requires
        0 <= at,
        0 <= i <= samples.len(),
        at + joined(entry_wires(samples.skip(i), use_subsamples)).len() <= s.len(),
        s.subrange(at, at + joined(entry_wires(samples.skip(i), use_subsamples)).len())
            == joined(entry_wires(samples.skip(i), use_subsamples)),
        entries_refusal(samples, i, iv_size, use_subsamples) is None,
    ensures
        entries_of(s, at, (samples.len() - i) as nat, use_subsamples, iv_size) == Ok::<
            Seq<SencSampleView>,
            CencError,
        >(samples.skip(i)),
    decreases samples.len() - i,
{
    if i < samples.len() {
        let rest = samples.skip(i);
        let wires = entry_wires(rest, use_subsamples);
        let all = joined(wires);
        lemma_joined_first(wires);
        assert(wires.drop_first() =~= entry_wires(samples.skip(i + 1), use_subsamples));
        let w = entry_wire(samples[i], use_subsamples);
        assert(wires[0] == w);
        let tail = joined(wires.drop_first());
        assert(s.subrange(at, at + w.len()) =~= s.subrange(at, at + all.len()).subrange(
            0,
            w.len() as int,
        ));
        assert(s.subrange(at, at + w.len()) =~= w);
        lemma_entry_round_trip(s, at, samples[i], i, iv_size, use_subsamples);
        let next = at + w.len();
        assert(s.subrange(next, next + tail.len()) =~= s.subrange(at, at + all.len()).subrange(
            w.len() as int,
            all.len() as int,
        ));
        assert(s.subrange(next, next + tail.len()) =~= tail);
        lemma_entries_round_trip(s, next, samples, i + 1, iv_size, use_subsamples);
        assert(seq![samples[i]] + samples.skip(i + 1) =~= rest);
    } else {
        assert(samples.skip(i) =~= Seq::<SencSampleView>::empty());
    }
}

proof fn lemma_entries_len(
    samples: Seq<SencSampleView>,
    i: int,
    iv_size: int,
    use_subsamples: bool,
)
    requires
        0 <= i <= samples.len(),
        0 <= iv_size,
        entries_refusal(samples, i, iv_size, use_subsamples) is None,
    ensures
        joined(entry_wires(samples.skip(i), use_subsamples)).len() >= (samples.len() - i)
            * min_entry(use_subsamples, iv_size),
    decreases samples.len() - i,
{
    let m = min_entry(use_subsamples, iv_size);
    if i < samples.len() {
        let wires = entry_wires(samples.skip(i), use_subsamples);
        lemma_joined_first(wires);
        assert(wires.drop_first() =~= entry_wires(samples.skip(i + 1), use_subsamples));
        lemma_entries_len(samples, i + 1, iv_size, use_subsamples);
        assert(wires[0] == entry_wire(samples[i], use_subsamples));
        assert(wires[0].len() >= m);
        assert((samples.len() - i) * m == (samples.len() - i - 1) * m + m) by (nonlinear_arith);
    } else {
        assert((samples.len() - i) * m == 0) by (nonlinear_arith)
            requires
                samples.len() - i == 0,
        ;
    }
}

/// A table that can be written parses back as it was, wherever it stands,
/// unless it holds more entries that take no bytes than a table may.
pub proof fn law_table_build_parse(
    s: Seq<u8>,
    at: int,
    samples: Seq<SencSampleView>,
    iv_size: int,
    use_subsamples: bool,
)
    requires
        0 <= at,
        0 <= iv_size,
        at + table_wire(samples, use_subsamples).len() <= s.len(),
        s.subrange(at, at + table_wire(samples, use_subsamples).len()) == table_wire(
            samples,
            use_subsamples,
        ),
        table_refusal(samples, iv_size, use_subsamples) is None,
        min_entry(use_subsamples, iv_size) == 0 ==> samples.len() <= MAX_EMPTY_ENTRIES,
    ensures
        table_of(s, at, use_subsamples, iv_size) == Ok::<Seq<SencSampleView>, CencError>(samples),
{
    let n = samples.len();
    let w = table_wire(samples, use_subsamples);
    let t = s.subrange(at, at + w.len());
    let body = joined(entry_wires(samples, use_subsamples));
    assert(samples.skip(0) =~= samples);
    assert(s.subrange(at, at + 4) =~= t.subrange(0, 4));
    assert(t.subrange(0, 4) =~= be32(n as u32));
    lemma_be32_at(s, at, n as u32);
    assert(s.subrange(at + 4, at + 4 + body.len()) =~= t.subrange(4, w.len() as int));
    assert(t.subrange(4, w.len() as int) =~= body);
    lemma_entries_len(samples, 0, iv_size, use_subsamples);
    lemma_entries_round_trip(s, at + 4, samples, 0, iv_size, use_subsamples);
}

/// A `senc` record that can be written parses back as it was under its own
/// IV width, unless it holds more entries that take no bytes than a table
/// may.
pub proof fn law_senc_build_parse(b: SencView, tail: Seq<u8>)
    requires
        senc_refusal(b) is None,
        min_entry(flag1(b.flags), shared_iv_size(b.samples)) == 0 ==> b.samples.len()
            <= MAX_EMPTY_ENTRIES,
    ensures
        senc_of(senc_body(b) + tail, shared_iv_size(b.samples) as u8) == Ok::<
            SencView,
            CencError,
        >(b),
{
    let s = senc_body(b) + tail;
    let use_subsamples = flag1(b.flags);
    let w = table_wire(b.samples, use_subsamples);
    assert(s.subrange(1, 4) =~= be24(b.flags));
    lemma_be24_at(s, 1, b.flags);
    assert(s.subrange(4, 4 + w.len() as int) =~= w);
    law_table_build_parse(s, 4, b.samples, shared_iv_size(b.samples), use_subsamples);
}

proof fn lemma_parsed_entries(
    s: Seq<u8>,
    at: int,
    n: nat,
    use_subsamples: bool,
    iv_size: int,
)
    requires
        0 <= at,
        0 <= iv_size,
    ensures
        entries_of(s, at, n, use_subsamples, iv_size) matches Ok(v) ==> {
            &&& v.len() == n
            &&& forall|i: int|
                0 <= i < n ==> entry_refusal(#[trigger] v[i], i, iv_size, use_subsamples) is None
        },
    decreases n,
{
    if n > 0 {
        if let Ok((first, next)) = entry_of(s, at, use_subsamples, iv_size) {
            lemma_parsed_entries(s, next, (n - 1) as nat, use_subsamples, iv_size);
            if let Ok(rest) = entries_of(s, next, (n - 1) as nat, use_subsamples, iv_size) {
                let v = seq![first] + rest;
                assert forall|i: int| 0 <= i < n implies entry_refusal(
                    #[trigger] v[i],
                    i,
                    iv_size,
                    use_subsamples,
                ) is None by {
                    if i > 0 {
                        assert(v[i] == rest[i - 1]);
                        assert(entry_refusal(rest[i - 1], i - 1, iv_size, use_subsamples) is None);
                    }
                }
            }
        }
    }
}

proof fn lemma_no_refusal(
    samples: Seq<SencSampleView>,
    i: int,
    iv_size: int,
    use_subsamples: bool,
)
    requires
        0 <= i,
        forall|k: int|
            0 <= k < samples.len() ==> entry_refusal(
                #[trigger] samples[k],
                k,
                iv_size,
                use_subsamples,
            ) is None,
    ensures
        entries_refusal(samples, i, iv_size, use_subsamples) is None,
    decreases samples.len() - i,
{
    if i < samples.len() {
        lemma_no_refusal(samples, i + 1, iv_size, use_subsamples);
    }
}

/// A table that parses can be written under the same IV width.
pub proof fn law_parsed_table_is_buildable(
    s: Seq<u8>,
    at: int,
    use_subsamples: bool,
    iv_size: int,
)
    requires
        0 <= at,
        iv_width(iv_size),
    ensures
        table_of(s, at, use_subsamples, iv_size) matches Ok(v) ==> {
            &&& table_refusal(v, iv_size, use_subsamples) is None
            &&& v.len() > 0 ==> shared_iv_size(v) == iv_size
            &&& min_entry(use_subsamples, iv_size) == 0 ==> v.len() <= MAX_EMPTY_ENTRIES
        },
{
    if let Ok(v) = table_of(s, at, use_subsamples, iv_size) {
        lemma_parsed_entries(s, at + 4, be32_at(s, at) as nat, use_subsamples, iv_size);
        lemma_no_refusal(v, 0, iv_size, use_subsamples);
        if v.len() > 0 {
            assert(entry_refusal(v[0], 0, iv_size, use_subsamples) is None);
        }
    }
}

/// Every `senc` body that parses gives a record that can be written and
/// that parses again to the same record.
pub proof fn law_senc_parse_build_parse(s: Seq<u8>, iv_size: u8)
    ensures
        senc_of(s, iv_size) matches Ok(b) ==> senc_refusal(b) is None && senc_of(
            senc_body(b),
            iv_size,
        ) == Ok::<SencView, CencError>(b),
{
    if let Ok(b) = senc_of(s, iv_size) {
        law_parsed_table_is_buildable(s, 4, flag1(b.flags), iv_size as int);
        let t = senc_body(b);
        assert(be24_at(s, 1) <= 0xFF_FFFF);
        let w = table_wire(b.samples, flag1(b.flags));
        assert(t.subrange(1, 4) =~= be24(b.flags));
        lemma_be24_at(t, 1, b.flags);
        assert(t.subrange(4, 4 + w.len() as int) =~= w);
        if b.samples.len() == 0 {
            assert(table_refusal(b.samples, 0, flag1(b.flags)) is None);
        }
        law_table_build_parse(t, 4, b.samples, iv_size as int, flag1(b.flags));
    }
}

proof fn lemma_prefix_entry(s: Seq<u8>, cut: int, at: int, use_subsamples: bool, iv_size: int)
    requires
        0 <= cut <= s.len(),
        0 <= at,
        0 <= iv_size,
    ensures
        entry_of(s.take(cut), at, use_subsamples, iv_size) matches Ok(e) ==> {
            &&& entry_of(s, at, use_subsamples, iv_size) == Ok::<
                (SencSampleView, int),
                CencError,
            >(e)
            &&& e.1 == at + entry_wire(e.0, use_subsamples).len()
            &&& e.1 <= cut
        },
{
    let t = s.take(cut);
    if let Ok(e) = entry_of(t, at, use_subsamples, iv_size) {
        let c = at + iv_size;
        assert(t.subrange(at, c) =~= s.subrange(at, c));
        if use_subsamples {
            assert(t[c] == s[c] && t[c + 1] == s[c + 1]);
            let n = be16_at(s, c) as nat;
            assert forall|k: int| 0 <= k < n implies #[trigger] subsamples_of(t, c + 2, n)[k]
                == subsamples_of(s, c + 2, n)[k] by {
                let r = c + 2 + 6 * k;
                assert(t[r] == s[r] && t[r + 1] == s[r + 1] && t[r + 2] == s[r + 2] && t[r + 3]
                    == s[r + 3] && t[r + 4] == s[r + 4] && t[r + 5] == s[r + 5]);
            }
            assert(subsamples_of(t, c + 2, n) =~= subsamples_of(s, c + 2, n));
            lemma_joined_equal_parts(subsample_wires(e.0.subsamples), 6);
        }
    }
}

proof fn lemma_prefix_entries(
    s: Seq<u8>,
    cut: int,
    at: int,
    n: nat,
    use_subsamples: bool,
    iv_size: int,
)
    requires
        0 <= cut <= s.len(),
        0 <= at <= cut,
        0 <= iv_size,
    ensures
        entries_of(s.take(cut), at, n, use_subsamples, iv_size) matches Ok(v) ==> {
            &&& entries_of(s, at, n, use_subsamples, iv_size) == Ok::<
                Seq<SencSampleView>,
                CencError,
            >(v)
            &&& at + joined(entry_wires(v, use_subsamples)).len() <= cut
        },
    decreases n,
{
    if let Ok(v) = entries_of(s.take(cut), at, n, use_subsamples, iv_size) {
        if n > 0 {
            lemma_prefix_entry(s, cut, at, use_subsamples, iv_size);
            let (first, next) = entry_of(s.take(cut), at, use_subsamples, iv_size)->Ok_0;
            lemma_prefix_entries(s, cut, next, (n - 1) as nat, use_subsamples, iv_size);
            let wires = entry_wires(v, use_subsamples);
            lemma_joined_first(wires);
            assert(wires.drop_first() =~= entry_wires(v.drop_first(), use_subsamples));
            assert(v.drop_first() =~= entries_of(
                s.take(cut),
                next,
                (n - 1) as nat,
                use_subsamples,
                iv_size,
            )->Ok_0);
        } else {
            assert(entry_wires(v, use_subsamples) =~= Seq::<Seq<u8>>::empty());
        }
    }
}

/// Nothing shorter than a written table parses as a table.
pub proof fn law_truncated_table_is_refused(
    s: Seq<u8>,
    at: int,
    samples: Seq<SencSampleView>,
    iv_size: int,
    use_subsamples: bool,
    cut: int,
)
    requires
        0 <= at,
        0 <= iv_size,
        s.len() == at + table_wire(samples, use_subsamples).len(),
        s.subrange(at, s.len() as int) == table_wire(samples, use_subsamples),
        table_refusal(samples, iv_size, use_subsamples) is None,
        0 <= cut < s.len(),
    ensures
        table_of(s.take(cut), at, use_subsamples, iv_size) is Err,
{
    let t = s.take(cut);
    if t.len() >= at + 4 {
        let n = samples.len();
        let w = table_wire(samples, use_subsamples);
        let body = joined(entry_wires(samples, use_subsamples));
        assert(s.subrange(at, at + 4) =~= w.subrange(0, 4));
        assert(w.subrange(0, 4) =~= be32(n as u32));
        lemma_be32_at(s, at, n as u32);
        assert(t.subrange(at, at + 4) =~= s.subrange(at, at + 4));
        lemma_be32_at(t, at, n as u32);
        assert(samples.skip(0) =~= samples);
        assert(s.subrange(at + 4, at + 4 + body.len()) =~= w.subrange(4, w.len() as int));
        assert(w.subrange(4, w.len() as int) =~= body);
        lemma_entries_round_trip(s, at + 4, samples, 0, iv_size, use_subsamples);
        lemma_prefix_entries(s, cut, at + 4, n, use_subsamples, iv_size);
    }
}

/// Every body shorter than a written `senc` body is refused under the same
/// IV width.
pub proof fn law_truncated_senc_is_refused(b: SencView, cut: int)
    requires
        senc_refusal(b) is None,
        0 <= cut < senc_body(b).len(),
    ensures
        senc_of(senc_body(b).take(cut), shared_iv_size(b.samples) as u8) is Err,
{
    let s = senc_body(b);
    let t = s.take(cut);
    if t.len() >= 8 {
        let w = table_wire(b.samples, flag1(b.flags));
        assert(t.subrange(1, 4) =~= be24(b.flags));
        lemma_be24_at(t, 1, b.flags);
        assert(s.subrange(4, s.len() as int) =~= w);
        law_truncated_table_is_refused(
            s,
            4,
            b.samples,
            shared_iv_size(b.samples),
            flag1(b.flags),
            cut,
        );
    }
}

} // verus!
