//! The samples of a track fragment, and how `tfhd` and `trun` describe
//! them: what all samples share stands in the header, the rest in the run.

use crate::boxes::{TFHD, TRUN};
use crate::bytes::{
    be24, be32, bits32, boxed, low32, put_i32, put_u24, put_u32, put_u8, size_field, wrap_box,
};
use crate::seqs::{joined, lemma_joined_all, lemma_joined_none, lemma_joined_step};
use vstd::prelude::*;

verus! {

/// The flag of a sample that is no sync sample.
pub const SAMPLE_IS_NON_SYNC: u32 = 0x0001_0000;

/// The flags of a sample that depends on no other.
pub const SAMPLE_DEPENDS_ON_NONE: u32 = 0x0200_0000;

/// The flags of a sample.
pub open spec fn flags_for(keyframe: bool) -> u32 {
    if keyframe {
        SAMPLE_DEPENDS_ON_NONE
    } else {
        SAMPLE_IS_NON_SYNC
    }
}

/// The flags of a sample.
pub fn sample_flags_for(keyframe: bool) -> (r: u32)
    ensures
        r == flags_for(keyframe),
{
    if keyframe {
        SAMPLE_DEPENDS_ON_NONE
    } else {
        SAMPLE_IS_NON_SYNC
    }
}

/// The flags mark a sync sample.
pub open spec fn is_sync(flags: u32) -> bool {
    (flags / 0x1_0000) % 2 == 0
}

/// Whether flags mark a sync sample.
pub fn marks_sync(flags: u32) -> (r: bool)
    ensures
        r == is_sync(flags),
{
    (flags / 0x1_0000) % 2 == 0
}

/// A sample that waits for its fragment.
#[derive(Clone, Debug, PartialEq, Eq)]
pub struct PendingSample {
    /// The bytes.
    pub data: Vec<u8>,
    /// How long it lasts, in ticks of the media clock.
    pub duration: u32,
    /// Its flags.
    pub flags: u32,
    /// How far presentation is from decoding.
    pub composition_time_offset: i32,
}

/// The value of a [`PendingSample`].
#[verifier::ext_equal]
pub struct SampleView {
    pub data: Seq<u8>,
    pub duration: u32,
    pub flags: u32,
    pub composition_time_offset: i32,
}

impl View for PendingSample {
    type V = SampleView;

    open spec fn view(&self) -> SampleView {
        SampleView {
            data: self.data@,
            duration: self.duration,
            flags: self.flags,
            composition_time_offset: self.composition_time_offset,
        }
    }
}

/// The values of samples.
pub open spec fn sample_views(s: Seq<PendingSample>) -> Seq<SampleView> {
    Seq::new(s.len(), |i: int| s[i]@)
}

/// How long the samples last together.
pub open spec fn total_duration(s: Seq<SampleView>) -> nat
    decreases s.len(),
{
    if s.len() == 0 {
        0
    } else {
        total_duration(s.drop_last()) + s.last().duration as nat
    }
}

/// The bytes of the samples, one after the other.
pub open spec fn media_of(s: Seq<SampleView>) -> Seq<u8> {
    joined(Seq::new(s.len(), |i: int| s[i].data))
}

// ---------------------------------------------------------------------
// What samples share
// ---------------------------------------------------------------------

/// The value that all entries share.
pub open spec fn shared(values: Seq<u32>) -> Option<u32> {
    if values.len() > 0 && forall|i: int| 0 <= i < values.len() ==> #[trigger] values[i]
        == values[0] {
        Some(values[0])
    } else {
        None
    }
}

/// The sizes of samples.
pub open spec fn sizes_of(s: Seq<SampleView>) -> Seq<u32> {
    Seq::new(s.len(), |i: int| size_field(s[i].data.len()))
}

/// The durations of samples.
pub open spec fn durations_of(s: Seq<SampleView>) -> Seq<u32> {
    Seq::new(s.len(), |i: int| s[i].duration)
}

/// The flags of samples.
pub open spec fn flags_of(s: Seq<SampleView>) -> Seq<u32> {
    Seq::new(s.len(), |i: int| s[i].flags)
}

/// What the samples of a fragment share.
#[derive(Clone, Copy, Debug, PartialEq, Eq)]
pub struct FragmentDefaults {
    /// The size of all samples.
    pub homogeneous_size: Option<u32>,
    /// The duration of all samples.
    pub homogeneous_duration: Option<u32>,
    /// The flags of all samples, or of all but the first.
    pub homogeneous_flags: Option<u32>,
    /// Whether the first sample has flags of its own.
    pub first_sample_distinct: bool,
    /// The flags of that first sample.
    pub first_sample_flags: u32,
}

/// What the samples of a fragment share.
pub open spec fn defaults_of(s: Seq<SampleView>) -> FragmentDefaults {
    let flags = flags_of(s);
    let first_apart = shared(flags) is None && s.len() > 1 && shared(flags.drop_first()) is Some;
    FragmentDefaults {
        homogeneous_size: shared(sizes_of(s)),
        homogeneous_duration: shared(durations_of(s)),
        homogeneous_flags: if first_apart {
            shared(flags.drop_first())
        } else {
            shared(flags)
        },
        first_sample_distinct: first_apart,
        first_sample_flags: if first_apart {
            flags[0]
        } else {
            0
        },
    }
}

/// The value that all entries from `from` on share.
fn find_shared(values: &Vec<u32>, from: usize) -> (r: Option<u32>)
    requires
        from <= values@.len(),
    ensures
        r == shared(values@.skip(from as int)),
{
    let ghost tail = values@.skip(from as int);
    if from == values.len() {
        return None;
    }
    let mut i: usize = from;
    while i < values.len()
        invariant
            from <= i <= values.len(),
            from < values.len(),
            tail == values@.skip(from as int),
            forall|k: int| 0 <= k < i - from ==> #[trigger] tail[k] == tail[0],
        decreases values.len() - i,
    {
        assert(tail[i - from] == values@[i as int]);
        if values[i] != values[from] {
            return None;
        }
        i = i + 1;
    }
    Some(values[from])
}

impl FragmentDefaults {
    /// What the samples of a fragment share.
    pub fn for_track(pending: &Vec<PendingSample>) -> (r: FragmentDefaults)
        ensures
            r == defaults_of(sample_views(pending@)),
    {
        let ghost s = sample_views(pending@);
        let mut sizes: Vec<u32> = Vec::new();
        let mut durations: Vec<u32> = Vec::new();
        let mut flags: Vec<u32> = Vec::new();
        let mut i: usize = 0;
        while i < pending.len()
            invariant
                i <= pending.len(),
                s == sample_views(pending@),
                sizes@ == sizes_of(s).take(i as int),
                durations@ == durations_of(s).take(i as int),
                flags@ == flags_of(s).take(i as int),
            decreases pending.len() - i,
        {
            sizes.push(low32(pending[i].data.len()));
            durations.push(pending[i].duration);
            flags.push(pending[i].flags);
            assert(sizes@ =~= sizes_of(s).take(i + 1));
            assert(durations@ =~= durations_of(s).take(i + 1));
            assert(flags@ =~= flags_of(s).take(i + 1));
            i = i + 1;
        }
        assert(sizes@ =~= sizes_of(s));
        assert(durations@ =~= durations_of(s));
        assert(flags@ =~= flags_of(s));
        assert(sizes@.skip(0) =~= sizes@);
        assert(durations@.skip(0) =~= durations@);
        assert(flags@.skip(0) =~= flags@);
        let homogeneous_size: Option<u32> = find_shared(&sizes, 0);
        let homogeneous_duration: Option<u32> = find_shared(&durations, 0);
        let all: Option<u32> = find_shared(&flags, 0);
        if all.is_none() && flags.len() > 1 {
            let tail: Option<u32> = find_shared(&flags, 1);
            assert(flags@.skip(1) =~= flags@.drop_first());
            if tail.is_some() {
                return FragmentDefaults {
                    homogeneous_size,
                    homogeneous_duration,
                    homogeneous_flags: tail,
                    first_sample_distinct: true,
                    first_sample_flags: flags[0],
                };
            }
        }
        FragmentDefaults {
            homogeneous_size,
            homogeneous_duration,
            homogeneous_flags: all,
            first_sample_distinct: false,
            first_sample_flags: 0,
        }
    }
}

// ---------------------------------------------------------------------
// The header
// ---------------------------------------------------------------------

/// An optional field on the wire.
pub open spec fn opt_wire(v: Option<u32>) -> Seq<u8> {
    match v {
        Some(x) => be32(x),
        None => Seq::empty(),
    }
}

/// `bit`, where a condition holds.
pub open spec fn bit_if(condition: bool, bit: u32) -> u32 {
    if condition {
        bit
    } else {
        0
    }
}

/// The flags of a track fragment header: offsets are relative to the movie
/// fragment, and each default that is there has its bit.
pub open spec fn tfhd_flags(d: FragmentDefaults) -> u32 {
    (0x2_0000 + bit_if(d.homogeneous_duration is Some, 0x8) + bit_if(
        d.homogeneous_size is Some,
        0x10,
    ) + bit_if(d.homogeneous_flags is Some, 0x20)) as u32
}

/// The body of a `tfhd` box.
pub open spec fn tfhd_body(track_id: u32, d: FragmentDefaults) -> Seq<u8> {
    seq![0u8] + be24(tfhd_flags(d)) + be32(track_id) + opt_wire(d.homogeneous_duration) + opt_wire(
        d.homogeneous_size,
    ) + opt_wire(d.homogeneous_flags)
}

/// Append an optional field.
fn put_opt(out: &mut Vec<u8>, v: Option<u32>)
    ensures
        final(out)@ == old(out)@ + opt_wire(v),
{
    match v {
        Some(x) => put_u32(out, x),
        None => {},
    }
    assert(out@ =~= old(out)@ + opt_wire(v));
}

/// `bit`, where a condition holds.
fn bit_where(condition: bool, bit: u32) -> (r: u32)
    ensures
        r == bit_if(condition, bit),
{
    if condition {
        bit
    } else {
        0
    }
}

/// Serialise a `tfhd` box.
pub fn build_tfhd(track_id: u32, d: FragmentDefaults) -> (r: Vec<u8>)
    ensures
        r@ == boxed(TFHD, tfhd_body(track_id, d)),
{
    let flags: u32 = 0x2_0000 + bit_where(d.homogeneous_duration.is_some(), 0x8) + bit_where(
        d.homogeneous_size.is_some(),
        0x10,
    ) + bit_where(d.homogeneous_flags.is_some(), 0x20);
    let mut body: Vec<u8> = Vec::new();
    put_u8(&mut body, 0);
    put_u24(&mut body, flags);
    put_u32(&mut body, track_id);
    put_opt(&mut body, d.homogeneous_duration);
    put_opt(&mut body, d.homogeneous_size);
    put_opt(&mut body, d.homogeneous_flags);
    assert(body@ =~= tfhd_body(track_id, d));
    wrap_box(&TFHD, body.as_slice())
}

// ---------------------------------------------------------------------
// The run
// ---------------------------------------------------------------------

/// Some sample is presented at another time than it is decoded.
pub open spec fn has_offsets(s: Seq<SampleView>) -> bool {
    exists|i: int| 0 <= i < s.len() && (#[trigger] s[i]).composition_time_offset != 0
}

/// The flags of a run: a data offset is always there, and each field that
/// the rows have has its bit.
pub open spec fn trun_flags(d: FragmentDefaults, offsets: bool) -> u32 {
    (1 + bit_if(d.first_sample_distinct, 0x4) + bit_if(d.homogeneous_duration is None, 0x100)
        + bit_if(d.homogeneous_size is None, 0x200) + bit_if(d.homogeneous_flags is None, 0x400)
        + bit_if(offsets, 0x800)) as u32
}

/// A field of a row, where the rows have it.
pub open spec fn field_if(condition: bool, x: u32) -> Seq<u8> {
    if condition {
        be32(x)
    } else {
        Seq::empty()
    }
}

/// The row of a sample: the fields that the header does not give.
pub open spec fn trun_row(s: SampleView, d: FragmentDefaults, offsets: bool) -> Seq<u8> {
    field_if(d.homogeneous_duration is None, s.duration) + field_if(
        d.homogeneous_size is None,
        size_field(s.data.len()),
    ) + field_if(d.homogeneous_flags is None, s.flags) + field_if(
        offsets,
        bits32(s.composition_time_offset),
    )
}

/// The rows of samples.
pub open spec fn trun_rows(s: Seq<SampleView>, d: FragmentDefaults, offsets: bool) -> Seq<Seq<u8>> {
    Seq::new(s.len(), |i: int| trun_row(s[i], d, offsets))
}

/// The body of a `trun` box.
pub open spec fn trun_body(s: Seq<SampleView>, data_offset: i32, d: FragmentDefaults) -> Seq<u8> {
    seq![1u8] + be24(trun_flags(d, has_offsets(s))) + be32(size_field(s.len())) + be32(
        bits32(data_offset),
    ) + field_if(d.first_sample_distinct, d.first_sample_flags) + joined(
        trun_rows(s, d, has_offsets(s)),
    )
}

/// Whether some sample is presented at another time than it is decoded.
fn find_offsets(pending: &Vec<PendingSample>) -> (r: bool)
    ensures
        r == has_offsets(sample_views(pending@)),
{
    let ghost s = sample_views(pending@);
    let mut i: usize = 0;
    while i < pending.len()
        invariant
            i <= pending.len(),
            s == sample_views(pending@),
            forall|k: int| 0 <= k < i ==> (#[trigger] s[k]).composition_time_offset == 0,
        decreases pending.len() - i,
    {
        if pending[i].composition_time_offset != 0 {
            assert(s[i as int].composition_time_offset != 0);
            return true;
        }
        i = i + 1;
    }
    false
}

/// Append the row of a sample.
fn put_row(out: &mut Vec<u8>, s: &PendingSample, d: FragmentDefaults, offsets: bool)
    ensures
        final(out)@ == old(out)@ + trun_row(s@, d, offsets),
{
    if d.homogeneous_duration.is_none() {
        put_u32(out, s.duration);
    }
    if d.homogeneous_size.is_none() {
        put_u32(out, low32(s.data.len()));
    }
    if d.homogeneous_flags.is_none() {
        put_u32(out, s.flags);
    }
    if offsets {
        put_i32(out, s.composition_time_offset);
    }
    assert(out@ =~= old(out)@ + trun_row(s@, d, offsets));
}

/// Serialise a `trun` box.
pub fn build_trun(pending: &Vec<PendingSample>, data_offset: i32, d: FragmentDefaults) -> (r: Vec<
    u8,
>)
    ensures
        r@ == boxed(TRUN, trun_body(sample_views(pending@), data_offset, d)),
{
    let ghost s = sample_views(pending@);
    let offsets: bool = find_offsets(pending);
    let flags: u32 = 1 + bit_where(d.first_sample_distinct, 0x4) + bit_where(
        d.homogeneous_duration.is_none(),
        0x100,
    ) + bit_where(d.homogeneous_size.is_none(), 0x200) + bit_where(
        d.homogeneous_flags.is_none(),
        0x400,
    ) + bit_where(offsets, 0x800);
    let mut body: Vec<u8> = Vec::new();
    put_u8(&mut body, 1);
    put_u24(&mut body, flags);
    put_u32(&mut body, low32(pending.len()));
    put_i32(&mut body, data_offset);
    if d.first_sample_distinct {
        put_u32(&mut body, d.first_sample_flags);
    }
    let ghost head = body@;
    let ghost rows = trun_rows(s, d, offsets);
    let mut i: usize = 0;
    proof {
        lemma_joined_none(rows);
    }
    while i < pending.len()
        invariant
            i <= pending.len(),
            s == sample_views(pending@),
            rows == trun_rows(s, d, offsets),
            body@ == head + joined(rows.take(i as int)),
        decreases pending.len() - i,
    {
        put_row(&mut body, &pending[i], d, offsets);
        proof {
            lemma_joined_step(rows, i as int);
            assert(body@ =~= head + joined(rows.take(i + 1)));
        }
        i = i + 1;
    }
    proof {
        lemma_joined_all(rows);
    }
    assert(body@ =~= trun_body(s, data_offset, d));
    wrap_box(&TRUN, body.as_slice())
}

} // verus!
