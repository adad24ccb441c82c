//! Reading `tfhd` and `trun` gives back the samples that they were written
//! for.

use crate::bytes::{
    be24, be24_at, be32, be32_at, bits32, law_signed_words, lemma_be24_at, lemma_be32_at, signed32,
    size_field,
};
use crate::frag::run::{
    defaults_of, durations_of, field_if, flags_of, has_offsets, opt_wire, sizes_of, tfhd_body,
    tfhd_flags, trun_body, trun_flags, trun_row, trun_rows, FragmentDefaults, SampleView,
};
use crate::seqs::{holds_at, joined, lemma_holds_split, lemma_joined_equal_parts};
use vstd::prelude::*;

verus! {

// ---------------------------------------------------------------------
// A reader
// ---------------------------------------------------------------------

/// The bit of worth `bit` is set.
pub open spec fn has_bit(flags: u32, bit: int) -> bool {
    (flags as int / bit) % 2 == 1
}

/// Four bytes for a field that is there.
pub open spec fn width_if(condition: bool) -> int {
    if condition {
        4
    } else {
        0
    }
}

/// The flags of a full box.
pub open spec fn box_flags(body: Seq<u8>) -> u32 {
    be24_at(body, 1)
}

/// The default duration that a `tfhd` body states.
pub open spec fn stated_duration(tfhd: Seq<u8>) -> u32 {
    be32_at(tfhd, 8)
}

/// The default size that a `tfhd` body states.
pub open spec fn stated_size(tfhd: Seq<u8>) -> u32 {
    be32_at(tfhd, 8 + width_if(has_bit(box_flags(tfhd), 0x8)))
}

/// The default flags that a `tfhd` body states.
pub open spec fn stated_flags(tfhd: Seq<u8>) -> u32 {
    be32_at(
        tfhd,
        8 + width_if(has_bit(box_flags(tfhd), 0x8)) + width_if(has_bit(box_flags(tfhd), 0x10)),
    )
}

/// How wide a row of a `trun` body is.
pub open spec fn row_width(trun: Seq<u8>) -> int {
    let f = box_flags(trun);
    width_if(has_bit(f, 0x100)) + width_if(has_bit(f, 0x200)) + width_if(has_bit(f, 0x400))
        + width_if(has_bit(f, 0x800))
}

/// Where the `i`-th row of a `trun` body starts.
pub open spec fn row_start(trun: Seq<u8>, i: int) -> int {
    12 + width_if(has_bit(box_flags(trun), 0x4)) + row_width(trun) * i
}

/// The duration of the `i`-th sample.
pub open spec fn read_duration(tfhd: Seq<u8>, trun: Seq<u8>, i: int) -> u32 {
    if has_bit(box_flags(trun), 0x100) {
        be32_at(trun, row_start(trun, i))
    } else {
        stated_duration(tfhd)
    }
}

/// The size of the `i`-th sample.
pub open spec fn read_size(tfhd: Seq<u8>, trun: Seq<u8>, i: int) -> u32 {
    if has_bit(box_flags(trun), 0x200) {
        be32_at(trun, row_start(trun, i) + width_if(has_bit(box_flags(trun), 0x100)))
    } else {
        stated_size(tfhd)
    }
}

/// The flags of the `i`-th sample.
pub open spec fn read_flags(tfhd: Seq<u8>, trun: Seq<u8>, i: int) -> u32 {
    if i == 0 && has_bit(box_flags(trun), 0x4) {
        be32_at(trun, 12)
    } else if has_bit(box_flags(trun), 0x400) {
        be32_at(
            trun,
            row_start(trun, i) + width_if(has_bit(box_flags(trun), 0x100)) + width_if(
                has_bit(box_flags(trun), 0x200),
            ),
        )
    } else {
        stated_flags(tfhd)
    }
}

/// The bits of the composition time offset of the `i`-th sample.
pub open spec fn read_offset(trun: Seq<u8>, i: int) -> u32 {
    if has_bit(box_flags(trun), 0x800) {
        be32_at(
            trun,
            row_start(trun, i) + width_if(has_bit(box_flags(trun), 0x100)) + width_if(
                has_bit(box_flags(trun), 0x200),
            ) + width_if(has_bit(box_flags(trun), 0x400)),
        )
    } else {
        0
    }
}

/// How many samples a `trun` body counts.
pub open spec fn read_count(trun: Seq<u8>) -> u32 {
    be32_at(trun, 4)
}

/// The bits of the data offset of a `trun` body.
pub open spec fn read_data_offset(trun: Seq<u8>) -> u32 {
    be32_at(trun, 8)
}

// ---------------------------------------------------------------------
// Laws
// ---------------------------------------------------------------------

/// The flags of a header say which defaults it has.
proof fn lemma_tfhd_bits(d: FragmentDefaults)
    ensures
        tfhd_flags(d) <= 0xFF_FFFF,
        has_bit(tfhd_flags(d), 0x8) == (d.homogeneous_duration is Some),
        has_bit(tfhd_flags(d), 0x10) == (d.homogeneous_size is Some),
        has_bit(tfhd_flags(d), 0x20) == (d.homogeneous_flags is Some),
{
}

/// The flags of a run say which fields its rows have.
proof fn lemma_trun_bits(d: FragmentDefaults, offsets: bool)
    ensures
        trun_flags(d, offsets) <= 0xFF_FFFF,
        has_bit(trun_flags(d, offsets), 0x4) == d.first_sample_distinct,
        has_bit(trun_flags(d, offsets), 0x100) == (d.homogeneous_duration is None),
        has_bit(trun_flags(d, offsets), 0x200) == (d.homogeneous_size is None),
        has_bit(trun_flags(d, offsets), 0x400) == (d.homogeneous_flags is None),
        has_bit(trun_flags(d, offsets), 0x800) == offsets,
{
}

/// A header states the defaults that it was written with.
proof fn lemma_tfhd_reads_back(track_id: u32, d: FragmentDefaults)
    ensures
        ({
            let h = tfhd_body(track_id, d);
            &&& box_flags(h) == tfhd_flags(d)
            &&& be32_at(h, 4) == track_id
            &&& d.homogeneous_duration matches Some(x) ==> stated_duration(h) == x
            &&& d.homogeneous_size matches Some(x) ==> stated_size(h) == x
            &&& d.homogeneous_flags matches Some(x) ==> stated_flags(h) == x
        }),
{
    let h = tfhd_body(track_id, d);
    lemma_tfhd_bits(d);
    let flags = be24(tfhd_flags(d));
    let a = opt_wire(d.homogeneous_duration);
    let b = opt_wire(d.homogeneous_size);
    let c = opt_wire(d.homogeneous_flags);
    assert(h.subrange(0, h.len() as int) =~= h);
    lemma_holds_split(h, 0, seq![0u8] + flags + be32(track_id) + a + b, c);
    lemma_holds_split(h, 0, seq![0u8] + flags + be32(track_id) + a, b);
    lemma_holds_split(h, 0, seq![0u8] + flags + be32(track_id), a);
    lemma_holds_split(h, 0, seq![0u8] + flags, be32(track_id));
    lemma_holds_split(h, 0, seq![0u8], flags);
    lemma_be24_at(h, 1, tfhd_flags(d));
    lemma_be32_at(h, 4, track_id);
    if let Some(x) = d.homogeneous_duration {
        lemma_be32_at(h, 8, x);
    }
    if let Some(x) = d.homogeneous_size {
        lemma_be32_at(h, 8 + a.len() as int, x);
    }
    if let Some(x) = d.homogeneous_flags {
        lemma_be32_at(h, 8 + a.len() as int + b.len(), x);
    }
}

/// The fields before the rows read back.
proof fn lemma_trun_head(s: Seq<SampleView>, data_offset: i32, d: FragmentDefaults)
    ensures
        ({
            let r = trun_body(s, data_offset, d);
            let first = field_if(d.first_sample_distinct, d.first_sample_flags);
            &&& box_flags(r) == trun_flags(d, has_offsets(s))
            &&& read_count(r) == size_field(s.len())
            &&& read_data_offset(r) == bits32(data_offset)
            &&& d.first_sample_distinct ==> be32_at(r, 12) == d.first_sample_flags
            &&& holds_at(r, 12 + first.len() as int, joined(trun_rows(s, d, has_offsets(s))))
        }),
{
    let r = trun_body(s, data_offset, d);
    let offsets = has_offsets(s);
    lemma_trun_bits(d, offsets);
    let flags = be24(trun_flags(d, offsets));
    let count = be32(size_field(s.len()));
    let at = be32(bits32(data_offset));
    let first = field_if(d.first_sample_distinct, d.first_sample_flags);
    let rows = joined(trun_rows(s, d, offsets));
    assert(r.subrange(0, r.len() as int) =~= r);
    lemma_holds_split(r, 0, seq![1u8] + flags + count + at + first, rows);
    lemma_holds_split(r, 0, seq![1u8] + flags + count + at, first);
    lemma_holds_split(r, 0, seq![1u8] + flags + count, at);
    lemma_holds_split(r, 0, seq![1u8] + flags, count);
    lemma_holds_split(r, 0, seq![1u8], flags);
    lemma_be24_at(r, 1, trun_flags(d, offsets));
    lemma_be32_at(r, 4, size_field(s.len()));
    lemma_be32_at(r, 8, bits32(data_offset));
    if d.first_sample_distinct {
        lemma_be32_at(r, 12, d.first_sample_flags);
    }
}

/// The fields of a row read back from where the row stands.
proof fn lemma_row_fields(r: Seq<u8>, at: int, s: SampleView, d: FragmentDefaults, offsets: bool)
    requires
        holds_at(r, at, trun_row(s, d, offsets)),
    ensures
        ({
            let a = width_if(d.homogeneous_duration is None);
            let b = width_if(d.homogeneous_size is None);
            let c = width_if(d.homogeneous_flags is None);
            &&& d.homogeneous_duration is None ==> be32_at(r, at) == s.duration
            &&& d.homogeneous_size is None ==> be32_at(r, at + a) == size_field(s.data.len())
            &&& d.homogeneous_flags is None ==> be32_at(r, at + a + b) == s.flags
            &&& offsets ==> be32_at(r, at + a + b + c) == bits32(s.composition_time_offset)
        }),
{
    let a = field_if(d.homogeneous_duration is None, s.duration);
    let b = field_if(d.homogeneous_size is None, size_field(s.data.len()));
    let c = field_if(d.homogeneous_flags is None, s.flags);
    let e = field_if(offsets, bits32(s.composition_time_offset));
    lemma_holds_split(r, at, a + b + c, e);
    lemma_holds_split(r, at, a + b, c);
    lemma_holds_split(r, at, a, b);
    if d.homogeneous_duration is None {
        lemma_be32_at(r, at, s.duration);
    }
    if d.homogeneous_size is None {
        lemma_be32_at(r, at + a.len(), size_field(s.data.len()));
    }
    if d.homogeneous_flags is None {
        lemma_be32_at(r, at + a.len() + b.len(), s.flags);
    }
    if offsets {
        lemma_be32_at(
            r,
            at + a.len() + b.len() + c.len(),
            bits32(s.composition_time_offset),
        );
    }
}

/// What a header or run leaves out, the samples share.
proof fn lemma_defaults_hold(s: Seq<SampleView>, i: int)
    requires
        0 <= i < s.len(),
    ensures
        ({
            let d = defaults_of(s);
            &&& d.homogeneous_duration matches Some(x) ==> s[i].duration == x
            &&& d.homogeneous_size matches Some(x) ==> size_field(s[i].data.len()) == x
            &&& d.first_sample_distinct && i == 0 ==> s[i].flags == d.first_sample_flags
            &&& d.homogeneous_flags matches Some(x) ==> !(d.first_sample_distinct && i == 0)
                ==> s[i].flags == x
        }),
{
    let d = defaults_of(s);
    assert(durations_of(s)[i] == s[i].duration);
    assert(sizes_of(s)[i] == size_field(s[i].data.len()));
    assert(flags_of(s)[i] == s[i].flags);
    if d.first_sample_distinct && i > 0 {
        assert(flags_of(s).drop_first()[i - 1] == s[i].flags);
    }
}

/// Where the `i`-th row stands in the run.
proof fn lemma_row_at(s: Seq<SampleView>, data_offset: i32, d: FragmentDefaults, i: int)
    requires
        0 <= i < s.len(),
    ensures
        ({
            let r = trun_body(s, data_offset, d);
            holds_at(r, row_start(r, i), trun_row(s[i], d, has_offsets(s)))
        }),
{
    let r = trun_body(s, data_offset, d);
    let offsets = has_offsets(s);
    let rows = trun_rows(s, d, offsets);
    lemma_trun_head(s, data_offset, d);
    lemma_trun_bits(d, offsets);
    let w = row_width(r);
    let head = 12 + field_if(d.first_sample_distinct, d.first_sample_flags).len() as int;
    assert forall|k: int| 0 <= k < rows.len() implies (#[trigger] rows[k]).len() == w by {
        assert(rows[k] == trun_row(s[k], d, offsets));
    }
    lemma_joined_equal_parts(rows, w);
    assert(0 <= w * i && w * i + w <= w * rows.len()) by (nonlinear_arith)
        requires
            0 <= i < rows.len(),
            w >= 0,
    ;
    let all = joined(rows);
    assert(all.subrange(w * i, w * i + w) == rows[i]);
    let t = r.subrange(head, head + all.len());
    assert(r.subrange(head + w * i, head + w * i + w) =~= t.subrange(w * i, w * i + w));
}

/// The versions of a header and a run, and how long they are.
proof fn lemma_run_shape(track_id: u32, s: Seq<SampleView>, data_offset: i32, d: FragmentDefaults)
    ensures
        ({
            let tfhd = tfhd_body(track_id, d);
            let trun = trun_body(s, data_offset, d);
            &&& tfhd[0] == 0
            &&& tfhd.len() == 8 + width_if(d.homogeneous_duration is Some) + width_if(
                d.homogeneous_size is Some,
            ) + width_if(d.homogeneous_flags is Some)
            &&& trun[0] == 1
            &&& trun.len() == row_start(trun, s.len() as int)
        }),
{
    let trun = trun_body(s, data_offset, d);
    let offsets = has_offsets(s);
    let rows = trun_rows(s, d, offsets);
    lemma_trun_head(s, data_offset, d);
    lemma_trun_bits(d, offsets);
    let w = row_width(trun);
    assert forall|k: int| 0 <= k < rows.len() implies (#[trigger] rows[k]).len() == w by {
        assert(rows[k] == trun_row(s[k], d, offsets));
    }
    lemma_joined_equal_parts(rows, w);
}

/// From the header and the run of a fragment a reader gets the count, the
/// data offset, and of every sample the duration, size, flags and
/// composition time offset that it was written with. Counts and sizes are
/// kept to 32 bits, and offsets are signed.
pub proof fn law_run_reads_back(track_id: u32, s: Seq<SampleView>, data_offset: i32, i: int)
    requires
        0 <= i < s.len(),
    ensures
        ({
            let tfhd = tfhd_body(track_id, defaults_of(s));
            let trun = trun_body(s, data_offset, defaults_of(s));
            &&& be32_at(tfhd, 4) == track_id
            &&& read_count(trun) == s.len() % 0x1_0000_0000
            &&& signed32(read_data_offset(trun)) == data_offset
            &&& read_duration(tfhd, trun, i) == s[i].duration
            &&& read_size(tfhd, trun, i) == s[i].data.len() % 0x1_0000_0000
            &&& read_flags(tfhd, trun, i) == s[i].flags
            &&& signed32(read_offset(trun, i)) == s[i].composition_time_offset
        }),
{
    let d = defaults_of(s);
    let offsets = has_offsets(s);
    let trun = trun_body(s, data_offset, d);
    lemma_tfhd_reads_back(track_id, d);
    lemma_trun_head(s, data_offset, d);
    lemma_trun_bits(d, offsets);
    lemma_row_at(s, data_offset, d, i);
    lemma_row_fields(trun, row_start(trun, i), s[i], d, offsets);
    lemma_defaults_hold(s, i);
    if !offsets {
        assert(s[i].composition_time_offset == 0);
    }
    law_signed_words(data_offset, 0);
    law_signed_words(s[i].composition_time_offset, 0);
}

/// The flags of a header and a run besides those that say what fields there
/// are.
proof fn lemma_fixed_bits(d: FragmentDefaults, offsets: bool)
    ensures
        has_bit(tfhd_flags(d), 0x2_0000),
        tfhd_flags(d) % 0x8 == 0,
        tfhd_flags(d) % 0x2_0000 < 0x40,
        tfhd_flags(d) < 0x4_0000,
        has_bit(trun_flags(d, offsets), 0x1),
        trun_flags(d, offsets) < 0x1000,
        trun_flags(d, offsets) % 0x100 == 1 || trun_flags(d, offsets) % 0x100 == 5,
{
}

/// The header of a fragment is of version 0, its offsets are relative to the
/// movie fragment, and it has no flags besides those of its defaults. The
/// run is of version 1, whose composition time offsets are signed, and has a
/// data offset, maybe the flags of a first sample, and rows that end with it.
pub proof fn law_run_shape(track_id: u32, s: Seq<SampleView>, data_offset: i32)
    ensures
        ({
            let tfhd = tfhd_body(track_id, defaults_of(s));
            let trun = trun_body(s, data_offset, defaults_of(s));
            &&& tfhd[0] == 0
            &&& has_bit(box_flags(tfhd), 0x2_0000)
            &&& box_flags(tfhd) % 0x8 == 0 && box_flags(tfhd) % 0x2_0000 < 0x40
                && box_flags(tfhd) < 0x4_0000
            &&& tfhd.len() == 8 + width_if(has_bit(box_flags(tfhd), 0x8)) + width_if(
                has_bit(box_flags(tfhd), 0x10),
            ) + width_if(has_bit(box_flags(tfhd), 0x20))
            &&& trun[0] == 1
            &&& has_bit(box_flags(trun), 0x1)
            &&& box_flags(trun) < 0x1000 && (box_flags(trun) % 0x100 == 1 || box_flags(trun) % 0x100
                == 5)
            &&& trun.len() == row_start(trun, s.len() as int)
        }),
{
    let d = defaults_of(s);
    lemma_tfhd_reads_back(track_id, d);
    lemma_trun_head(s, data_offset, d);
    lemma_tfhd_bits(d);
    lemma_trun_bits(d, has_offsets(s));
    lemma_fixed_bits(d, has_offsets(s));
    lemma_run_shape(track_id, s, data_offset, d);
}

} // verus!
