//! `elst`: how a track's media is laid out on the movie's timeline.

use crate::boxes::ELST;
use crate::bytes::{
    be16, be16_at, be32, be32_at, be64, be64_at, bits32, bits64, boxed, law_signed_words,
    lemma_be16_at, lemma_be32_at, lemma_be64_at, low32, put_i32, put_i64, put_u16, put_u32, put_u64,
    put_u8, signed32, signed64, size_field, wrap_box,
};
use crate::text::plain;
use crate::seqs::{
    holds_at, joined, lemma_holds_row, lemma_holds_split, lemma_holds_whole, lemma_joined_all,
    lemma_joined_equal_parts, lemma_joined_none, lemma_joined_step,
};
use vstd::prelude::*;

verus! {

/// One edit.
#[derive(Clone, Copy, Debug, Default, PartialEq, Eq)]
pub struct EditListEntry {
    /// How long the edit lasts, on the movie's clock; 0 for all that
    /// follows in a fragmented movie.
    pub segment_duration: u64,
    /// Where the edit starts in the media; -1 for an empty edit.
    pub media_time: i64,
    /// How fast the media runs: 1, or 0 for a dwell.
    pub media_rate_integer: u16,
    /// The fraction that belongs to the rate.
    pub media_rate_fraction: u16,
}

/// Why an edit list cannot be written.
#[derive(Clone, Copy, Debug, PartialEq, Eq, Structural)]
pub enum EditListError {
    /// There is no edit.
    Empty,
    /// A rate other than 0 and 1.
    Rate,
    /// A start before the mark of an empty edit.
    MediaTime,
    /// The last edit is empty.
    TrailingEmptyEdit,
}

/// The message that stands for an error.
pub open spec fn edit_list_error_text(e: EditListError) -> Seq<char> {
    match e {
        EditListError::Empty => "MP4 elst build: no edit"@,
        EditListError::Rate => "MP4 elst build: media_rate_integer not in {0, 1}"@,
        EditListError::MediaTime => "MP4 elst build: media_time below -1"@,
        EditListError::TrailingEmptyEdit => "MP4 elst build: the last edit is empty"@,
    }
}

impl EditListError {
    /// The message that stands for the error.
    pub fn message(&self) -> (r: String)
        ensures
            r@ == edit_list_error_text(*self),
    {
        match self {
            EditListError::Empty => plain("MP4 elst build: no edit"),
            EditListError::Rate => plain("MP4 elst build: media_rate_integer not in {0, 1}"),
            EditListError::MediaTime => plain("MP4 elst build: media_time below -1"),
            EditListError::TrailingEmptyEdit => plain("MP4 elst build: the last edit is empty"),
        }
    }
}

/// Why an edit list cannot be written, if it cannot: the first edit with a
/// fault counts, then the place of an empty edit.
pub open spec fn elst_refusal(e: Seq<EditListEntry>) -> Option<EditListError> {
    if e.len() == 0 {
        Some(EditListError::Empty)
    } else {
        match entry_refusal(e) {
            Some(why) => Some(why),
            None => if e.last().media_time == -1 {
                Some(EditListError::TrailingEmptyEdit)
            } else {
                None
            },
        }
    }
}

/// The fault of the first edit that has one.
pub open spec fn entry_refusal(e: Seq<EditListEntry>) -> Option<EditListError>
    decreases e.len(),
{
    if e.len() == 0 {
        None
    } else if e[0].media_rate_integer > 1 {
        Some(EditListError::Rate)
    } else if e[0].media_time < -1 {
        Some(EditListError::MediaTime)
    } else {
        entry_refusal(e.drop_first())
    }
}

/// Durations and starts all fit 32 bits.
pub open spec fn elst_is_short(e: Seq<EditListEntry>) -> bool {
    forall|i: int|
        0 <= i < e.len() ==> (#[trigger] e[i]).segment_duration <= u32::MAX && e[i].media_time
            <= i32::MAX
}

/// An edit on the wire.
pub open spec fn edit_wire(e: EditListEntry, short: bool) -> Seq<u8> {
    (if short {
        be32(e.segment_duration as u32) + be32(bits32(e.media_time as i32))
    } else {
        be64(e.segment_duration) + be64(bits64(e.media_time))
    }) + be16(e.media_rate_integer) + be16(e.media_rate_fraction)
}

/// The edits on the wire.
pub open spec fn edit_wires(e: Seq<EditListEntry>, short: bool) -> Seq<Seq<u8>> {
    Seq::new(e.len(), |i: int| edit_wire(e[i], short))
}

/// The body of an `elst` box: version 0 where 32 bits are enough, else 1.
pub open spec fn elst_body(e: Seq<EditListEntry>) -> Seq<u8> {
    let short = elst_is_short(e);
    seq![
        if short {
            0u8
        } else {
            1u8
        },
        0u8,
        0u8,
        0u8,
    ] + be32(size_field(e.len())) + joined(edit_wires(e, short))
}

/// The fault of an edit list, if it has one.
#[verifier::loop_isolation(false)]
fn find_fault(entries: &[EditListEntry]) -> (r: Option<EditListError>)
    ensures
        r == elst_refusal(entries@),
{
    if entries.len() == 0 {
        return Some(EditListError::Empty);
    }
    let mut i: usize = 0;
    assert(entries@.skip(0) =~= entries@);
    while i < entries.len()
        invariant
            i <= entries.len(),
            entry_refusal(entries@) == entry_refusal(entries@.skip(i as int)),
        decreases entries.len() - i,
    {
        assert(entries@.skip(i as int)[0] == entries@[i as int]);
        if entries[i].media_rate_integer > 1 {
            return Some(EditListError::Rate);
        }
        if entries[i].media_time < -1 {
            return Some(EditListError::MediaTime);
        }
        assert(entries@.skip(i as int).drop_first() =~= entries@.skip(i + 1));
        i = i + 1;
    }
    if entries[entries.len() - 1].media_time == -1 {
        return Some(EditListError::TrailingEmptyEdit);
    }
    None
}

/// Whether 32 bits are enough for all durations and starts.
fn is_short(entries: &[EditListEntry]) -> (r: bool)
    ensures
        r == elst_is_short(entries@),
{
    let mut i: usize = 0;
    while i < entries.len()
        invariant
            i <= entries.len(),
            forall|k: int|
                0 <= k < i ==> (#[trigger] entries@[k]).segment_duration <= u32::MAX
                    && entries@[k].media_time <= i32::MAX,
        decreases entries.len() - i,
    {
        if entries[i].segment_duration > 0xFFFF_FFFF || entries[i].media_time > 0x7FFF_FFFF {
            assert(!(entries@[i as int].segment_duration <= u32::MAX
                && entries@[i as int].media_time <= i32::MAX));
            return false;
        }
        i = i + 1;
    }
    true
}

/// Serialise an `elst` box. Lists that would not read back are refused.
pub fn build_elst_box(entries: &[EditListEntry]) -> (r: Result<Vec<u8>, EditListError>)
    ensures
        match r {
            Ok(b) => elst_refusal(entries@) is None && b@ == boxed(ELST, elst_body(entries@)),
            Err(e) => elst_refusal(entries@) == Some(e),
        },
{
    match find_fault(entries) {
        Some(e) => {
            return Err(e);
        },
        None => {},
    }
    let short: bool = is_short(entries);
    let mut body: Vec<u8> = Vec::new();
    put_u8(
        &mut body,
        if short {
            0
        } else {
            1
        },
    );
    put_u8(&mut body, 0);
    put_u8(&mut body, 0);
    put_u8(&mut body, 0);
    put_u32(&mut body, low32(entries.len()));
    let ghost head = body@;
    let ghost wires = edit_wires(entries@, short);
    let mut i: usize = 0;
    proof {
        lemma_joined_none(wires);
        lemma_entries_checked(entries@);
    }
    while i < entries.len()
        invariant
            i <= entries.len(),
            short == elst_is_short(entries@),
            wires == edit_wires(entries@, short),
            body@ == head + joined(wires.take(i as int)),
            forall|k: int| 0 <= k < entries@.len() ==> (#[trigger] entries@[k]).media_time >= -1,
        decreases entries.len() - i,
    {
        let e: EditListEntry = entries[i];
        assert(e == entries@[i as int]);
        if short {
            put_u32(&mut body, e.segment_duration as u32);
            put_i32(&mut body, e.media_time as i32);
        } else {
            put_u64(&mut body, e.segment_duration);
            put_i64(&mut body, e.media_time);
        }
        put_u16(&mut body, e.media_rate_integer);
        put_u16(&mut body, e.media_rate_fraction);
        proof {
            lemma_joined_step(wires, i as int);
            assert(body@ =~= head + joined(wires.take(i + 1)));
        }
        i = i + 1;
    }
    proof {
        lemma_joined_all(wires);
    }
    assert(body@ =~= elst_body(entries@));
    Ok(wrap_box(&ELST, body.as_slice()))
}

/// No edit of a list without faults starts before the mark of an empty one.
proof fn lemma_entries_checked(e: Seq<EditListEntry>)
    requires
        entry_refusal(e) is None,
    ensures
        forall|k: int| 0 <= k < e.len() ==> (#[trigger] e[k]).media_time >= -1,
    decreases e.len(),
{
    if e.len() > 0 {
        lemma_entries_checked(e.drop_first());
        assert forall|k: int| 0 <= k < e.len() implies (#[trigger] e[k]).media_time >= -1 by {
            if k > 0 {
                assert(e[k] == e.drop_first()[k - 1]);
            }
        }
    }
}

/// An edit list can be written if and only if it has an edit, every rate is
/// 0 or 1, no start is below the mark of an empty edit, and the last edit is
/// not empty.
pub proof fn law_which_edit_lists_are_written(e: Seq<EditListEntry>)
    ensures
        elst_refusal(e) is None <==> {
            &&& e.len() > 0
            &&& forall|i: int|
                0 <= i < e.len() ==> (#[trigger] e[i]).media_rate_integer <= 1 && e[i].media_time
                    >= -1
            &&& e[e.len() - 1].media_time != -1
        },
        elst_refusal(e) == Some(EditListError::Empty) <==> e.len() == 0,
{
    lemma_entry_faults(e);
}

proof fn lemma_entry_faults(e: Seq<EditListEntry>)
    ensures
        entry_refusal(e) is None <==> forall|i: int|
            0 <= i < e.len() ==> (#[trigger] e[i]).media_rate_integer <= 1 && e[i].media_time >= -1,
        entry_refusal(e) is Some ==> entry_refusal(e)->0 is Rate || entry_refusal(e)->0 is MediaTime,
    decreases e.len(),
{
    if e.len() > 0 {
        let rest = e.drop_first();
        lemma_entry_faults(rest);
        assert(forall|i: int| 0 <= i < rest.len() ==> rest[i] == e[i + 1]);
        if entry_refusal(rest) is None && e[0].media_rate_integer <= 1 && e[0].media_time >= -1 {
            assert forall|i: int| 0 <= i < e.len() implies (#[trigger] e[i]).media_rate_integer <= 1
                && e[i].media_time >= -1 by {
                if i > 0 {
                    assert(rest[i - 1] == e[i]);
                }
            }
        }
    }
}

/// An edit reads back where it stands.
proof fn lemma_edit_reads(s: Seq<u8>, at: int, e: EditListEntry, short: bool)
    requires
        holds_at(s, at, edit_wire(e, short)),
        short ==> e.segment_duration <= u32::MAX && i32::MIN <= e.media_time <= i32::MAX,
    ensures
        short ==> be32_at(s, at) == e.segment_duration && signed32(be32_at(s, at + 4))
            == e.media_time && be16_at(s, at + 8) == e.media_rate_integer && be16_at(s, at + 10)
            == e.media_rate_fraction,
        !short ==> be64_at(s, at) == e.segment_duration && signed64(be64_at(s, at + 8))
            == e.media_time && be16_at(s, at + 16) == e.media_rate_integer && be16_at(s, at + 18)
            == e.media_rate_fraction,
{
    let a = if short {
        be32(e.segment_duration as u32)
    } else {
        be64(e.segment_duration)
    };
    let b = if short {
        be32(bits32(e.media_time as i32))
    } else {
        be64(bits64(e.media_time))
    };
    assert(edit_wire(e, short) == a + b + be16(e.media_rate_integer) + be16(e.media_rate_fraction));
    lemma_holds_split(s, at, a + b + be16(e.media_rate_integer), be16(e.media_rate_fraction));
    lemma_holds_split(s, at, a + b, be16(e.media_rate_integer));
    lemma_holds_split(s, at, a, b);
    law_signed_words(e.media_time as i32, e.media_time);
    if short {
        lemma_be32_at(s, at, e.segment_duration as u32);
        lemma_be32_at(s, at + 4, bits32(e.media_time as i32));
        lemma_be16_at(s, at + 8, e.media_rate_integer);
        lemma_be16_at(s, at + 10, e.media_rate_fraction);
    } else {
        lemma_be64_at(s, at, e.segment_duration);
        lemma_be64_at(s, at + 8, bits64(e.media_time));
        lemma_be16_at(s, at + 16, e.media_rate_integer);
        lemma_be16_at(s, at + 18, e.media_rate_fraction);
    }
}

/// An edit list that can be written reads back by its layout: version 0 with
/// 12 bytes an edit where 32 bits hold every duration and start, else
/// version 1 with 20 bytes an edit, the count, and of every edit the
/// duration, the start as a signed number, and the rate.
pub proof fn law_elst_reads_back(e: Seq<EditListEntry>, i: int)
    requires
        elst_refusal(e) is None,
        0 <= i < e.len(),
    ensures
        ({
            let s = elst_body(e);
            let short = forall|j: int|
                0 <= j < e.len() ==> (#[trigger] e[j]).segment_duration <= u32::MAX
                    && e[j].media_time <= i32::MAX;
            &&& be32_at(s, 0) == if short {
                0u32
            } else {
                0x0100_0000u32
            }
            &&& be32_at(s, 4) == e.len() % 0x1_0000_0000
            &&& short ==> {
                let at = 8 + 12 * i;
                &&& s.len() == 8 + 12 * e.len()
                &&& be32_at(s, at) == e[i].segment_duration
                &&& signed32(be32_at(s, at + 4)) == e[i].media_time
                &&& be16_at(s, at + 8) == e[i].media_rate_integer
                &&& be16_at(s, at + 10) == e[i].media_rate_fraction
            }
            &&& !short ==> {
                let at = 8 + 20 * i;
                &&& s.len() == 8 + 20 * e.len()
                &&& be64_at(s, at) == e[i].segment_duration
                &&& signed64(be64_at(s, at + 8)) == e[i].media_time
                &&& be16_at(s, at + 16) == e[i].media_rate_integer
                &&& be16_at(s, at + 18) == e[i].media_rate_fraction
            }
        }),
{
    let s = elst_body(e);
    let short = elst_is_short(e);
    let version: u32 = if short {
        0
    } else {
        0x0100_0000
    };
    let head = seq![
        if short {
            0u8
        } else {
            1u8
        },
        0u8,
        0u8,
        0u8,
    ];
    let n = size_field(e.len());
    let wires = edit_wires(e, short);
    let w: int = if short {
        12
    } else {
        20
    };
    assert(head =~= be32(version));
    lemma_holds_whole(s);
    lemma_holds_split(s, 0, head + be32(n), joined(wires));
    lemma_holds_split(s, 0, head, be32(n));
    lemma_be32_at(s, 0, version);
    lemma_be32_at(s, 4, n);
    assert forall|k: int| 0 <= k < wires.len() implies (#[trigger] wires[k]).len() == w by {
        assert(wires[k] == edit_wire(e[k], short));
    }
    lemma_joined_equal_parts(wires, w);
    lemma_holds_row(s, 8, wires, w, i);
    lemma_entries_checked(e);
    lemma_edit_reads(s, 8 + w * i, e[i], short);
}

} // verus!
