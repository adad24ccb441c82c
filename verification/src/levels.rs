//! `leva` and `ssix`: levels of a file, and the byte ranges that belong to
//! them.

use crate::boxes::{LEVA, SSIX};
use crate::bytes::{
    be24, be24_at, be32, be32_at, boxed, lemma_be24_at, lemma_be32_at, put_u24, put_u32, put_u8,
    wrap_box,
};
use crate::seqs::{
    holds_at, joined, lemma_holds_split, lemma_holds_whole, lemma_joined_all, lemma_joined_none,
    lemma_joined_step, lemma_part_in_joined,
};
use vstd::prelude::*;

verus! {

/// What makes up one level.
#[derive(Clone, Copy, Debug, PartialEq, Eq)]
pub struct LevaEntry {
    /// The track that the level is assigned in.
    pub track_id: u32,
    /// Whether a padded subsegment is a valid one.
    pub padding_flag: bool,
    /// How the level is assigned; seven bits.
    pub assignment_type: u8,
    /// The kind of sample group, for the types 0 and 1.
    pub grouping_type: u32,
    /// The parameter of the sample group, for the type 1.
    pub grouping_type_parameter: u32,
    /// The sub track, for the type 4.
    pub sub_track_id: u32,
}

/// What follows the assignment type.
pub open spec fn level_tail(e: LevaEntry) -> Seq<u8> {
    if e.assignment_type == 0 {
        be32(e.grouping_type)
    } else if e.assignment_type == 1 {
        be32(e.grouping_type) + be32(e.grouping_type_parameter)
    } else if e.assignment_type == 4 {
        be32(e.sub_track_id)
    } else {
        Seq::empty()
    }
}

/// A level on the wire: the padding flag is the top bit of its byte.
pub open spec fn level_wire(e: LevaEntry) -> Seq<u8> {
    be32(e.track_id) + seq![
        ((e.assignment_type % 0x80) + if e.padding_flag {
            0x80int
        } else {
            0int
        }) as u8,
    ] + level_tail(e)
}

/// The levels on the wire.
pub open spec fn level_wires(e: Seq<LevaEntry>) -> Seq<Seq<u8>> {
    Seq::new(e.len(), |i: int| level_wire(e[i]))
}

/// The body of a `leva` box.
pub open spec fn leva_body(e: Seq<LevaEntry>) -> Seq<u8> {
    seq![0u8, 0u8, 0u8, 0u8, e.len() as u8] + joined(level_wires(e))
}

/// Serialise a `leva` box. There is none for more than 255 levels.
pub fn build_leva_box(entries: &[LevaEntry]) -> (r: Option<Vec<u8>>)
    ensures
        match r {
            Some(b) => entries@.len() <= 0xFF && b@ == boxed(LEVA, leva_body(entries@)),
            None => entries@.len() > 0xFF,
        },
{
    if entries.len() > 0xFF {
        return None;
    }
    let mut body: Vec<u8> = Vec::new();
    put_u32(&mut body, 0);
    put_u8(&mut body, entries.len() as u8);
    assert(body@ =~= seq![0u8, 0u8, 0u8, 0u8, entries@.len() as u8]);
    let ghost head = body@;
    let ghost wires = level_wires(entries@);
    let mut i: usize = 0;
    proof {
        lemma_joined_none(wires);
    }
    while i < entries.len()
        invariant
            i <= entries.len(),
            wires == level_wires(entries@),
            body@ == head + joined(wires.take(i as int)),
        decreases entries.len() - i,
    {
        let e: LevaEntry = entries[i];
        put_u32(&mut body, e.track_id);
        put_u8(
            &mut body,
            if e.padding_flag {
                0x80 + e.assignment_type % 0x80
            } else {
                e.assignment_type % 0x80
            },
        );
        if e.assignment_type == 0 {
            put_u32(&mut body, e.grouping_type);
        } else if e.assignment_type == 1 {
            put_u32(&mut body, e.grouping_type);
            put_u32(&mut body, e.grouping_type_parameter);
        } else if e.assignment_type == 4 {
            put_u32(&mut body, e.sub_track_id);
        }
        proof {
            lemma_joined_step(wires, i as int);
            assert(e == entries@[i as int]);
            assert(body@ =~= head + joined(wires.take(i + 1)));
        }
        i = i + 1;
    }
    proof {
        lemma_joined_all(wires);
    }
    assert(body@ =~= leva_body(entries@));
    Some(wrap_box(&LEVA, body.as_slice()))
}

/// The levels of the two parts of a subsegment.
#[derive(Clone, Copy, Debug, PartialEq, Eq)]
pub struct SsixLevels {
    /// The level of what precedes the media data.
    pub metadata: u8,
    /// The level of the media data.
    pub media: u8,
}

/// The body of a `ssix` box: one subsegment, in a range of `meta_size`
/// bytes at the first level and one of `media_size` bytes at the second.
pub open spec fn ssix_body(levels: SsixLevels, meta_size: u32, media_size: u32) -> Seq<u8> {
    be32(0) + be32(1) + be32(2) + seq![levels.metadata] + be24(meta_size) + seq![levels.media] + be24(
        media_size,
    )
}

/// Serialise a `ssix` box. There is none where a range does not fit its 24
/// bits.
pub fn build_ssix_box(levels: SsixLevels, meta_size: u32, media_size: u32) -> (r: Option<Vec<u8>>)
    ensures
        match r {
            Some(b) => meta_size <= 0xFF_FFFF && media_size <= 0xFF_FFFF && b@ == boxed(
                SSIX,
                ssix_body(levels, meta_size, media_size),
            ),
            None => meta_size > 0xFF_FFFF || media_size > 0xFF_FFFF,
        },
{
    if meta_size > 0xFF_FFFF || media_size > 0xFF_FFFF {
        return None;
    }
    let mut body: Vec<u8> = Vec::new();
    put_u32(&mut body, 0);
    put_u32(&mut body, 1);
    put_u32(&mut body, 2);
    put_u8(&mut body, levels.metadata);
    put_u24(&mut body, meta_size);
    put_u8(&mut body, levels.media);
    put_u24(&mut body, media_size);
    assert(body@ =~= ssix_body(levels, meta_size, media_size));
    Some(wrap_box(&SSIX, body.as_slice()))
}

/// A subsegment index read back by its layout gives one subsegment in two
/// ranges, each with its level and its size.
pub proof fn law_ssix_reads_back(levels: SsixLevels, meta_size: u32, media_size: u32)
    requires
        meta_size <= 0xFF_FFFF,
        media_size <= 0xFF_FFFF,
    ensures
        ({
            let s = ssix_body(levels, meta_size, media_size);
            &&& s.len() == 20
            &&& be32_at(s, 0) == 0
            &&& be32_at(s, 4) == 1
            &&& be32_at(s, 8) == 2
            &&& s[12] == levels.metadata
            &&& be24_at(s, 13) == meta_size
            &&& s[16] == levels.media
            &&& be24_at(s, 17) == media_size
        }),
{
    let s = ssix_body(levels, meta_size, media_size);
    let head = be32(0) + be32(1) + be32(2);
    let one = seq![levels.metadata];
    let two = seq![levels.media];
    lemma_holds_whole(s);
    lemma_holds_split(s, 0, head + one + be24(meta_size) + two, be24(media_size));
    lemma_holds_split(s, 0, head + one + be24(meta_size), two);
    lemma_holds_split(s, 0, head + one, be24(meta_size));
    lemma_holds_split(s, 0, head, one);
    lemma_holds_split(s, 0, be32(0) + be32(1), be32(2));
    lemma_holds_split(s, 0, be32(0), be32(1));
    lemma_be32_at(s, 0, 0);
    lemma_be32_at(s, 4, 1);
    lemma_be32_at(s, 8, 2);
    lemma_be24_at(s, 13, meta_size);
    lemma_be24_at(s, 17, media_size);
    assert(s.subrange(12, 13)[0] == s[12]);
    assert(s.subrange(16, 17)[0] == s[16]);
}

/// How long a level is on the wire: its track, a byte, and what its type
/// brings along.
pub open spec fn level_len(e: LevaEntry) -> int {
    if e.assignment_type == 1 {
        13
    } else if e.assignment_type == 0 || e.assignment_type == 4 {
        9
    } else {
        5
    }
}

/// How long the levels before the `i`-th are on the wire.
pub open spec fn levels_before(e: Seq<LevaEntry>, i: int) -> int
    decreases i,
{
    if i <= 0 {
        0
    } else {
        levels_before(e, i - 1) + level_len(e[i - 1])
    }
}

proof fn lemma_levels_before(e: Seq<LevaEntry>, i: int)
    requires
        0 <= i <= e.len(),
    ensures
        joined(level_wires(e).take(i)).len() == levels_before(e, i),
    decreases i,
{
    if i == 0 {
        lemma_joined_none(level_wires(e));
    } else {
        lemma_levels_before(e, i - 1);
        lemma_joined_step(level_wires(e), i - 1);
        assert(level_wires(e)[i - 1] == level_wire(e[i - 1]));
    }
}

/// A level reads back where it stands.
proof fn lemma_level_reads(s: Seq<u8>, at: int, l: LevaEntry)
    requires
        holds_at(s, at, level_wire(l)),
    ensures
        be32_at(s, at) == l.track_id,
        s[at + 4] >= 0x80 <==> l.padding_flag,
        s[at + 4] % 0x80 == l.assignment_type % 0x80,
        l.assignment_type <= 1 ==> be32_at(s, at + 5) == l.grouping_type,
        l.assignment_type == 1 ==> be32_at(s, at + 9) == l.grouping_type_parameter,
        l.assignment_type == 4 ==> be32_at(s, at + 5) == l.sub_track_id,
{
    let byte = seq![
        ((l.assignment_type % 0x80) + if l.padding_flag {
            0x80int
        } else {
            0int
        }) as u8,
    ];
    lemma_holds_split(s, at, be32(l.track_id) + byte, level_tail(l));
    lemma_holds_split(s, at, be32(l.track_id), byte);
    lemma_be32_at(s, at, l.track_id);
    assert(s.subrange(at + 4, at + 5)[0] == s[at + 4]);
    if l.assignment_type == 0 {
        lemma_be32_at(s, at + 5, l.grouping_type);
    } else if l.assignment_type == 1 {
        lemma_holds_split(s, at + 5, be32(l.grouping_type), be32(l.grouping_type_parameter));
        lemma_be32_at(s, at + 5, l.grouping_type);
        lemma_be32_at(s, at + 9, l.grouping_type_parameter);
    } else if l.assignment_type == 4 {
        lemma_be32_at(s, at + 5, l.sub_track_id);
    }
}

/// Where a level stands, in what follows a head of five bytes.
proof fn lemma_level_at(s: Seq<u8>, head: Seq<u8>, e: Seq<LevaEntry>, i: int)
    requires
        0 <= i < e.len(),
        head.len() == 5,
        s == head + joined(level_wires(e)),
    ensures
        s.len() == 5 + levels_before(e, e.len() as int),
        holds_at(s, 0, head),
        holds_at(s, 5 + levels_before(e, i), level_wire(e[i])),
{
    let wires = level_wires(e);
    let all = joined(wires);
    lemma_holds_whole(s);
    lemma_holds_split(s, 0, head, all);
    lemma_levels_before(e, i);
    lemma_levels_before(e, e.len() as int);
    lemma_joined_all(wires);
    lemma_part_in_joined(wires, i);
    let at = levels_before(e, i);
    assert(s.subrange(5 + at, 5 + at + wires[i].len()) =~= s.subrange(
        5,
        5 + all.len() as int,
    ).subrange(at, at + wires[i].len()));
}

/// Levels read back by their layout: the count, and for the `i`-th, behind
/// those before it, its track, the padding flag as the top bit of a byte
/// whose other bits are the assignment type, and the grouping or the sub
/// track that the type asks for.
pub proof fn law_leva_reads_back(e: Seq<LevaEntry>, i: int)
    requires
        0 <= i < e.len() <= 0xFF,
    ensures
        ({
            let s = leva_body(e);
            let at = 5 + levels_before(e, i);
            &&& be32_at(s, 0) == 0
            &&& s[4] == e.len()
            &&& s.len() == 5 + levels_before(e, e.len() as int)
            &&& at + level_len(e[i]) <= s.len()
            &&& be32_at(s, at) == e[i].track_id
            &&& s[at + 4] >= 0x80 <==> e[i].padding_flag
            &&& s[at + 4] % 0x80 == e[i].assignment_type % 0x80
            &&& e[i].assignment_type <= 1 ==> be32_at(s, at + 5) == e[i].grouping_type
            &&& e[i].assignment_type == 1 ==> be32_at(s, at + 9) == e[i].grouping_type_parameter
            &&& e[i].assignment_type == 4 ==> be32_at(s, at + 5) == e[i].sub_track_id
        }),
{
    let s = leva_body(e);
    let head = seq![0u8, 0u8, 0u8, 0u8, e.len() as u8];
    let at = 5 + levels_before(e, i);
    lemma_level_at(s, head, e, i);
    assert(s.subrange(0, 5)[4] == s[4]);
    assert(s.subrange(0, 5)[0] == s[0] && s.subrange(0, 5)[1] == s[1] && s.subrange(0, 5)[2] == s[2]
        && s.subrange(0, 5)[3] == s[3]);
    lemma_level_reads(s, at, e[i]);
    assert(level_wire(e[i]).len() == level_len(e[i]));
}

} // verus!
