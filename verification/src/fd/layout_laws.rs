//! Where the fields of file delivery boxes stand.

use crate::bytes::{be16, be16_at, be32, be32_at, be64_at, lemma_be16_at, lemma_be32_at};
use crate::fd::feci::{feci_body, feci_of, law_feci_build_parse, FeciBox};
use crate::fd::fpar::fpar_of;
use crate::fd::names::{gitn_body, gitn_wf, name_wire, name_wires, GroupNameView};
use crate::fd::reservoir::reservoir_of;
use crate::fd::session::{
    group_fits, group_wire, group_wires, segr_body, segr_wf, word_wires, SessionGroupView,
};
use crate::fd::wire::{child_at, children_of, declared_len, fullbox_wire, lemma_nul_from};
use crate::seqs::{
    holds_at, joined, lemma_holds_row, lemma_holds_split, lemma_holds_whole, lemma_holds_within,
    lemma_joined_equal_parts, lemma_joined_none, lemma_joined_step, lemma_part_in_joined,
};
use crate::text::lossy_text;
use vstd::prelude::*;
use vstd::utf8::encode_utf8;

verus! {

/// A `feci` body is read by its layout: a byte and three 16-bit numbers, in
/// seven bytes, which is all that it needs.
pub proof fn law_feci_layout(s: Seq<u8>)
    ensures
        feci_of(s) is Some <==> s.len() >= 7,
        feci_of(s) matches Some(b) ==> b.fec_encoding_id == s[0] && b.fec_instance_id == be16_at(s, 1)
            && b.source_block_number == be16_at(s, 3) && b.encoding_symbol_id == be16_at(s, 5),
{
}

/// A `feci` body is written by the same layout.
pub proof fn law_feci_written_layout(b: FeciBox)
    ensures
        feci_body(b).len() == 7,
        feci_body(b)[0] == b.fec_encoding_id,
        be16_at(feci_body(b), 1) == b.fec_instance_id,
        be16_at(feci_body(b), 3) == b.source_block_number,
        be16_at(feci_body(b), 5) == b.encoding_symbol_id,
{
    law_feci_build_parse(b, Seq::empty());
    assert(feci_body(b) + Seq::<u8>::empty() =~= feci_body(b));
}

/// A `fpar` body is read by its layout. Version 0 has a 16-bit item number
/// and a 16-bit count, others have 32 bits for each. Behind the item number
/// come the payload size, a byte that is not used, the encoding, its
/// instance, the block length, the symbol length and the largest number of
/// symbols, then text that ends with the first zero byte at `end`, the
/// count, and six bytes for every entry.
pub proof fn law_fpar_layout(s: Seq<u8>, end: int)
    requires
        fpar_of(s) is Some,
        s[0] == 0 ==> 18 <= end,
        s[0] != 0 ==> 20 <= end,
        end < s.len(),
        s[end] == 0,
        s[0] == 0 ==> forall|k: int| 18 <= k < end ==> s[k] != 0,
        s[0] != 0 ==> forall|k: int| 20 <= k < end ==> s[k] != 0,
    ensures
        ({
            let b = fpar_of(s)->0;
            let w: int = if s[0] == 0 {
                2
            } else {
                4
            };
            &&& b.version == s[0]
            &&& b.item_id == if s[0] == 0 {
                be16_at(s, 4) as u32
            } else {
                be32_at(s, 4)
            }
            &&& b.packet_payload_size == be16_at(s, 4 + w)
            &&& b.fec_encoding_id == s[7 + w]
            &&& b.fec_instance_id == be16_at(s, 8 + w)
            &&& b.max_source_block_length == be16_at(s, 10 + w)
            &&& b.encoding_symbol_length == be16_at(s, 12 + w)
            &&& b.max_number_of_encoding_symbols == be16_at(s, 14 + w)
            &&& b.scheme_specific_info == lossy_text(s.subrange(16 + w, end))
            &&& b.entries.len() == if s[0] == 0 {
                be16_at(s, end + 1) as int
            } else {
                be32_at(s, end + 1) as int
            }
            &&& end + 1 + w + 6 * b.entries.len() <= s.len()
            &&& forall|i: int|
                0 <= i < b.entries.len() ==> (#[trigger] b.entries[i]).block_count == be16_at(
                    s,
                    end + 1 + w + 6 * i,
                ) && b.entries[i].block_size == be32_at(s, end + 1 + w + 6 * i + 2)
        }),
{
    lemma_nul_from(
        s,
        if s[0] == 0 {
            18
        } else {
            20
        },
        end,
    );
}

/// A `fecr` or `fire` body is read by its layout: a count and entries, each
/// an item number and a 32-bit symbol count. Count and item numbers have 16
/// bits in version 0 and 32 bits in others.
pub proof fn law_reservoir_layout(s: Seq<u8>)
    ensures
        reservoir_of(s) is Some <==> s.len() >= 4 && if s[0] == 0 {
            s.len() >= 6 && s.len() >= 6 + 6 * be16_at(s, 4)
        } else {
            s.len() >= 8 && s.len() >= 8 + 8 * be32_at(s, 4)
        },
        reservoir_of(s) matches Some(b) ==> {
            &&& b.version == s[0]
            &&& s[0] == 0 ==> b.entries.len() == be16_at(s, 4) && forall|i: int|
                0 <= i < b.entries.len() ==> (#[trigger] b.entries[i]).item_id == be16_at(s, 6 + 6 * i)
                    && b.entries[i].symbol_count == be32_at(s, 8 + 6 * i)
            &&& s[0] != 0 ==> b.entries.len() == be32_at(s, 4) && forall|i: int|
                0 <= i < b.entries.len() ==> (#[trigger] b.entries[i]).item_id == be32_at(s, 8 + 8 * i)
                    && b.entries[i].symbol_count == be32_at(s, 12 + 8 * i)
        },
{
}

/// How many bytes the first `n` names take: a number, the text and a zero
/// byte for each.
pub open spec fn names_before(names: Seq<GroupNameView>, n: int) -> int
    decreases n,
{
    if n <= 0 {
        0
    } else {
        names_before(names, n - 1) + 5 + encode_utf8(names[n - 1].group_name).len()
    }
}

proof fn lemma_names_before(names: Seq<GroupNameView>, n: int)
    requires
        0 <= n <= names.len(),
    ensures
        joined(name_wires(names).take(n)).len() == names_before(names, n),
    decreases n,
{
    if n == 0 {
        lemma_joined_none(name_wires(names));
    } else {
        lemma_names_before(names, n - 1);
        lemma_joined_step(name_wires(names), n - 1);
        assert(name_wires(names)[n - 1] == name_wire(names[n - 1]));
    }
}

/// A `gitn` body is written by its layout: the count in 16 bits behind
/// version and flags, and of every name, behind those before it, the group
/// in 32 bits, the text and a zero byte.
pub proof fn law_gitn_layout(names: Seq<GroupNameView>, i: int)
    requires
        gitn_wf(names),
        0 <= i < names.len(),
    ensures
        ({
            let s = gitn_body(names);
            let at = 6 + names_before(names, i);
            let text = encode_utf8(names[i].group_name);
            &&& s[0] == 0
            &&& be16_at(s, 4) == names.len()
            &&& be32_at(s, at) == names[i].group_id
            &&& holds_at(s, at + 4, text)
            &&& s[at + 4 + text.len()] == 0
        }),
{
    let s = gitn_body(names);
    let n = (names.len() % 0x1_0000) as u16;
    let head = fullbox_wire(0, 0);
    let wires = name_wires(names);
    lemma_holds_whole(s);
    lemma_holds_split(s, 0, head + be16(n), joined(wires));
    lemma_holds_split(s, 0, head, be16(n));
    assert(head.len() == 4 && head[0] == 0);
    assert(s.subrange(0, 4)[0] == s[0]);
    lemma_be16_at(s, 4, n);
    lemma_names_before(names, i);
    lemma_part_in_joined(wires, i);
    let at = 6 + names_before(names, i);
    lemma_holds_within(s, 6, joined(wires), at - 6, wires[i]);
    lemma_name_at(s, at, names[i]);
}

proof fn lemma_name_at(s: Seq<u8>, at: int, name: GroupNameView)
    requires
        holds_at(s, at, name_wire(name)),
    ensures
        be32_at(s, at) == name.group_id,
        holds_at(s, at + 4, encode_utf8(name.group_name)),
        s[at + 4 + encode_utf8(name.group_name).len()] == 0,
{
    let text = encode_utf8(name.group_name);
    lemma_holds_split(s, at, be32(name.group_id) + text, seq![0u8]);
    lemma_holds_split(s, at, be32(name.group_id), text);
    lemma_be32_at(s, at, name.group_id);
    let end = at + 4 + text.len();
    assert(s.subrange(end, end + 1)[0] == s[end]);
}

/// How many bytes the first `n` session groups take: a byte and 32 bits for
/// every group number, 16 bits and 32 bits for every hint track.
pub open spec fn groups_before(groups: Seq<SessionGroupView>, n: int) -> int
    decreases n,
{
    if n <= 0 {
        0
    } else {
        groups_before(groups, n - 1) + 3 + 4 * groups[n - 1].group_ids.len() + 4 * groups[n
            - 1].hint_track_ids.len()
    }
}

proof fn lemma_groups_before(groups: Seq<SessionGroupView>, n: int)
    requires
        0 <= n <= groups.len(),
    ensures
        joined(group_wires(groups).take(n)).len() == groups_before(groups, n),
    decreases n,
{
    if n == 0 {
        lemma_joined_none(group_wires(groups));
    } else {
        let g = groups[n - 1];
        lemma_groups_before(groups, n - 1);
        lemma_joined_step(group_wires(groups), n - 1);
        assert(group_wires(groups)[n - 1] == group_wire(g));
        lemma_joined_equal_parts(word_wires(g.group_ids), 4);
        lemma_joined_equal_parts(word_wires(g.hint_track_ids), 4);
    }
}

/// The words of a list stand one behind the other.
proof fn lemma_words_at(s: Seq<u8>, at: int, words: Seq<u32>)
    requires
        holds_at(s, at, joined(word_wires(words))),
    ensures
        joined(word_wires(words)).len() == 4 * words.len(),
        forall|k: int| 0 <= k < words.len() ==> be32_at(s, at + 4 * k) == #[trigger] words[k],
{
    let wires = word_wires(words);
    lemma_joined_equal_parts(wires, 4);
    assert forall|k: int| 0 <= k < words.len() implies be32_at(s, at + 4 * k)
        == #[trigger] words[k] by {
        lemma_holds_row(s, at, wires, 4, k);
        assert(wires[k] == be32(words[k]));
        lemma_be32_at(s, at + 4 * k, words[k]);
    }
}

proof fn lemma_group_at(s: Seq<u8>, at: int, g: SessionGroupView)
    requires
        group_fits(g),
        holds_at(s, at, group_wire(g)),
    ensures
        s[at] == g.group_ids.len(),
        forall|k: int|
            0 <= k < g.group_ids.len() ==> be32_at(s, at + 1 + 4 * k) == #[trigger] g.group_ids[k],
        be16_at(s, at + 1 + 4 * g.group_ids.len()) == g.hint_track_ids.len(),
        forall|k: int|
            0 <= k < g.hint_track_ids.len() ==> be32_at(
                s,
                at + 3 + 4 * g.group_ids.len() + 4 * k,
            ) == #[trigger] g.hint_track_ids[k],
{
    let one = seq![(g.group_ids.len() % 0x100) as u8];
    let ids = joined(word_wires(g.group_ids));
    let n = (g.hint_track_ids.len() % 0x1_0000) as u16;
    let hints = joined(word_wires(g.hint_track_ids));
    lemma_holds_split(s, at, one + ids + be16(n), hints);
    lemma_holds_split(s, at, one + ids, be16(n));
    lemma_holds_split(s, at, one, ids);
    assert(s.subrange(at, at + 1)[0] == s[at]);
    lemma_words_at(s, at + 1, g.group_ids);
    lemma_be16_at(s, at + 1 + ids.len(), n);
    lemma_words_at(s, at + 3 + ids.len(), g.hint_track_ids);
}

/// Where a session group stands.
proof fn lemma_group_in_place(groups: Seq<SessionGroupView>, i: int)
    requires
        groups.len() <= 0xFFFF,
        0 <= i < groups.len(),
    ensures
        be16_at(segr_body(groups), 0) == groups.len(),
        holds_at(segr_body(groups), 2 + groups_before(groups, i), group_wire(groups[i])),
{
    let s = segr_body(groups);
    let n = (groups.len() % 0x1_0000) as u16;
    let wires = group_wires(groups);
    lemma_holds_whole(s);
    lemma_holds_split(s, 0, be16(n), joined(wires));
    lemma_be16_at(s, 0, n);
    lemma_groups_before(groups, i);
    lemma_part_in_joined(wires, i);
    lemma_holds_within(s, 2, joined(wires), groups_before(groups, i), wires[i]);
}

/// A `segr` body is written by its layout: the count in 16 bits, and of every
/// session group, behind those before it, a byte that counts its groups, the
/// groups, 16 bits that count its hint tracks, and the hint tracks.
pub proof fn law_segr_layout(groups: Seq<SessionGroupView>, i: int)
    requires
        segr_wf(groups),
        0 <= i < groups.len(),
    ensures
        ({
            let s = segr_body(groups);
            let at = 2 + groups_before(groups, i);
            let g = groups[i];
            &&& be16_at(s, 0) == groups.len()
            &&& s[at] == g.group_ids.len()
            &&& forall|k: int|
                0 <= k < g.group_ids.len() ==> be32_at(s, at + 1 + 4 * k)
                    == #[trigger] g.group_ids[k]
            &&& be16_at(s, at + 1 + 4 * g.group_ids.len()) == g.hint_track_ids.len()
            &&& forall|k: int|
                0 <= k < g.hint_track_ids.len() ==> be32_at(
                    s,
                    at + 3 + 4 * g.group_ids.len() + 4 * k,
                ) == #[trigger] g.hint_track_ids[k]
        }),
{
    let s = segr_body(groups);
    lemma_group_in_place(groups, i);
    lemma_group_at(s, 2 + groups_before(groups, i), groups[i]);
}

/// Child boxes are walked one behind the other: each starts where the one
/// before it ends, or at the start, its type is in its second four bytes,
/// and its payload is from behind its header, of 8 bytes, or of 16 where its
/// size is in 64 bits, to its end. The walk ends where no whole box follows.
pub proof fn law_children_follow(s: Seq<u8>, pos: int, i: int)
    requires
        0 <= pos,
        0 <= i < children_of(s, pos).len(),
    ensures
        ({
            let kids = children_of(s, pos);
            let at = if i == 0 {
                pos
            } else {
                kids[i - 1].end
            };
            let size = be32_at(s, at);
            &&& 0 <= at
            &&& kids[i].code == s.subrange(at + 4, at + 8)
            &&& kids[i].start == at + if size == 1 {
                16int
            } else {
                8int
            }
            &&& kids[i].start <= kids[i].end <= s.len()
            &&& size > 1 ==> kids[i].end == at + size
            &&& size == 1 ==> kids[i].end == at + be64_at(s, at + 8)
            &&& size == 0 ==> kids[i].end == s.len()
        }),
    decreases s.len() - pos,
{
    let kids = children_of(s, pos);
    let next = pos + declared_len(s, pos);
    assert(child_at(s, pos));
    let rest = children_of(s, next);
    assert(kids[0].end == next);
    if i > 0 {
        law_children_follow(s, next, i - 1);
        assert(kids[i] == rest[i - 1]);
        if i > 1 {
            assert(kids[i - 1] == rest[i - 2]);
        }
    }
}

/// A child is found wherever a whole box starts.
pub proof fn law_child_is_found(s: Seq<u8>, pos: int)
    requires
        0 <= pos,
        pos + 8 <= s.len(),
    ensures
        children_of(s, pos).len() > 0 <==> {
            let size = be32_at(s, pos);
            ||| size == 0
            ||| size >= 8 && pos + size <= s.len()
            ||| size == 1 && pos + 16 <= s.len() && be64_at(s, pos + 8) >= 16 && pos + be64_at(
                s,
                pos + 8,
            ) <= s.len()
        },
{
}

} // verus!
