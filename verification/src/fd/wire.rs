//! Reading and writing the fields of the file delivery boxes.

use crate::bytes::{
    be16, be16_at, be24, be24_at, be32, be32_at, be64_at, boxed, code_at, fits_box, lemma_be16_at,
    lemma_be16_wire, lemma_be32_at, lemma_be32_wire, lemma_boxed, put_u16, put_u24, put_u32, put_u8,
    u16_at, u24_at, u32_at, u64_at,
};
use crate::seqs::{holds_at, joined, lemma_holds_split, lemma_joined_first, lemma_joined_push};
use crate::text::{
    lemma_nul_free_bytes, lemma_nul_free_text, lossy_text, nul_free, text_lossy,
};
use vstd::prelude::*;
use vstd::utf8::{
    decode_utf8, decode_utf8_encode_utf8, encode_utf8, encode_utf8_decode_utf8,
    encode_utf8_valid_utf8, valid_utf8,
};

verus! {

// ---------------------------------------------------------------------
// Fixed-width fields
// ---------------------------------------------------------------------

/// Read one byte at `pos` and step over it.
pub fn rd_u8(buf: &[u8], pos: &mut usize) -> (r: Option<u8>)
    requires
        *old(pos) <= buf@.len(),
    ensures
        match r {
            Some(v) => *old(pos) + 1 <= buf@.len() && v == buf@[*old(pos) as int] && *final(pos)
                == *old(pos) + 1,
            None => *old(pos) + 1 > buf@.len() && *final(pos) == *old(pos),
        },
{
    if buf.len() - *pos < 1 {
        return None;
    }
    let v: u8 = buf[*pos];
    *pos = *pos + 1;
    Some(v)
}

/// Read a 16-bit integer at `pos` and step over it.
pub fn rd_u16(buf: &[u8], pos: &mut usize) -> (r: Option<u16>)
    requires
        *old(pos) <= buf@.len(),
    ensures
        match r {
            Some(v) => *old(pos) + 2 <= buf@.len() && v == be16_at(buf@, *old(pos) as int)
                && *final(pos) == *old(pos) + 2,
            None => *old(pos) + 2 > buf@.len() && *final(pos) == *old(pos),
        },
{
    if buf.len() - *pos < 2 {
        return None;
    }
    let v: u16 = u16_at(buf, *pos);
    *pos = *pos + 2;
    Some(v)
}

/// Read a 32-bit integer at `pos` and step over it.
pub fn rd_u32(buf: &[u8], pos: &mut usize) -> (r: Option<u32>)
    requires
        *old(pos) <= buf@.len(),
    ensures
        match r {
            Some(v) => *old(pos) + 4 <= buf@.len() && v == be32_at(buf@, *old(pos) as int)
                && *final(pos) == *old(pos) + 4,
            None => *old(pos) + 4 > buf@.len() && *final(pos) == *old(pos),
        },
{
    if buf.len() - *pos < 4 {
        return None;
    }
    let v: u32 = u32_at(buf, *pos);
    *pos = *pos + 4;
    Some(v)
}

/// How wide an item identifier or entry count is: two bytes at version 0,
/// four at any other.
pub open spec fn id_width(version: u8) -> int {
    if version == 0 {
        2
    } else {
        4
    }
}

/// The identifier at `i`.
pub open spec fn id_at(s: Seq<u8>, i: int, version: u8) -> u32 {
    if version == 0 {
        be16_at(s, i) as u32
    } else {
        be32_at(s, i)
    }
}

/// An identifier on the wire: its low 16 bits at version 0.
pub open spec fn id_wire(value: u32, version: u8) -> Seq<u8> {
    if version == 0 {
        be16((value % 0x1_0000) as u16)
    } else {
        be32(value)
    }
}

/// The identifier fits its field.
pub open spec fn id_fits(value: int, version: u8) -> bool {
    if version == 0 {
        0 <= value <= u16::MAX
    } else {
        0 <= value <= u32::MAX
    }
}

/// Reading an identifier gives back the one that was written.
pub proof fn lemma_id_at(s: Seq<u8>, i: int, value: u32, version: u8)
    requires
        0 <= i,
        i + id_width(version) <= s.len(),
        s.subrange(i, i + id_width(version)) == id_wire(value, version),
        id_fits(value as int, version),
    ensures
        id_at(s, i, version) == value,
{
    if version == 0 {
        lemma_be16_at(s, i, value as u16);
    } else {
        lemma_be32_at(s, i, value);
    }
}

/// An identifier that was read is written as it was.
pub proof fn lemma_id_wire(s: Seq<u8>, i: int, version: u8)
    requires
        0 <= i,
        i + id_width(version) <= s.len(),
    ensures
        id_wire(id_at(s, i, version), version) == s.subrange(i, i + id_width(version)),
        id_fits(id_at(s, i, version) as int, version),
{
    if version == 0 {
        lemma_be16_wire(s, i);
    } else {
        lemma_be32_wire(s, i);
    }
}

/// Read an identifier at `pos` and step over it.
pub fn rd_id(buf: &[u8], pos: &mut usize, version: u8) -> (r: Option<u32>)
    requires
        *old(pos) <= buf@.len(),
    ensures
        match r {
            Some(v) => *old(pos) + id_width(version) <= buf@.len() && v == id_at(
                buf@,
                *old(pos) as int,
                version,
            ) && *final(pos) == *old(pos) + id_width(version),
            None => *old(pos) + id_width(version) > buf@.len() && *final(pos) == *old(pos),
        },
{
    if version == 0 {
        match rd_u16(buf, pos) {
            Some(v) => Some(v as u32),
            None => None,
        }
    } else {
        rd_u32(buf, pos)
    }
}

/// Append an identifier.
pub fn wr_id(out: &mut Vec<u8>, value: u32, version: u8)
    ensures
        final(out)@ == old(out)@ + id_wire(value, version),
{
    if version == 0 {
        put_u16(out, (value % 0x1_0000) as u16);
    } else {
        put_u32(out, value);
    }
}

/// Read version and flags at `pos` and step over them.
pub fn rd_fullbox(buf: &[u8], pos: &mut usize) -> (r: Option<(u8, u32)>)
    requires
        *old(pos) <= buf@.len(),
    ensures
        match r {
            Some(v) => *old(pos) + 4 <= buf@.len() && v.0 == buf@[*old(pos) as int] && v.1
                == be24_at(buf@, *old(pos) + 1) && *final(pos) == *old(pos) + 4,
            None => *old(pos) + 4 > buf@.len() && *final(pos) == *old(pos),
        },
{
    if buf.len() - *pos < 4 {
        return None;
    }
    let version: u8 = buf[*pos];
    let flags: u32 = u24_at(buf, *pos + 1);
    *pos = *pos + 4;
    Some((version, flags))
}

/// Version and flags on the wire.
pub open spec fn fullbox_wire(version: u8, flags: u32) -> Seq<u8> {
    seq![version] + be24(flags)
}

/// Append version and flags.
pub fn wr_fullbox(out: &mut Vec<u8>, version: u8, flags: u32)
    ensures
        final(out)@ == old(out)@ + fullbox_wire(version, flags),
{
    put_u8(out, version);
    put_u24(out, flags);
    assert(out@ =~= old(out)@ + fullbox_wire(version, flags));
}

// ---------------------------------------------------------------------
// Terminated strings
// ---------------------------------------------------------------------

/// Where the first zero byte at or after `i` stands, or the length of `s`
/// where there is none.
pub open spec fn nul_from(s: Seq<u8>, i: int) -> int
    decreases s.len() - i,
{
    if i >= s.len() {
        s.len() as int
    } else if s[i] == 0 {
        i
    } else {
        nul_from(s, i + 1)
    }
}

/// The first zero byte is where it is said to be.
pub proof fn lemma_nul_from(s: Seq<u8>, i: int, n: int)
    requires
        0 <= i <= n < s.len(),
        s[n] == 0,
        forall|k: int| i <= k < n ==> s[k] != 0,
    ensures
        nul_from(s, i) == n,
    decreases n - i,
{
    if i < n {
        lemma_nul_from(s, i + 1, n);
    }
}

/// A terminated string is found again as it was written.
pub proof fn lemma_cstr_at(s: Seq<u8>, i: int, text: Seq<char>)
    requires
        0 <= i,
        i + encode_utf8(text).len() < s.len(),
        s.subrange(i, i + encode_utf8(text).len()) == encode_utf8(text),
        s[i + encode_utf8(text).len()] == 0,
        nul_free(text),
    ensures
        nul_from(s, i) == i + encode_utf8(text).len(),
        lossy_text(s.subrange(i, nul_from(s, i))) == text,
{
    let run = encode_utf8(text);
    let n = i + run.len();
    lemma_nul_free_bytes(text);
    assert forall|k: int| i <= k < n implies s[k] != 0 by {
        assert(s[k] == s.subrange(i, n)[k - i]);
    }
    lemma_nul_from(s, i, n);
    encode_utf8_valid_utf8(text);
    encode_utf8_decode_utf8(text);
}

/// What [`nul_from`] finds is the end of a run without zero bytes.
pub proof fn lemma_nul_run(s: Seq<u8>, i: int)
    requires
        0 <= i <= s.len(),
    ensures
        i <= nul_from(s, i) <= s.len(),
        nul_from(s, i) < s.len() ==> s[nul_from(s, i)] == 0,
        forall|k: int| i <= k < nul_from(s, i) ==> s[k] != 0,
    decreases s.len() - i,
{
    if i < s.len() && s[i] != 0 {
        lemma_nul_run(s, i + 1);
    }
}

/// A terminated string of well-formed UTF-8 that was read has no NUL
/// characters and is written as it was.
pub proof fn lemma_cstr_wire(s: Seq<u8>, i: int)
    requires
        0 <= i,
        nul_from(s, i) < s.len(),
        valid_utf8(s.subrange(i, nul_from(s, i))),
    ensures
        i <= nul_from(s, i),
        nul_free(lossy_text(s.subrange(i, nul_from(s, i)))),
        encode_utf8(lossy_text(s.subrange(i, nul_from(s, i)))) == s.subrange(i, nul_from(s, i)),
{
    if i > s.len() {
        assert(nul_from(s, i) == s.len());
    }
    lemma_nul_run(s, i);
    let run = s.subrange(i, nul_from(s, i));
    decode_utf8_encode_utf8(run);
    assert(forall|k: int| 0 <= k < run.len() ==> run[k] == s[i + k]);
    lemma_nul_free_text(decode_utf8(run));
}

/// Read a string that ends with a zero byte and step over it and its end.
#[verifier::loop_isolation(false)]
pub fn rd_cstr(buf: &[u8], pos: &mut usize) -> (r: Option<String>)
    requires
        *old(pos) <= buf@.len(),
    ensures
        match r {
            Some(t) => {
                let n = nul_from(buf@, *old(pos) as int);
                &&& *old(pos) <= n < buf@.len()
                &&& t@ == lossy_text(buf@.subrange(*old(pos) as int, n))
                &&& nul_free(t@)
                &&& *final(pos) == n + 1
            },
            None => nul_from(buf@, *old(pos) as int) >= buf@.len() && *final(pos) == *old(pos),
        },
{
    let start: usize = *pos;
    let mut end: usize = start;
    while end < buf.len()
        invariant
            start <= end <= buf.len(),
            *pos == start,
            nul_from(buf@, start as int) == nul_from(buf@, end as int),
            forall|k: int| start <= k < end ==> buf@[k] != 0,
        decreases buf.len() - end,
    {
        if buf[end] == 0 {
            let bytes: &[u8] = &buf[start..end];
            assert(forall|k: int| 0 <= k < bytes@.len() ==> bytes@[k] == buf@[start + k]);
            let text: String = text_lossy(bytes);
            *pos = end + 1;
            return Some(text);
        }
        end = end + 1;
    }
    None
}

// ---------------------------------------------------------------------
// Child boxes
// ---------------------------------------------------------------------

/// A child box: its type, and where its payload starts and ends.
#[derive(Clone, Copy, Debug, PartialEq, Eq)]
pub struct Child {
    /// The four-character type.
    pub fourcc: [u8; 4],
    /// Where the payload starts in the container's body.
    pub start: usize,
    /// Where the payload ends.
    pub end: usize,
}

/// The value of a [`Child`].
pub struct ChildView {
    pub code: Seq<u8>,
    pub start: int,
    pub end: int,
}

impl View for Child {
    type V = ChildView;

    open spec fn view(&self) -> ChildView {
        ChildView { code: self.fourcc@, start: self.start as int, end: self.end as int }
    }
}

/// The values of a list of children.
pub open spec fn child_views(c: Seq<Child>) -> Seq<ChildView> {
    Seq::new(c.len(), |i: int| c[i]@)
}

/// How long the header of the box at `pos` is.
pub open spec fn header_len(s: Seq<u8>, pos: int) -> int {
    if be32_at(s, pos) == 1 {
        16
    } else {
        8
    }
}

/// How long the box at `pos` says it is: a 64-bit size follows where the
/// 32-bit one is 1, and 0 stands for the rest of the container.
pub open spec fn declared_len(s: Seq<u8>, pos: int) -> int {
    if be32_at(s, pos) == 1 {
        be64_at(s, pos + 8) as int
    } else if be32_at(s, pos) == 0 {
        s.len() - pos
    } else {
        be32_at(s, pos) as int
    }
}

/// A whole box with a sound size stands at `pos`.
pub open spec fn child_at(s: Seq<u8>, pos: int) -> bool {
    &&& pos + 8 <= s.len()
    &&& pos + header_len(s, pos) <= s.len()
    &&& declared_len(s, pos) >= header_len(s, pos)
    &&& pos + declared_len(s, pos) <= s.len()
}

/// The boxes that follow one another from `pos`, up to the first one that
/// is cut off or malformed.
pub open spec fn children_of(s: Seq<u8>, pos: int) -> Seq<ChildView>
    decreases s.len() - pos,
{
    if pos < 0 || !child_at(s, pos) {
        Seq::empty()
    } else {
        seq![
            ChildView {
                code: s.subrange(pos + 4, pos + 8),
                start: pos + header_len(s, pos),
                end: pos + declared_len(s, pos),
            },
        ] + children_of(s, pos + declared_len(s, pos))
    }
}

/// The children of a container body, in order. The walk ends at the first
/// child that is cut off or malformed.
#[verifier::loop_isolation(false)]
pub fn each_child(body: &[u8]) -> (r: Vec<Child>)
    ensures
        child_views(r@) == children_of(body@, 0),
        forall|i: int| 0 <= i < r@.len() ==> (#[trigger] r@[i]).start <= r@[i].end <= body@.len(),
{
    let mut out: Vec<Child> = Vec::new();
    let mut pos: usize = 0;
    let ghost all = children_of(body@, 0);
    assert(child_views(out@) + all =~= all);
    while body.len() - pos >= 8
        invariant
            pos <= body.len(),
            child_views(out@) + children_of(body@, pos as int) == all,
            forall|i: int|
                0 <= i < out@.len() ==> (#[trigger] out@[i]).start <= out@[i].end <= body@.len(),
        decreases body.len() - pos,
    {
        let size32: u32 = u32_at(body, pos);
        let fourcc: [u8; 4] = code_at(body, pos + 4);
        let room: u64 = (body.len() - pos) as u64;
        let mut total: u64 = size32 as u64;
        let mut hdr_len: u64 = 8;
        if size32 == 1 {
            if room < 16 {
                assert(!child_at(body@, pos as int));
                assert(child_views(out@) =~= all);
                return out;
            }
            total = u64_at(body, pos + 8);
            hdr_len = 16;
        } else if size32 == 0 {
            total = room;
        }
        if total < hdr_len || total > room {
            assert(!child_at(body@, pos as int));
            assert(child_views(out@) =~= all);
            return out;
        }
        let end: usize = pos + total as usize;
        let child: Child = Child { fourcc, start: pos + hdr_len as usize, end };
        let ghost before = child_views(out@);
        out.push(child);
        proof {
            assert(child_at(body@, pos as int));
            let rest = children_of(body@, end as int);
            assert(child_views(out@) =~= before.push(child@));
            assert(children_of(body@, pos as int) =~= seq![child@] + rest);
            assert(child_views(out@) + rest =~= before + (seq![child@] + rest));
        }
        pos = end;
    }
    assert(!child_at(body@, pos as int));
    assert(child_views(out@) =~= all);
    out
}

/// A box by type and body.
pub struct BoxPart {
    pub code: [u8; 4],
    pub body: Seq<u8>,
}

/// Boxes on the wire.
pub open spec fn part_wires(parts: Seq<BoxPart>) -> Seq<Seq<u8>> {
    Seq::new(parts.len(), |i: int| boxed(parts[i].code, parts[i].body))
}

/// The boxes one after the other.
pub open spec fn parts_wire(parts: Seq<BoxPart>) -> Seq<u8> {
    joined(part_wires(parts))
}

/// One box more at the end.
pub proof fn lemma_parts_push(parts: Seq<BoxPart>, part: BoxPart)
    ensures
        parts_wire(parts.push(part)) == parts_wire(parts) + boxed(part.code, part.body),
{
    lemma_joined_push(part_wires(parts), boxed(part.code, part.body));
    assert(part_wires(parts.push(part)) =~= part_wires(parts).push(boxed(part.code, part.body)));
}

/// The children of `s` are the boxes of `parts`, in order.
pub open spec fn children_are(s: Seq<u8>, kids: Seq<ChildView>, parts: Seq<BoxPart>) -> bool {
    kids.len() == parts.len() && forall|i: int|
        0 <= i < kids.len() ==> (#[trigger] kids[i]).code == parts[i].code@ && s.subrange(
            kids[i].start,
            kids[i].end,
        ) == parts[i].body
}

/// The payload of the last child of a given type.
pub open spec fn last_payload(s: Seq<u8>, kids: Seq<ChildView>, code: [u8; 4]) -> Option<Seq<u8>>
    decreases kids.len(),
{
    if kids.len() == 0 {
        None
    } else if kids.last().code == code@ {
        Some(s.subrange(kids.last().start, kids.last().end))
    } else {
        last_payload(s, kids.drop_last(), code)
    }
}

/// The bytes are one box that says how long it is, in 32 or 64 bits.
pub open spec fn sized_box(w: Seq<u8>) -> bool {
    &&& child_at(w, 0)
    &&& be32_at(w, 0) != 0
    &&& declared_len(w, 0) == w.len()
}

/// The type of a box.
pub open spec fn type_of(w: Seq<u8>) -> Seq<u8> {
    w.subrange(4, 8)
}

/// The payload of a box.
pub open spec fn payload_of(w: Seq<u8>) -> Seq<u8> {
    w.subrange(header_len(w, 0), w.len() as int)
}

/// A written box whose size fits says how long it is.
pub proof fn lemma_boxed_is_sized(code: [u8; 4], body: Seq<u8>)
    requires
        fits_box(body),
    ensures
        sized_box(boxed(code, body)),
        type_of(boxed(code, body)) == code@,
        payload_of(boxed(code, body)) == body,
{
    lemma_boxed(code, body);
}

/// The children of `s` are the boxes `w`, in order.
pub open spec fn walks(s: Seq<u8>, kids: Seq<ChildView>, w: Seq<Seq<u8>>) -> bool {
    kids.len() == w.len() && forall|i: int|
        0 <= i < kids.len() ==> (#[trigger] kids[i]).code == type_of(w[i]) && s.subrange(
            kids[i].start,
            kids[i].end,
        ) == payload_of(w[i])
}

/// Boxes that say how long they are are found one after the other.
pub proof fn lemma_walks(s: Seq<u8>, pos: int, w: Seq<Seq<u8>>)
    requires
        holds_at(s, pos, joined(w)),
        pos + joined(w).len() == s.len(),
        forall|i: int| 0 <= i < w.len() ==> sized_box(#[trigger] w[i]),
    ensures
        walks(s, children_of(s, pos), w),
    decreases w.len(),
{
    if w.len() > 0 {
        let first = w[0];
        let rest = w.drop_first();
        lemma_joined_first(w);
        lemma_holds_split(s, pos, first, joined(rest));
        let next = pos + first.len();
        assert(s.subrange(pos, next) == first);
        assert forall|i: int| 0 <= i < first.len() implies s[pos + i] == first[i] by {
            assert(s.subrange(pos, next)[i] == first[i]);
        }
        assert(s.subrange(pos + 4, pos + 8) =~= type_of(first));
        assert(s.subrange(pos + header_len(first, 0), next) =~= payload_of(first));
        lemma_walks(s, next, rest);
        assert(child_at(s, pos));
        let tail = children_of(s, next);
        let kids = children_of(s, pos);
        assert forall|i: int| 0 <= i < kids.len() implies (#[trigger] kids[i]).code == type_of(w[i])
            && s.subrange(kids[i].start, kids[i].end) == payload_of(w[i]) by {
            if i > 0 {
                assert(kids[i] == tail[i - 1]);
                assert(w[i] == rest[i - 1]);
            }
        }
    }
}

/// Boxes whose sizes fit are found where they were written.
pub proof fn lemma_children_of(s: Seq<u8>, pos: int, parts: Seq<BoxPart>)
    requires
        holds_at(s, pos, parts_wire(parts)),
        pos + parts_wire(parts).len() == s.len(),
        forall|i: int| 0 <= i < parts.len() ==> fits_box((#[trigger] parts[i]).body),
    ensures
        children_are(s, children_of(s, pos), parts),
{
    let wires = part_wires(parts);
    assert forall|i: int| 0 <= i < wires.len() implies sized_box(#[trigger] wires[i]) && type_of(
        wires[i],
    ) == parts[i].code@ && payload_of(wires[i]) == parts[i].body by {
        lemma_boxed_is_sized(parts[i].code, parts[i].body);
    }
    lemma_walks(s, pos, wires);
}

/// Of the boxes `w` those of type `code` have the payload `body`, and there
/// are such boxes if there is a `body`.
pub open spec fn carries(w: Seq<Seq<u8>>, code: [u8; 4], body: Option<Seq<u8>>) -> bool {
    &&& forall|i: int|
        0 <= i < w.len() && type_of(#[trigger] w[i]) == code@ ==> body == Some(payload_of(w[i]))
    &&& body is Some ==> exists|i: int| 0 <= i < w.len() && type_of(#[trigger] w[i]) == code@
}

/// The last payload of a type is that of a child, unless there is none.
proof fn lemma_last_payload(s: Seq<u8>, kids: Seq<ChildView>, code: [u8; 4])
    ensures
        match last_payload(s, kids, code) {
            Some(body) => exists|i: int|
                0 <= i < kids.len() && (#[trigger] kids[i]).code == code@ && s.subrange(
                    kids[i].start,
                    kids[i].end,
                ) == body,
            None => forall|i: int| 0 <= i < kids.len() ==> (#[trigger] kids[i]).code != code@,
        },
    decreases kids.len(),
{
    if kids.len() > 0 {
        let init = kids.drop_last();
        let n = kids.len() - 1;
        assert(kids.last() == kids[n]);
        lemma_last_payload(s, init, code);
        if kids.last().code != code@ {
            match last_payload(s, init, code) {
                Some(body) => {
                    let i = choose|i: int|
                        0 <= i < init.len() && (#[trigger] init[i]).code == code@ && s.subrange(
                            init[i].start,
                            init[i].end,
                        ) == body;
                    assert(kids[i] == init[i]);
                },
                None => {
                    assert forall|i: int| 0 <= i < kids.len() implies (#[trigger] kids[i]).code
                        != code@ by {
                        if i < n {
                            assert(init[i] == kids[i]);
                        }
                    }
                },
            }
        }
    }
}

/// What boxes carry of a type is what a walk over them finds.
pub proof fn lemma_carried(
    s: Seq<u8>,
    kids: Seq<ChildView>,
    w: Seq<Seq<u8>>,
    code: [u8; 4],
    body: Option<Seq<u8>>,
)
    requires
        walks(s, kids, w),
        carries(w, code, body),
    ensures
        last_payload(s, kids, code) == body,
{
    lemma_last_payload(s, kids, code);
    match last_payload(s, kids, code) {
        Some(x) => {
            let i = choose|i: int|
                0 <= i < kids.len() && (#[trigger] kids[i]).code == code@ && s.subrange(
                    kids[i].start,
                    kids[i].end,
                ) == x;
            assert(type_of(w[i]) == code@);
        },
        None => {
            if body is Some {
                let i = choose|i: int| 0 <= i < w.len() && type_of(#[trigger] w[i]) == code@;
                assert(kids[i].code == code@);
            }
        },
    }
}

} // verus!
