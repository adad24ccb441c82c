//! `gitn`: the names of file groups.

use crate::boxes::GITN;
use crate::bytes::{
    be16, be16_at, be32, be32_at, boxed, lemma_be16_at, lemma_be16_wire, lemma_be32_at,
    lemma_be32_wire, put_bytes, put_u16, put_u32, put_u8, wrap_box,
};
use crate::fd::wire::{
    fullbox_wire, lemma_cstr_at, lemma_cstr_wire, lemma_nul_from, lemma_nul_run, nul_from, rd_cstr,
    rd_fullbox, rd_u16, rd_u32, wr_fullbox,
};
use crate::seqs::{
    holds_at, joined, lemma_holds_split, lemma_joined_first, lemma_joined_push,
};
use crate::text::{lossy_text, nul_free};
use vstd::prelude::*;
use vstd::utf8::{encode_utf8, valid_utf8};

verus! {

/// The name of a file group.
#[derive(Clone, Debug, PartialEq, Eq)]
pub struct GroupName {
    /// The file group.
    pub group_id: u32,
    /// Its name.
    pub group_name: String,
}

/// A group ID to name box.
#[derive(Clone, Debug, PartialEq, Eq)]
pub struct GitnBox {
    /// The names, in order.
    pub entries: Vec<GroupName>,
}

/// The value of a [`GroupName`].
#[verifier::ext_equal]
pub struct GroupNameView {
    pub group_id: u32,
    pub group_name: Seq<char>,
}

impl View for GroupName {
    type V = GroupNameView;

    open spec fn view(&self) -> GroupNameView {
        GroupNameView { group_id: self.group_id, group_name: self.group_name@ }
    }
}

/// The values of names.
pub open spec fn name_views(n: Seq<GroupName>) -> Seq<GroupNameView> {
    Seq::new(n.len(), |i: int| n[i]@)
}

impl View for GitnBox {
    type V = Seq<GroupNameView>;

    open spec fn view(&self) -> Seq<GroupNameView> {
        name_views(self.entries@)
    }
}

/// The name that starts at `pos`, and where it ends.
pub open spec fn name_at(s: Seq<u8>, pos: int) -> Option<(GroupNameView, int)> {
    if pos + 4 > s.len() || nul_from(s, pos + 4) >= s.len() {
        None
    } else {
        Some(
            (
                GroupNameView {
                    group_id: be32_at(s, pos),
                    group_name: lossy_text(s.subrange(pos + 4, nul_from(s, pos + 4))),
                },
                nul_from(s, pos + 4) + 1,
            ),
        )
    }
}

/// The `n` names that follow one another from `pos`, and where the last
/// one ends.
pub open spec fn names_from(s: Seq<u8>, pos: int, n: nat) -> Option<(Seq<GroupNameView>, int)>
    decreases n,
{
    if n == 0 {
        Some((Seq::empty(), pos))
    } else {
        match name_at(s, pos) {
            None => None,
            Some((first, next)) => match names_from(s, next, (n - 1) as nat) {
                None => None,
                Some((rest, end)) => Some((seq![first] + rest, end)),
            },
        }
    }
}

/// The names that a `gitn` body holds, and where they end.
pub open spec fn gitn_parts(s: Seq<u8>) -> Option<(Seq<GroupNameView>, int)> {
    if s.len() < 6 {
        None
    } else {
        names_from(s, 6, be16_at(s, 4) as nat)
    }
}

/// The names that a `gitn` body holds.
pub open spec fn gitn_of(s: Seq<u8>) -> Option<Seq<GroupNameView>> {
    match gitn_parts(s) {
        None => None,
        Some((names, _end)) => Some(names),
    }
}

/// A name on the wire.
pub open spec fn name_wire(n: GroupNameView) -> Seq<u8> {
    be32(n.group_id) + encode_utf8(n.group_name) + seq![0u8]
}

/// The names on the wire.
pub open spec fn name_wires(names: Seq<GroupNameView>) -> Seq<Seq<u8>> {
    Seq::new(names.len(), |i: int| name_wire(names[i]))
}

/// The body of a `gitn` box, with the low 16 bits of the count.
pub open spec fn gitn_body(names: Seq<GroupNameView>) -> Seq<u8> {
    fullbox_wire(0, 0) + be16((names.len() % 0x1_0000) as u16) + joined(name_wires(names))
}

/// No name holds its own terminator.
pub open spec fn names_nul_free(names: Seq<GroupNameView>) -> bool {
    forall|i: int| 0 <= i < names.len() ==> nul_free((#[trigger] names[i]).group_name)
}

/// The count fits its field, and no name holds its own terminator.
pub open spec fn gitn_wf(names: Seq<GroupNameView>) -> bool {
    names.len() <= 0xFFFF && names_nul_free(names)
}

/// Read a name at `start`, and say where it ends.
fn rd_name(body: &[u8], start: usize) -> (r: Option<(GroupName, usize)>)
    requires
        start <= body@.len(),
    ensures
        match r {
            Some((n, end)) => end <= body@.len() && name_at(body@, start as int) == Some(
                (n@, end as int),
            ) && nul_free(n@.group_name),
            None => name_at(body@, start as int) is None,
        },
{
    let mut pos: usize = start;
    let group_id: u32 = rd_u32(body, &mut pos)?;
    let group_name: String = rd_cstr(body, &mut pos)?;
    Some((GroupName { group_id, group_name }, pos))
}

/// Parse a `gitn` body. There is none where it is cut off or a name has no
/// end.
#[verifier::loop_isolation(false)]
pub fn parse_gitn_box(body: &[u8]) -> (r: Option<GitnBox>)
    ensures
        match r {
            Some(b) => gitn_of(body@) == Some(b@) && gitn_wf(b@),
            None => gitn_of(body@) is None,
        },
{
    let mut p: usize = 0;
    let (_version, _flags): (u8, u32) = rd_fullbox(body, &mut p)?;
    let entry_count: u16 = rd_u16(body, &mut p)?;
    let mut entries: Vec<GroupName> = Vec::new();
    let mut i: u16 = 0;
    let ghost all = gitn_parts(body@);
    assert(name_views(entries@) =~= Seq::<GroupNameView>::empty());
    assert(forall|t: Seq<GroupNameView>| #![auto] Seq::<GroupNameView>::empty() + t =~= t);
    while i < entry_count
        invariant
            i <= entry_count,
            p <= body.len(),
            entries.len() == i,
            names_nul_free(name_views(entries@)),
            all == (match names_from(body@, p as int, (entry_count - i) as nat) {
                None => None,
                Some((rest, end)) => Some((name_views(entries@) + rest, end)),
            }),
        decreases entry_count - i,
    {
        let ghost before = name_views(entries@);
        match rd_name(body, p) {
            Some((n, end)) => {
                p = end;
                entries.push(n);
                proof {
                    assert(name_views(entries@) =~= before.push(n@));
                    assert forall|t: Seq<GroupNameView>|
                        #[trigger] (before + (seq![n@] + t)) =~= before.push(n@) + t by {}
                }
            },
            None => {
                return None;
            },
        }
        i = i + 1;
    }
    assert(name_views(entries@) + Seq::<GroupNameView>::empty() =~= name_views(entries@));
    Some(GitnBox { entries })
}

/// Serialise a `gitn` box.
pub fn build_gitn_box(b: &GitnBox) -> (r: Vec<u8>)
    ensures
        r@ == boxed(GITN, gitn_body(b@)),
{
    let mut body: Vec<u8> = Vec::new();
    wr_fullbox(&mut body, 0, 0);
    put_u16(&mut body, (b.entries.len() % 0x1_0000) as u16);
    let ghost head = body@;
    let ghost wires = name_wires(b@);
    let mut i: usize = 0;
    assert(wires.take(0) =~= Seq::<Seq<u8>>::empty());
    assert(body@ =~= head + joined(wires.take(0)));
    while i < b.entries.len()
        invariant
            i <= b.entries.len(),
            wires == name_wires(b@),
            body@ == head + joined(wires.take(i as int)),
        decreases b.entries.len() - i,
    {
        put_u32(&mut body, b.entries[i].group_id);
        put_bytes(&mut body, b.entries[i].group_name.as_str().as_bytes());
        put_u8(&mut body, 0);
        proof {
            lemma_joined_push(wires.take(i as int), wires[i as int]);
            assert(wires.take(i as int).push(wires[i as int]) =~= wires.take(i + 1));
            assert(body@ =~= head + joined(wires.take(i + 1)));
        }
        i = i + 1;
    }
    assert(wires.take(b.entries.len() as int) =~= wires);
    assert(body@ =~= gitn_body(b@));
    wrap_box(&GITN, body.as_slice())
}

// ---------------------------------------------------------------------
// Laws
// ---------------------------------------------------------------------

/// A name is found where it was written.
proof fn lemma_name_at(s: Seq<u8>, pos: int, n: GroupNameView)
    requires
        holds_at(s, pos, name_wire(n)),
        nul_free(n.group_name),
    ensures
        name_at(s, pos) == Some((n, pos + name_wire(n).len())),
{
    let run = encode_utf8(n.group_name);
    lemma_holds_split(s, pos, be32(n.group_id) + run, seq![0u8]);
    lemma_holds_split(s, pos, be32(n.group_id), run);
    lemma_be32_at(s, pos, n.group_id);
    let end = pos + 4 + run.len();
    assert(s[end] == s.subrange(end, end + 1)[0]);
    lemma_cstr_at(s, pos + 4, n.group_name);
}

/// Names are found where they were written.
proof fn lemma_names_from(s: Seq<u8>, pos: int, names: Seq<GroupNameView>)
    requires
        holds_at(s, pos, joined(name_wires(names))),
        names_nul_free(names),
    ensures
        names_from(s, pos, names.len()) == Some((names, pos + joined(name_wires(names)).len())),
    decreases names.len(),
{
    let wires = name_wires(names);
    if names.len() > 0 {
        let rest = names.drop_first();
        let w0 = name_wire(names[0]);
        lemma_joined_first(wires);
        assert(wires.drop_first() =~= name_wires(rest));
        lemma_holds_split(s, pos, w0, joined(name_wires(rest)));
        lemma_name_at(s, pos, names[0]);
        lemma_names_from(s, pos + w0.len(), rest);
        assert(seq![names[0]] + rest =~= names);
    } else {
        assert(names =~= Seq::empty());
    }
}

/// As many names are read as the count says.
proof fn lemma_names_len(s: Seq<u8>, pos: int, n: nat)
    requires
        names_from(s, pos, n) is Some,
    ensures
        (names_from(s, pos, n)->0).0.len() == n,
    decreases n,
{
    if n > 0 {
        lemma_names_len(s, (name_at(s, pos)->0).1, (n - 1) as nat);
    }
}

/// All names from `pos` on are well-formed UTF-8.
pub open spec fn names_are_utf8(s: Seq<u8>, pos: int, n: nat) -> bool
    decreases n,
{
    n > 0 ==> (name_at(s, pos) matches Some((_first, next)) ==> valid_utf8(
        s.subrange(pos + 4, nul_from(s, pos + 4)),
    ) && names_are_utf8(s, next, (n - 1) as nat))
}

/// Names of well-formed UTF-8 that were read are written as they were.
proof fn lemma_names_wire(s: Seq<u8>, pos: int, n: nat)
    requires
        0 <= pos <= s.len(),
        names_from(s, pos, n) is Some,
        names_are_utf8(s, pos, n),
    ensures
        ({
            let (names, end) = names_from(s, pos, n)->0;
            &&& pos <= end <= s.len()
            &&& joined(name_wires(names)) == s.subrange(pos, end)
        }),
    decreases n,
{
    let (names, end) = names_from(s, pos, n)->0;
    if n > 0 {
        let (first, next) = name_at(s, pos)->0;
        let stop = next - 1;
        lemma_nul_run(s, pos + 4);
        lemma_names_wire(s, next, (n - 1) as nat);
        let (rest, _end) = names_from(s, next, (n - 1) as nat)->0;
        assert(names == seq![first] + rest);
        let wires = name_wires(names);
        lemma_joined_first(wires);
        assert(wires.drop_first() =~= name_wires(rest));
        lemma_be32_wire(s, pos);
        lemma_cstr_wire(s, pos + 4);
        assert(s.subrange(pos, pos + 4) + s.subrange(pos + 4, stop) =~= s.subrange(pos, stop));
        assert(s.subrange(pos, stop) + seq![0u8] =~= s.subrange(pos, next));
        assert(s.subrange(pos, next) + s.subrange(next, end) =~= s.subrange(pos, end));
    } else {
        assert(joined(name_wires(names)) =~= s.subrange(pos, end));
    }
}

/// Names that fit parse back as they were written, also with more bytes
/// behind them.
pub proof fn law_gitn_build_parse(names: Seq<GroupNameView>, tail: Seq<u8>)
    requires
        gitn_wf(names),
    ensures
        gitn_of(gitn_body(names) + tail) == Some(names),
{
    let s = gitn_body(names) + tail;
    let n = names.len() as u16;
    let rows = joined(name_wires(names));
    assert(s.subrange(4, 6) =~= be16(n));
    lemma_be16_at(s, 4, n);
    assert(s.subrange(6, 6 + rows.len() as int) =~= rows);
    lemma_names_from(s, 6, names);
}

/// A body that parses to names without NUL characters, as all parsed names
/// are, gives names that parse again to themselves once written.
pub proof fn law_gitn_parse_build_parse(s: Seq<u8>)
    ensures
        gitn_of(s) matches Some(names) ==> names_nul_free(names) ==> gitn_wf(names) && gitn_of(
            gitn_body(names),
        ) == Some(names),
{
    if let Some(names) = gitn_of(s) {
        if names_nul_free(names) {
            lemma_names_len(s, 6, be16_at(s, 4) as nat);
            law_gitn_build_parse(names, Seq::empty());
            assert(gitn_body(names) + Seq::<u8>::empty() =~= gitn_body(names));
        }
    }
}

/// A body that parses, with zero version and flags, well-formed UTF-8 and
/// nothing behind the last name, is written again byte for byte.
pub proof fn law_gitn_rebuild_is_byte_exact(s: Seq<u8>)
    requires
        gitn_parts(s) is Some,
        (gitn_parts(s)->0).1 == s.len(),
        s.subrange(0, 4) == fullbox_wire(0, 0),
        names_are_utf8(s, 6, be16_at(s, 4) as nat),
    ensures
        gitn_of(s) matches Some(names) && gitn_body(names) == s,
{
    let n = be16_at(s, 4) as nat;
    lemma_names_len(s, 6, n);
    lemma_names_wire(s, 6, n);
    lemma_be16_wire(s, 4);
    assert(s.subrange(0, 4) + s.subrange(4, 6) =~= s.subrange(0, 6));
    assert(s.subrange(0, 6) + s.subrange(6, s.len() as int) =~= s);
}

/// A name that is read from the start of `s` ends there in `s` too.
proof fn lemma_name_stays(s: Seq<u8>, cut: int, pos: int)
    requires
        0 <= pos,
        0 <= cut <= s.len(),
        name_at(s.take(cut), pos) is Some,
    ensures
        ({
            let end = (name_at(s.take(cut), pos)->0).1;
            &&& pos < end <= cut
            &&& name_at(s, pos) is Some
            &&& (name_at(s, pos)->0).1 == end
        }),
{
    let t = s.take(cut);
    let stop = nul_from(t, pos + 4);
    lemma_nul_run(t, pos + 4);
    assert(t[stop] == s[stop]);
    assert forall|k: int| pos + 4 <= k < stop implies s[k] != 0 by {
        assert(t[k] == s[k]);
    }
    lemma_nul_from(s, pos + 4, stop);
}

/// Names that are read from the start of `s` end there in `s` too.
proof fn lemma_names_stay(s: Seq<u8>, cut: int, pos: int, n: nat)
    requires
        0 <= pos <= cut <= s.len(),
        names_from(s.take(cut), pos, n) is Some,
    ensures
        ({
            let end = (names_from(s.take(cut), pos, n)->0).1;
            &&& end <= cut
            &&& names_from(s, pos, n) is Some
            &&& (names_from(s, pos, n)->0).1 == end
        }),
    decreases n,
{
    if n > 0 {
        lemma_name_stays(s, cut, pos);
        let next = (name_at(s.take(cut), pos)->0).1;
        lemma_names_stay(s, cut, next, (n - 1) as nat);
    }
}

/// Every body shorter than a written `gitn` body is refused.
pub proof fn law_truncated_gitn_is_refused(names: Seq<GroupNameView>, cut: int)
    requires
        gitn_wf(names),
        0 <= cut < gitn_body(names).len(),
    ensures
        gitn_of(gitn_body(names).take(cut)) is None,
{
    let s = gitn_body(names);
    let t = s.take(cut);
    let n = names.len() as u16;
    let rows = joined(name_wires(names));
    if cut >= 6 {
        assert(t.subrange(4, 6) =~= be16(n));
        lemma_be16_at(t, 4, n);
        assert(s.subrange(6, 6 + rows.len() as int) =~= rows);
        lemma_names_from(s, 6, names);
        if names_from(t, 6, n as nat) is Some {
            lemma_names_stay(s, cut, 6, n as nat);
        }
    }
}

} // verus!
