//! `fecr` and `fire`: the reservoirs that hold the symbols of source
//! blocks. Both have one layout.

use crate::bytes::{
    be32, be32_at, boxed, lemma_be32_at, lemma_be32_wire, low32, put_u32, size_field, wrap_box,
};
use crate::fd::wire::{
    fullbox_wire, id_at, id_fits, id_width, id_wire, lemma_id_at, lemma_id_wire, rd_fullbox, rd_id,
    rd_u32, wr_fullbox, wr_id,
};
use crate::seqs::{joined, lemma_joined_equal_parts, lemma_joined_push, lemma_joined_tiles};
use vstd::prelude::*;

verus! {

/// The reservoir of one source block.
#[derive(Clone, Copy, Debug, PartialEq, Eq)]
pub struct ReservoirEntry {
    /// The item that holds the reservoir.
    pub item_id: u32,
    /// How many symbols it holds.
    pub symbol_count: u32,
}

/// A FEC reservoir box or a file reservoir box.
#[derive(Clone, Debug, PartialEq, Eq)]
pub struct ReservoirBox {
    /// 0 for 16-bit identifiers and count, anything else for 32-bit ones.
    pub version: u8,
    /// One reservoir for each source block.
    pub entries: Vec<ReservoirEntry>,
}

/// The value of a [`ReservoirBox`].
#[verifier::ext_equal]
pub struct ReservoirView {
    pub version: u8,
    pub entries: Seq<ReservoirEntry>,
}

impl View for ReservoirBox {
    type V = ReservoirView;

    open spec fn view(&self) -> ReservoirView {
        ReservoirView { version: self.version, entries: self.entries@ }
    }
}

/// How long an entry is.
pub open spec fn entry_width(version: u8) -> int {
    if version == 0 {
        6
    } else {
        8
    }
}

/// Where the `i`-th entry starts.
pub open spec fn entry_start(version: u8, i: int) -> int {
    if version == 0 {
        6 + 6 * i
    } else {
        8 + 8 * i
    }
}

/// The entry that starts at `i`.
pub open spec fn entry_at(s: Seq<u8>, i: int, version: u8) -> ReservoirEntry {
    ReservoirEntry {
        item_id: id_at(s, i, version),
        symbol_count: be32_at(s, i + id_width(version)),
    }
}

/// The record that a reservoir body holds.
pub open spec fn reservoir_of(s: Seq<u8>) -> Option<ReservoirView> {
    if s.len() < 4 || s.len() < entry_start(s[0], 0) || s.len() < entry_start(
        s[0],
        id_at(s, 4, s[0]) as int,
    ) {
        None
    } else {
        Some(
            ReservoirView {
                version: s[0],
                entries: Seq::new(
                    id_at(s, 4, s[0]) as nat,
                    |i: int| entry_at(s, entry_start(s[0], i), s[0]),
                ),
            },
        )
    }
}

/// An entry on the wire.
pub open spec fn entry_wire(e: ReservoirEntry, version: u8) -> Seq<u8> {
    id_wire(e.item_id, version) + be32(e.symbol_count)
}

/// The entries on the wire.
pub open spec fn entry_wires(b: ReservoirView) -> Seq<Seq<u8>> {
    Seq::new(b.entries.len(), |i: int| entry_wire(b.entries[i], b.version))
}

/// The body of a reservoir box.
pub open spec fn reservoir_body(b: ReservoirView) -> Seq<u8> {
    fullbox_wire(b.version, 0) + id_wire(size_field(b.entries.len()), b.version) + joined(
        entry_wires(b),
    )
}

/// Identifiers and count fit their fields.
pub open spec fn reservoir_wf(b: ReservoirView) -> bool {
    id_fits(b.entries.len() as int, b.version) && forall|i: int|
        0 <= i < b.entries.len() ==> id_fits((#[trigger] b.entries[i]).item_id as int, b.version)
}

/// Parse a reservoir body. There is none where it is cut off.
#[verifier::loop_isolation(false)]
pub fn parse_reservoir_box(body: &[u8]) -> (r: Option<ReservoirBox>)
    ensures
        match r {
            Some(b) => reservoir_of(body@) == Some(b@),
            None => reservoir_of(body@) is None,
        },
{
    let mut p: usize = 0;
    let (version, _flags): (u8, u32) = rd_fullbox(body, &mut p)?;
    let entry_count: u32 = rd_id(body, &mut p, version)?;
    let mut entries: Vec<ReservoirEntry> = Vec::new();
    let mut i: u32 = 0;
    while i < entry_count
        invariant
            i <= entry_count,
            p <= body.len(),
            p == entry_start(version, i as int),
            entries.len() == i,
            forall|k: int|
                0 <= k < i ==> #[trigger] entries@[k] == entry_at(
                    body@,
                    entry_start(version, k),
                    version,
                ),
        decreases entry_count - i,
    {
        let item_id: u32 = rd_id(body, &mut p, version)?;
        let symbol_count: u32 = rd_u32(body, &mut p)?;
        entries.push(ReservoirEntry { item_id, symbol_count });
        i = i + 1;
    }
    assert(entries@ =~= reservoir_of(body@)->0.entries);
    Some(ReservoirBox { version, entries })
}

/// Serialise a reservoir box of type `fourcc`. A version 0 box keeps the
/// low 16 bits of identifiers and count.
pub fn build_reservoir_box(fourcc: &[u8; 4], b: &ReservoirBox) -> (r: Vec<u8>)
    ensures
        r@ == boxed(*fourcc, reservoir_body(b@)),
{
    let mut body: Vec<u8> = Vec::new();
    wr_fullbox(&mut body, b.version, 0);
    wr_id(&mut body, low32(b.entries.len()), b.version);
    let ghost head = body@;
    let ghost wires = entry_wires(b@);
    let mut i: usize = 0;
    assert(wires.take(0) =~= Seq::<Seq<u8>>::empty());
    assert(body@ =~= head + joined(wires.take(0)));
    while i < b.entries.len()
        invariant
            i <= b.entries.len(),
            wires == entry_wires(b@),
            body@ == head + joined(wires.take(i as int)),
        decreases b.entries.len() - i,
    {
        wr_id(&mut body, b.entries[i].item_id, b.version);
        put_u32(&mut body, b.entries[i].symbol_count);
        proof {
            lemma_joined_push(wires.take(i as int), wires[i as int]);
            assert(wires.take(i as int).push(wires[i as int]) =~= wires.take(i + 1));
            assert(body@ =~= head + joined(wires.take(i + 1)));
        }
        i = i + 1;
    }
    assert(wires.take(b.entries.len() as int) =~= wires);
    assert(body@ =~= reservoir_body(b@));
    wrap_box(fourcc, body.as_slice())
}

// ---------------------------------------------------------------------
// Laws
// ---------------------------------------------------------------------

/// An entry is found where it was written.
proof fn lemma_entry_at(s: Seq<u8>, i: int, e: ReservoirEntry, version: u8)
    requires
        0 <= i,
        i + entry_width(version) <= s.len(),
        s.subrange(i, i + entry_width(version)) == entry_wire(e, version),
        id_fits(e.item_id as int, version),
    ensures
        entry_at(s, i, version) == e,
{
    let w = id_width(version);
    let t = s.subrange(i, i + w + 4);
    assert(s.subrange(i, i + w) =~= t.subrange(0, w));
    assert(s.subrange(i + w, i + w + 4) =~= t.subrange(w, w + 4));
    assert(entry_wire(e, version).subrange(0, w) =~= id_wire(e.item_id, version));
    assert(entry_wire(e, version).subrange(w, w + 4) =~= be32(e.symbol_count));
    lemma_id_at(s, i, e.item_id, version);
    lemma_be32_at(s, i + w, e.symbol_count);
}

/// A record whose fields fit parses back as it was written, also with more
/// bytes behind it.
pub proof fn law_reservoir_build_parse(b: ReservoirView, tail: Seq<u8>)
    requires
        reservoir_wf(b),
    ensures
        reservoir_of(reservoir_body(b) + tail) == Some(b),
{
    let s = reservoir_body(b) + tail;
    let v = b.version;
    let w = id_width(v);
    let n = size_field(b.entries.len());
    let wires = entry_wires(b);
    assert(n == b.entries.len());
    assert(s[0] == v);
    assert(s.subrange(4, 4 + w) =~= id_wire(n, v));
    lemma_id_at(s, 4, n, v);
    if v == 0 {
        lemma_joined_equal_parts(wires, 6);
    } else {
        lemma_joined_equal_parts(wires, 8);
    }
    assert forall|i: int| 0 <= i < b.entries.len() implies entry_at(s, entry_start(v, i), v)
        == #[trigger] b.entries[i] by {
        let at = entry_start(v, i);
        let rel = at - 4 - w;
        assert(wires[i] == entry_wire(b.entries[i], v));
        assert(wires[i] == joined(wires).subrange(rel, rel + entry_width(v)));
        assert(s.subrange(at, at + entry_width(v)) =~= joined(wires).subrange(
            rel,
            rel + entry_width(v),
        ));
        lemma_entry_at(s, at, b.entries[i], v);
    }
    assert(reservoir_of(s)->0.entries =~= b.entries);
}

/// Every body that parses gives a record whose fields fit and that parses
/// again to itself once written.
pub proof fn law_reservoir_parse_build_parse(s: Seq<u8>)
    ensures
        reservoir_of(s) matches Some(b) ==> reservoir_wf(b) && reservoir_of(reservoir_body(b))
            == Some(b),
{
    if let Some(b) = reservoir_of(s) {
        lemma_id_wire(s, 4, s[0]);
        assert forall|i: int| 0 <= i < b.entries.len() implies id_fits(
            (#[trigger] b.entries[i]).item_id as int,
            b.version,
        ) by {
            lemma_id_wire(s, entry_start(s[0], i), s[0]);
        }
        law_reservoir_build_parse(b, Seq::empty());
        assert(reservoir_body(b) + Seq::<u8>::empty() =~= reservoir_body(b));
    }
}

/// A body that parses, with zero flags and nothing behind the entries, is
/// written again byte for byte.
pub proof fn law_reservoir_rebuild_is_byte_exact(s: Seq<u8>)
    requires
        reservoir_of(s) is Some,
        s[1] == 0 && s[2] == 0 && s[3] == 0,
        s.len() == entry_start(s[0], reservoir_of(s)->0.entries.len() as int),
    ensures
        reservoir_body(reservoir_of(s)->0) == s,
{
    let b = reservoir_of(s)->0;
    let v = s[0];
    let w = id_width(v);
    let wires = entry_wires(b);
    lemma_id_wire(s, 4, v);
    assert forall|i: int| 0 <= i < wires.len() implies #[trigger] wires[i] == s.subrange(
        entry_start(v, i),
        entry_start(v, i) + entry_width(v),
    ) by {
        let at = entry_start(v, i);
        lemma_id_wire(s, at, v);
        lemma_be32_wire(s, at + w);
        assert(s.subrange(at, at + w) + s.subrange(at + w, at + w + 4) =~= s.subrange(
            at,
            at + w + 4,
        ));
    }
    if v == 0 {
        lemma_joined_tiles(wires, 6, s, 6);
    } else {
        lemma_joined_tiles(wires, 8, s, 8);
    }
    assert(fullbox_wire(v, 0) =~= s.subrange(0, 4));
    assert(size_field(b.entries.len()) == id_at(s, 4, v));
    assert(s.subrange(0, 4) + s.subrange(4, 4 + w) =~= s.subrange(0, 4 + w));
    assert(s.subrange(0, 4 + w) + s.subrange(4 + w, s.len() as int) =~= s);
}

/// Every body shorter than a written reservoir body is refused.
pub proof fn law_truncated_reservoir_is_refused(b: ReservoirView, cut: int)
    requires
        reservoir_wf(b),
        0 <= cut < reservoir_body(b).len(),
    ensures
        reservoir_of(reservoir_body(b).take(cut)) is None,
{
    let t = reservoir_body(b).take(cut);
    let v = b.version;
    let w = id_width(v);
    let n = size_field(b.entries.len());
    let wires = entry_wires(b);
    if v == 0 {
        lemma_joined_equal_parts(wires, 6);
    } else {
        lemma_joined_equal_parts(wires, 8);
    }
    if cut >= 4 {
        assert(t[0] == v);
    }
    if cut >= 4 + w {
        assert(t.subrange(4, 4 + w) =~= id_wire(n, v));
        lemma_id_at(t, 4, n, v);
    }
}

} // verus!
