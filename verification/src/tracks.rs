//! `trep`: properties of a track in the fragments to come.

use crate::boxes::TREP;
use crate::bytes::{be32, be32_at, boxed, lemma_be32_at, put_bytes, put_u32, wrap_box};
use crate::seqs::{
    holds_at, joined, lemma_holds_split, lemma_holds_whole, lemma_holds_within, lemma_joined_all,
    lemma_joined_none, lemma_joined_step, lemma_part_in_joined,
};
use vstd::prelude::*;

verus! {

/// A box within a `trep`.
#[derive(Clone, Debug, PartialEq, Eq)]
pub struct TrepChild {
    /// The four-character type.
    pub fourcc: [u8; 4],
    /// What follows the box header.
    pub payload: Vec<u8>,
}

/// The properties of one track.
#[derive(Clone, Debug, PartialEq, Eq)]
pub struct TrepRecord {
    /// The track.
    pub track_id: u32,
    /// The boxes that state its properties.
    pub children: Vec<TrepChild>,
}

/// The child boxes on the wire.
pub open spec fn trep_wires(c: Seq<TrepChild>) -> Seq<Seq<u8>> {
    Seq::new(c.len(), |i: int| boxed(c[i].fourcc, c[i].payload@))
}

/// The body of a `trep` box.
pub open spec fn trep_body(t: TrepRecord) -> Seq<u8> {
    be32(0) + be32(t.track_id) + joined(trep_wires(t.children@))
}

/// Serialise a `trep` box.
pub fn build_trep_box(t: &TrepRecord) -> (r: Vec<u8>)
    ensures
        r@ == boxed(TREP, trep_body(*t)),
{
    let mut body: Vec<u8> = Vec::new();
    put_u32(&mut body, 0);
    put_u32(&mut body, t.track_id);
    let ghost head = body@;
    let ghost wires = trep_wires(t.children@);
    let mut i: usize = 0;
    proof {
        lemma_joined_none(wires);
    }
    while i < t.children.len()
        invariant
            i <= t.children.len(),
            wires == trep_wires(t.children@),
            body@ == head + joined(wires.take(i as int)),
        decreases t.children.len() - i,
    {
        let c: &TrepChild = &t.children[i];
        put_bytes(&mut body, wrap_box(&c.fourcc, c.payload.as_slice()).as_slice());
        proof {
            lemma_joined_step(wires, i as int);
            assert(body@ =~= head + joined(wires.take(i + 1)));
        }
        i = i + 1;
    }
    proof {
        lemma_joined_all(wires);
    }
    assert(body@ =~= trep_body(*t));
    wrap_box(&TREP, body.as_slice())
}

/// How many bytes the first `n` child boxes take.
pub open spec fn children_before(c: Seq<TrepChild>, n: int) -> int
    decreases n,
{
    if n <= 0 {
        0
    } else {
        children_before(c, n - 1) + 8 + c[n - 1].payload@.len()
    }
}

proof fn lemma_children_before(c: Seq<TrepChild>, n: int)
    requires
        0 <= n <= c.len(),
    ensures
        joined(trep_wires(c).take(n)).len() == children_before(c, n),
    decreases n,
{
    if n == 0 {
        lemma_joined_none(trep_wires(c));
    } else {
        lemma_children_before(c, n - 1);
        lemma_joined_step(trep_wires(c), n - 1);
        assert(trep_wires(c)[n - 1] == boxed(c[n - 1].fourcc, c[n - 1].payload@));
    }
}

/// Track properties read back by their layout: the track, and the child
/// boxes in order.
pub proof fn law_trep_reads_back(t: TrepRecord)
    ensures
        ({
            let s = trep_body(t);
            let c = t.children@;
            &&& be32_at(s, 0) == 0
            &&& be32_at(s, 4) == t.track_id
            &&& s.len() == 8 + children_before(c, c.len() as int)
            &&& forall|i: int|
                0 <= i < c.len() ==> holds_at(
                    s,
                    8 + children_before(c, i),
                    boxed((#[trigger] c[i]).fourcc, c[i].payload@),
                )
        }),
{
    let s = trep_body(t);
    let c = t.children@;
    let wires = trep_wires(c);
    lemma_holds_whole(s);
    lemma_holds_split(s, 0, be32(0) + be32(t.track_id), joined(wires));
    lemma_holds_split(s, 0, be32(0), be32(t.track_id));
    lemma_be32_at(s, 0, 0);
    lemma_be32_at(s, 4, t.track_id);
    lemma_children_before(c, c.len() as int);
    lemma_joined_all(wires);
    assert forall|i: int| 0 <= i < c.len() implies holds_at(
        s,
        8 + children_before(c, i),
        boxed((#[trigger] c[i]).fourcc, c[i].payload@),
    ) by {
        lemma_children_before(c, i);
        lemma_part_in_joined(wires, i);
        assert(wires[i] == boxed(c[i].fourcc, c[i].payload@));
        lemma_holds_within(s, 8, joined(wires), children_before(c, i), wires[i]);
    }
}

} // verus!
