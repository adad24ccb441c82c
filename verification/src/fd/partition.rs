//! `paen`: one partitioning of a source file, with its reservoirs.

use crate::boxes::{FECR, FIRE, FPAR, PAEN};
use crate::bytes::{boxed, fits_box, put_bytes, same_code, wrap_box};
use crate::fd::fpar::{
    build_fpar_box, fpar_body, fpar_of, fpar_wf, law_fpar_build_parse, parse_fpar_box, FparBox,
    FparView,
};
use crate::fd::reservoir::{
    build_reservoir_box, law_reservoir_build_parse, law_reservoir_parse_build_parse,
    parse_reservoir_box, reservoir_body, reservoir_of, reservoir_wf, ReservoirBox, ReservoirView,
};
use crate::fd::wire::{
    carries, child_views, children_of, each_child, last_payload, lemma_boxed_is_sized,
    lemma_carried, lemma_parts_push, lemma_walks, part_wires, parts_wire, payload_of, sized_box,
    type_of, BoxPart, Child, ChildView,
};
use crate::seqs::joined;
use vstd::prelude::*;

verus! {

/// A partition entry: a file partition and, where there are any, its
/// reservoirs.
#[derive(Clone, Debug, PartialEq, Eq)]
pub struct PartitionEntry {
    /// The file partition. Only a malformed entry has none.
    pub fpar: Option<FparBox>,
    /// The FEC reservoir.
    pub fecr: Option<ReservoirBox>,
    /// The file reservoir.
    pub fire: Option<ReservoirBox>,
}

/// The value of a [`PartitionEntry`].
#[verifier::ext_equal]
pub struct PartitionView {
    pub fpar: Option<FparView>,
    pub fecr: Option<ReservoirView>,
    pub fire: Option<ReservoirView>,
}

/// The value of a file partition, if there is one.
pub open spec fn opt_fpar(b: Option<FparBox>) -> Option<FparView> {
    match b {
        Some(b) => Some(b@),
        None => None,
    }
}

/// The value of a reservoir, if there is one.
pub open spec fn opt_reservoir(b: Option<ReservoirBox>) -> Option<ReservoirView> {
    match b {
        Some(b) => Some(b@),
        None => None,
    }
}

impl View for PartitionEntry {
    type V = PartitionView;

    open spec fn view(&self) -> PartitionView {
        PartitionView {
            fpar: opt_fpar(self.fpar),
            fecr: opt_reservoir(self.fecr),
            fire: opt_reservoir(self.fire),
        }
    }
}

/// The file partition among `kids`: the last one counts.
pub open spec fn fpar_among(s: Seq<u8>, kids: Seq<ChildView>) -> Option<FparView> {
    match last_payload(s, kids, FPAR) {
        Some(body) => fpar_of(body),
        None => None,
    }
}

/// The reservoir of type `code` among `kids`: the last one counts.
pub open spec fn reservoir_among(
    s: Seq<u8>,
    kids: Seq<ChildView>,
    code: [u8; 4],
) -> Option<ReservoirView> {
    match last_payload(s, kids, code) {
        Some(body) => reservoir_of(body),
        None => None,
    }
}

/// The partition entry that a `paen` body holds.
pub open spec fn paen_of(s: Seq<u8>) -> PartitionView {
    let kids = children_of(s, 0);
    PartitionView {
        fpar: fpar_among(s, kids),
        fecr: reservoir_among(s, kids, FECR),
        fire: reservoir_among(s, kids, FIRE),
    }
}

/// The boxes of a partition entry, in order.
pub open spec fn paen_parts(e: PartitionView) -> Seq<BoxPart> {
    let a = match e.fpar {
        Some(b) => seq![BoxPart { code: FPAR, body: fpar_body(b) }],
        None => Seq::empty(),
    };
    let b = match e.fecr {
        Some(b) => seq![BoxPart { code: FECR, body: reservoir_body(b) }],
        None => Seq::empty(),
    };
    let c = match e.fire {
        Some(b) => seq![BoxPart { code: FIRE, body: reservoir_body(b) }],
        None => Seq::empty(),
    };
    a + b + c
}

/// The body of a file partition box, if there is one.
pub open spec fn opt_fpar_body(b: Option<FparView>) -> Option<Seq<u8>> {
    match b {
        Some(b) => Some(fpar_body(b)),
        None => None,
    }
}

/// The body of a reservoir box, if there is one.
pub open spec fn opt_reservoir_body(b: Option<ReservoirView>) -> Option<Seq<u8>> {
    match b {
        Some(b) => Some(reservoir_body(b)),
        None => None,
    }
}

/// The body of a `paen` box.
pub open spec fn paen_body(e: PartitionView) -> Seq<u8> {
    parts_wire(paen_parts(e))
}

/// The fields of the boxes fit.
pub open spec fn paen_fields_fit(e: PartitionView) -> bool {
    &&& e.fpar matches Some(b) ==> fpar_wf(b)
    &&& e.fecr matches Some(b) ==> reservoir_wf(b)
    &&& e.fire matches Some(b) ==> reservoir_wf(b)
}

/// The fields fit, and so do the sizes of the boxes.
pub open spec fn paen_wf(e: PartitionView) -> bool {
    &&& paen_fields_fit(e)
    &&& e.fpar matches Some(b) ==> fits_box(fpar_body(b))
    &&& e.fecr matches Some(b) ==> fits_box(reservoir_body(b))
    &&& e.fire matches Some(b) ==> fits_box(reservoir_body(b))
}

/// Parse a `paen` body. Children of other types are passed over; a child
/// that does not parse leaves its place empty.
pub fn parse_paen_box(body: &[u8]) -> (r: PartitionEntry)
    ensures
        r@ == paen_of(body@),
        paen_fields_fit(r@),
{
    let kids: Vec<Child> = each_child(body);
    let mut out: PartitionEntry = PartitionEntry { fpar: None, fecr: None, fire: None };
    let ghost views = child_views(kids@);
    let mut i: usize = 0;
    while i < kids.len()
        invariant
            i <= kids.len(),
            views == child_views(kids@),
            forall|k: int|
                0 <= k < kids@.len() ==> (#[trigger] kids@[k]).start <= kids@[k].end <= body@.len(),
            out@.fpar == fpar_among(body@, views.take(i as int)),
            out@.fecr == reservoir_among(body@, views.take(i as int), FECR),
            out@.fire == reservoir_among(body@, views.take(i as int), FIRE),
            paen_fields_fit(out@),
        decreases kids.len() - i,
    {
        let kid: Child = kids[i];
        let child: &[u8] = &body[kid.start..kid.end];
        proof {
            assert(views.take(i + 1).drop_last() =~= views.take(i as int));
            assert(views.take(i + 1).last() == kid@);
            assert(FPAR@[1] != FECR@[1] && FPAR@[1] != FIRE@[1] && FECR@[1] != FIRE@[1]);
        }
        if same_code(&kid.fourcc, &FPAR) {
            out.fpar = parse_fpar_box(child);
        } else if same_code(&kid.fourcc, &FECR) {
            out.fecr = parse_reservoir_box(child);
            proof {
                law_reservoir_parse_build_parse(child@);
            }
        } else if same_code(&kid.fourcc, &FIRE) {
            out.fire = parse_reservoir_box(child);
            proof {
                law_reservoir_parse_build_parse(child@);
            }
        }
        i = i + 1;
    }
    assert(views.take(kids.len() as int) =~= views);
    out
}

/// Serialise a `paen` box: the file partition, then the reservoirs.
pub fn build_paen_box(e: &PartitionEntry) -> (r: Vec<u8>)
    ensures
        r@ == boxed(PAEN, paen_body(e@)),
{
    let mut body: Vec<u8> = Vec::new();
    let ghost mut parts: Seq<BoxPart> = Seq::empty();
    assert(part_wires(parts) =~= Seq::<Seq<u8>>::empty());
    if let Some(fpar) = &e.fpar {
        put_bytes(&mut body, build_fpar_box(fpar).as_slice());
        proof {
            lemma_parts_push(parts, BoxPart { code: FPAR, body: fpar_body(fpar@) });
            parts = parts.push(BoxPart { code: FPAR, body: fpar_body(fpar@) });
        }
    }
    assert(body@ =~= parts_wire(parts));
    if let Some(fecr) = &e.fecr {
        put_bytes(&mut body, build_reservoir_box(&FECR, fecr).as_slice());
        proof {
            lemma_parts_push(parts, BoxPart { code: FECR, body: reservoir_body(fecr@) });
            parts = parts.push(BoxPart { code: FECR, body: reservoir_body(fecr@) });
        }
    }
    assert(body@ =~= parts_wire(parts));
    if let Some(fire) = &e.fire {
        put_bytes(&mut body, build_reservoir_box(&FIRE, fire).as_slice());
        proof {
            lemma_parts_push(parts, BoxPart { code: FIRE, body: reservoir_body(fire@) });
            parts = parts.push(BoxPart { code: FIRE, body: reservoir_body(fire@) });
        }
    }
    assert(body@ =~= parts_wire(parts));
    assert(parts =~= paen_parts(e@));
    wrap_box(&PAEN, body.as_slice())
}

// ---------------------------------------------------------------------
// Laws
// ---------------------------------------------------------------------

/// A partition entry that fits parses back as it was written.
pub proof fn law_paen_build_parse(e: PartitionView)
    requires
        paen_wf(e),
    ensures
        paen_of(paen_body(e)) == e,
{
    law_paen_order_is_free(e, part_wires(paen_parts(e)));
}

/// The bytes are a box of a type that a partition entry does not use.
pub open spec fn is_foreign(w: Seq<u8>) -> bool {
    sized_box(w) && type_of(w) != FPAR@ && type_of(w) != FECR@ && type_of(w) != FIRE@
}

/// The boxes of a partition entry on the wire.
proof fn lemma_paen_wires(e: PartitionView, w: Seq<u8>)
    ensures
        part_wires(paen_parts(e)).contains(w) <==> {
            ||| e.fpar matches Some(b) && w == boxed(FPAR, fpar_body(b))
            ||| e.fecr matches Some(b) && w == boxed(FECR, reservoir_body(b))
            ||| e.fire matches Some(b) && w == boxed(FIRE, reservoir_body(b))
        },
{
    let parts = paen_parts(e);
    let wires = part_wires(parts);
    let mut n: int = 0;
    if let Some(b) = e.fpar {
        assert(wires[n] == boxed(FPAR, fpar_body(b)));
        n = n + 1;
    }
    if let Some(b) = e.fecr {
        assert(wires[n] == boxed(FECR, reservoir_body(b)));
        n = n + 1;
    }
    if let Some(b) = e.fire {
        assert(wires[n] == boxed(FIRE, reservoir_body(b)));
        n = n + 1;
    }
    assert(wires.len() == n <= 3);
}

/// Boxes that carry the fields of an entry parse to it.
proof fn lemma_paen_carried(e: PartitionView, boxes: Seq<Seq<u8>>)
    requires
        paen_wf(e),
        forall|i: int| 0 <= i < boxes.len() ==> sized_box(#[trigger] boxes[i]),
        carries(boxes, FPAR, opt_fpar_body(e.fpar)),
        carries(boxes, FECR, opt_reservoir_body(e.fecr)),
        carries(boxes, FIRE, opt_reservoir_body(e.fire)),
    ensures
        paen_of(joined(boxes)) == e,
{
    let s = joined(boxes);
    assert(s.subrange(0, s.len() as int) =~= s);
    lemma_walks(s, 0, boxes);
    let kids = children_of(s, 0);
    lemma_carried(s, kids, boxes, FPAR, opt_fpar_body(e.fpar));
    lemma_carried(s, kids, boxes, FECR, opt_reservoir_body(e.fecr));
    lemma_carried(s, kids, boxes, FIRE, opt_reservoir_body(e.fire));
    if let Some(b) = e.fpar {
        law_fpar_build_parse(b, Seq::empty());
        assert(fpar_body(b) + Seq::<u8>::empty() =~= fpar_body(b));
    }
    if let Some(b) = e.fecr {
        law_reservoir_build_parse(b, Seq::empty());
        assert(reservoir_body(b) + Seq::<u8>::empty() =~= reservoir_body(b));
    }
    if let Some(b) = e.fire {
        law_reservoir_build_parse(b, Seq::empty());
        assert(reservoir_body(b) + Seq::<u8>::empty() =~= reservoir_body(b));
    }
}

/// A partition entry that fits parses back from its boxes in any order, with
/// any boxes of other types before, between and behind them.
pub proof fn law_paen_order_is_free(e: PartitionView, boxes: Seq<Seq<u8>>)
    requires
        paen_wf(e),
        forall|w: Seq<u8>| #[trigger]
            part_wires(paen_parts(e)).contains(w) ==> boxes.contains(w),
        forall|i: int|
            0 <= i < boxes.len() ==> part_wires(paen_parts(e)).contains(#[trigger] boxes[i])
                || is_foreign(boxes[i]),
    ensures
        paen_of(joined(boxes)) == e,
{
    assert(FPAR@[1] != FECR@[1] && FPAR@[1] != FIRE@[1] && FECR@[1] != FIRE@[1]);
    if let Some(b) = e.fpar {
        lemma_boxed_is_sized(FPAR, fpar_body(b));
        lemma_paen_wires(e, boxed(FPAR, fpar_body(b)));
    }
    if let Some(b) = e.fecr {
        lemma_boxed_is_sized(FECR, reservoir_body(b));
        lemma_paen_wires(e, boxed(FECR, reservoir_body(b)));
    }
    if let Some(b) = e.fire {
        lemma_boxed_is_sized(FIRE, reservoir_body(b));
        lemma_paen_wires(e, boxed(FIRE, reservoir_body(b)));
    }
    assert forall|i: int| 0 <= i < boxes.len() implies sized_box(#[trigger] boxes[i]) && (type_of(
        boxes[i],
    ) == FPAR@ ==> opt_fpar_body(e.fpar) == Some(payload_of(boxes[i]))) && (type_of(boxes[i])
        == FECR@ ==> opt_reservoir_body(e.fecr) == Some(payload_of(boxes[i]))) && (type_of(boxes[i])
        == FIRE@ ==> opt_reservoir_body(e.fire) == Some(payload_of(boxes[i]))) by {
        lemma_paen_wires(e, boxes[i]);
    }
    lemma_paen_carried(e, boxes);
}

/// A body that parses gives an entry that parses again to itself once
/// written, where the sizes of its boxes fit. They do not where replacement
/// characters in place of malformed text make a box too long.
pub proof fn law_paen_parse_build_parse(s: Seq<u8>)
    requires
        paen_wf(paen_of(s)),
    ensures
        paen_of(paen_body(paen_of(s))) == paen_of(s),
{
    law_paen_build_parse(paen_of(s));
}

/// A partition is written as the boxes that it has, in a fixed order: the
/// file partition, the FEC reservoir, the file reservoir.
pub proof fn law_paen_layout(e: PartitionView)
    ensures
        ({
            let fpar = match e.fpar {
                Some(b) => boxed(FPAR, fpar_body(b)),
                None => Seq::empty(),
            };
            let fecr = match e.fecr {
                Some(b) => boxed(FECR, reservoir_body(b)),
                None => Seq::empty(),
            };
            let fire = match e.fire {
                Some(b) => boxed(FIRE, reservoir_body(b)),
                None => Seq::empty(),
            };
            paen_body(e) == fpar + fecr + fire
        }),
{
    let mut parts: Seq<BoxPart> = Seq::empty();
    let mut row: Seq<u8> = Seq::empty();
    assert(part_wires(parts) =~= Seq::<Seq<u8>>::empty());
    assert(parts_wire(parts) =~= row);
    if let Some(b) = e.fpar {
        let part = BoxPart { code: FPAR, body: fpar_body(b) };
        lemma_parts_push(parts, part);
        parts = parts.push(part);
        row = boxed(FPAR, fpar_body(b));
        assert(parts_wire(parts) =~= row);
    }
    let one = row;
    if let Some(b) = e.fecr {
        let part = BoxPart { code: FECR, body: reservoir_body(b) };
        lemma_parts_push(parts, part);
        parts = parts.push(part);
        row = one + boxed(FECR, reservoir_body(b));
    } else {
        assert(one + Seq::<u8>::empty() =~= one);
    }
    let two = row;
    if let Some(b) = e.fire {
        let part = BoxPart { code: FIRE, body: reservoir_body(b) };
        lemma_parts_push(parts, part);
        parts = parts.push(part);
        row = two + boxed(FIRE, reservoir_body(b));
    } else {
        assert(two + Seq::<u8>::empty() =~= two);
    }
    assert(parts =~= paen_parts(e));
}

} // verus!
