//! `fiin`: all partition entries, with session groups and group names.

use crate::boxes::{FIIN, GITN, PAEN, SEGR};
use crate::bytes::{
    be16, be32, boxed, fits_box, lemma_boxed, put_bytes, put_u16, same_code, wrap_box,
};
use crate::fd::names::{
    build_gitn_box, gitn_body, gitn_of, gitn_wf, law_gitn_build_parse, parse_gitn_box, GitnBox,
    GroupNameView,
};
use crate::fd::partition::{
    build_paen_box, law_paen_build_parse, paen_body, paen_fields_fit, paen_of, paen_wf,
    parse_paen_box, PartitionEntry, PartitionView,
};
use crate::fd::session::{
    build_segr_box, law_segr_build_parse, law_segr_parse_build_parse, parse_segr_box, segr_body,
    segr_of, segr_wf, SegrBox, SessionGroupView,
};
use crate::fd::wire::{
    child_views, children_are, children_of, each_child, fullbox_wire, last_payload,
    lemma_children_of, lemma_parts_push, part_wires, parts_wire, rd_fullbox, rd_u16, wr_fullbox,
    BoxPart, Child, ChildView,
};
use crate::seqs::joined;
use vstd::prelude::*;

verus! {

/// A file delivery item information box.
#[derive(Clone, Debug, PartialEq, Eq)]
pub struct FiinBox {
    /// The partition entries, numbered from 1.
    pub partition_entries: Vec<PartitionEntry>,
    /// The session groups.
    pub session_info: Option<SegrBox>,
    /// The group names.
    pub group_id_to_name: Option<GitnBox>,
}

/// The value of a [`FiinBox`].
#[verifier::ext_equal]
pub struct FiinView {
    pub partition_entries: Seq<PartitionView>,
    pub session_info: Option<Seq<SessionGroupView>>,
    pub group_id_to_name: Option<Seq<GroupNameView>>,
}

/// The values of partition entries.
pub open spec fn partition_views(e: Seq<PartitionEntry>) -> Seq<PartitionView> {
    Seq::new(e.len(), |i: int| e[i]@)
}

/// The session groups, if there are any.
pub open spec fn opt_segr(b: Option<SegrBox>) -> Option<Seq<SessionGroupView>> {
    match b {
        Some(b) => Some(b@),
        None => None,
    }
}

/// The group names, if there are any.
pub open spec fn opt_gitn(b: Option<GitnBox>) -> Option<Seq<GroupNameView>> {
    match b {
        Some(b) => Some(b@),
        None => None,
    }
}

impl View for FiinBox {
    type V = FiinView;

    open spec fn view(&self) -> FiinView {
        FiinView {
            partition_entries: partition_views(self.partition_entries@),
            session_info: opt_segr(self.session_info),
            group_id_to_name: opt_gitn(self.group_id_to_name),
        }
    }
}

/// The partition entries among `kids`, in order.
pub open spec fn paens_among(s: Seq<u8>, kids: Seq<ChildView>) -> Seq<PartitionView>
    decreases kids.len(),
{
    if kids.len() == 0 {
        Seq::empty()
    } else {
        let before = paens_among(s, kids.drop_last());
        if kids.last().code == PAEN@ {
            before.push(paen_of(s.subrange(kids.last().start, kids.last().end)))
        } else {
            before
        }
    }
}

/// The session groups among `kids`: the last box counts.
pub open spec fn segr_among(s: Seq<u8>, kids: Seq<ChildView>) -> Option<Seq<SessionGroupView>> {
    match last_payload(s, kids, SEGR) {
        Some(body) => segr_of(body),
        None => None,
    }
}

/// The group names among `kids`: the last box counts.
pub open spec fn gitn_among(s: Seq<u8>, kids: Seq<ChildView>) -> Option<Seq<GroupNameView>> {
    match last_payload(s, kids, GITN) {
        Some(body) => gitn_of(body),
        None => None,
    }
}

/// The record that a `fiin` body holds. The entry count plays no part.
pub open spec fn fiin_of(s: Seq<u8>) -> Option<FiinView> {
    if s.len() < 6 {
        None
    } else {
        let inner = s.subrange(6, s.len() as int);
        let kids = children_of(inner, 0);
        Some(
            FiinView {
                partition_entries: paens_among(inner, kids),
                session_info: segr_among(inner, kids),
                group_id_to_name: gitn_among(inner, kids),
            },
        )
    }
}

/// The partition entries as boxes.
pub open spec fn paen_boxes(e: Seq<PartitionView>) -> Seq<BoxPart> {
    Seq::new(e.len(), |i: int| BoxPart { code: PAEN, body: paen_body(e[i]) })
}

/// The boxes of a `fiin` body, in order.
pub open spec fn fiin_parts(b: FiinView) -> Seq<BoxPart> {
    let segr = match b.session_info {
        Some(g) => seq![BoxPart { code: SEGR, body: segr_body(g) }],
        None => Seq::empty(),
    };
    let gitn = match b.group_id_to_name {
        Some(n) => seq![BoxPart { code: GITN, body: gitn_body(n) }],
        None => Seq::empty(),
    };
    paen_boxes(b.partition_entries) + segr + gitn
}

/// The body of a `fiin` box, with the low 16 bits of the entry count.
pub open spec fn fiin_body(b: FiinView) -> Seq<u8> {
    fullbox_wire(0, 0) + be16((b.partition_entries.len() % 0x1_0000) as u16) + parts_wire(
        fiin_parts(b),
    )
}

/// The fields of all boxes fit.
pub open spec fn fiin_fields_fit(b: FiinView) -> bool {
    &&& forall|i: int|
        0 <= i < b.partition_entries.len() ==> paen_fields_fit(#[trigger] b.partition_entries[i])
    &&& b.session_info matches Some(g) ==> segr_wf(g)
    &&& b.group_id_to_name matches Some(n) ==> gitn_wf(n)
}

/// The fields fit, and so do the sizes of all boxes.
pub open spec fn fiin_wf(b: FiinView) -> bool {
    &&& fiin_fields_fit(b)
    &&& forall|i: int|
        0 <= i < b.partition_entries.len() ==> paen_wf(#[trigger] b.partition_entries[i])
            && fits_box(paen_body(b.partition_entries[i]))
    &&& b.session_info matches Some(g) ==> fits_box(segr_body(g))
    &&& b.group_id_to_name matches Some(n) ==> fits_box(gitn_body(n))
}

/// The types of the children differ.
proof fn lemma_fiin_codes()
    ensures
        PAEN@ != SEGR@,
        PAEN@ != GITN@,
        SEGR@ != GITN@,
{
    assert(PAEN@[0] != SEGR@[0] && PAEN@[0] != GITN@[0] && SEGR@[0] != GITN@[0]);
}

/// Parse a `fiin` body. There is none where version, flags or count are
/// cut off. The children are walked whatever the count says.
pub fn parse_fiin_box(body: &[u8]) -> (r: Option<FiinBox>)
    ensures
        match r {
            Some(b) => fiin_of(body@) == Some(b@) && fiin_fields_fit(b@),
            None => fiin_of(body@) is None,
        },
{
    let mut p: usize = 0;
    let (_version, _flags): (u8, u32) = rd_fullbox(body, &mut p)?;
    let _entry_count: u16 = rd_u16(body, &mut p)?;
    let inner: &[u8] = &body[p..body.len()];
    let kids: Vec<Child> = each_child(inner);
    let ghost views = child_views(kids@);
    let mut out: FiinBox = FiinBox {
        partition_entries: Vec::new(),
        session_info: None,
        group_id_to_name: None,
    };
    let mut i: usize = 0;
    assert(partition_views(out.partition_entries@) =~= Seq::<PartitionView>::empty());
    while i < kids.len()
        invariant
            i <= kids.len(),
            views == child_views(kids@),
            forall|k: int|
                0 <= k < kids@.len() ==> (#[trigger] kids@[k]).start <= kids@[k].end
                    <= inner@.len(),
            out@.partition_entries == paens_among(inner@, views.take(i as int)),
            out@.session_info == segr_among(inner@, views.take(i as int)),
            out@.group_id_to_name == gitn_among(inner@, views.take(i as int)),
            fiin_fields_fit(out@),
        decreases kids.len() - i,
    {
        let kid: Child = kids[i];
        let child: &[u8] = &inner[kid.start..kid.end];
        proof {
            lemma_fiin_codes();
            assert(views.take(i + 1).drop_last() =~= views.take(i as int));
            assert(views.take(i + 1).last() == kid@);
        }
        if same_code(&kid.fourcc, &PAEN) {
            let entry: PartitionEntry = parse_paen_box(child);
            let ghost before = out@.partition_entries;
            out.partition_entries.push(entry);
            assert(partition_views(out.partition_entries@) =~= before.push(entry@));
        } else if same_code(&kid.fourcc, &SEGR) {
            out.session_info = parse_segr_box(child);
            proof {
                law_segr_parse_build_parse(child@);
            }
        } else if same_code(&kid.fourcc, &GITN) {
            out.group_id_to_name = parse_gitn_box(child);
        }
        i = i + 1;
    }
    assert(views.take(kids.len() as int) =~= views);
    Some(out)
}

/// Serialise a `fiin` box: the partition entries, then session groups and
/// group names.
pub fn build_fiin_box(b: &FiinBox) -> (r: Vec<u8>)
    ensures
        r@ == boxed(FIIN, fiin_body(b@)),
{
    let mut body: Vec<u8> = Vec::new();
    wr_fullbox(&mut body, 0, 0);
    put_u16(&mut body, (b.partition_entries.len() % 0x1_0000) as u16);
    let ghost head = body@;
    let ghost entries = paen_boxes(b@.partition_entries);
    let mut i: usize = 0;
    assert(part_wires(entries.take(0)) =~= Seq::<Seq<u8>>::empty());
    assert(body@ =~= head + parts_wire(entries.take(0)));
    while i < b.partition_entries.len()
        invariant
            i <= b.partition_entries.len(),
            entries == paen_boxes(b@.partition_entries),
            body@ == head + parts_wire(entries.take(i as int)),
        decreases b.partition_entries.len() - i,
    {
        put_bytes(&mut body, build_paen_box(&b.partition_entries[i]).as_slice());
        proof {
            lemma_parts_push(entries.take(i as int), entries[i as int]);
            assert(entries.take(i as int).push(entries[i as int]) =~= entries.take(i + 1));
            assert(body@ =~= head + parts_wire(entries.take(i + 1)));
        }
        i = i + 1;
    }
    assert(entries.take(b.partition_entries.len() as int) =~= entries);
    let ghost mut parts = entries;
    if let Some(segr) = &b.session_info {
        put_bytes(&mut body, build_segr_box(segr).as_slice());
        proof {
            lemma_parts_push(parts, BoxPart { code: SEGR, body: segr_body(segr@) });
            parts = parts.push(BoxPart { code: SEGR, body: segr_body(segr@) });
        }
    }
    assert(body@ =~= head + parts_wire(parts));
    if let Some(gitn) = &b.group_id_to_name {
        put_bytes(&mut body, build_gitn_box(gitn).as_slice());
        proof {
            lemma_parts_push(parts, BoxPart { code: GITN, body: gitn_body(gitn@) });
            parts = parts.push(BoxPart { code: GITN, body: gitn_body(gitn@) });
        }
    }
    assert(body@ =~= head + parts_wire(parts));
    assert(parts =~= fiin_parts(b@));
    wrap_box(&FIIN, body.as_slice())
}

// ---------------------------------------------------------------------
// Laws
// ---------------------------------------------------------------------

/// Children that are all partition entries parse back to them, and hold
/// neither session groups nor names.
proof fn lemma_paens_among(s: Seq<u8>, kids: Seq<ChildView>, e: Seq<PartitionView>)
    requires
        children_are(s, kids, paen_boxes(e)),
        forall|i: int| 0 <= i < e.len() ==> paen_wf(#[trigger] e[i]),
    ensures
        paens_among(s, kids) == e,
        segr_among(s, kids) is None,
        gitn_among(s, kids) is None,
    decreases e.len(),
{
    lemma_fiin_codes();
    if e.len() > 0 {
        let n = e.len() - 1;
        let init = e.drop_last();
        assert forall|i: int| 0 <= i < kids.drop_last().len() implies (
        #[trigger] kids.drop_last()[i]).code == paen_boxes(init)[i].code@ && s.subrange(
            kids.drop_last()[i].start,
            kids.drop_last()[i].end,
        ) == paen_boxes(init)[i].body by {
            assert(kids.drop_last()[i] == kids[i]);
            assert(paen_boxes(init)[i] == paen_boxes(e)[i]);
        }
        lemma_paens_among(s, kids.drop_last(), init);
        assert(kids.last() == kids[n]);
        assert(paen_boxes(e)[n].body == paen_body(e[n]));
        law_paen_build_parse(e[n]);
        assert(init.push(e[n]) =~= e);
    } else {
        assert(paens_among(s, kids) =~= e);
    }
}

/// The boxes of a record that fits have sizes that fit.
proof fn lemma_fiin_parts_fit(b: FiinView)
    requires
        fiin_wf(b),
    ensures
        forall|i: int| 0 <= i < fiin_parts(b).len() ==> fits_box((#[trigger] fiin_parts(b)[i]).body),
{
    let parts = fiin_parts(b);
    let boxes = paen_boxes(b.partition_entries);
    assert forall|i: int| 0 <= i < parts.len() implies fits_box((#[trigger] parts[i]).body) by {
        if i < b.partition_entries.len() {
            assert(parts[i] == boxes[i]);
            assert(boxes[i].body == paen_body(b.partition_entries[i]));
        }
    }
}

/// The children of a written record are found again behind any header.
proof fn lemma_fiin_of_parts(b: FiinView, head: Seq<u8>)
    requires
        fiin_wf(b),
        head.len() == 6,
    ensures
        fiin_of(head + parts_wire(fiin_parts(b))) == Some(b),
{
    let inner = parts_wire(fiin_parts(b));
    let s = head + inner;
    assert(s.subrange(6, s.len() as int) =~= inner);
    assert(inner.subrange(0, inner.len() as int) =~= inner);
    lemma_fiin_parts_fit(b);
    lemma_children_of(inner, 0, fiin_parts(b));
    lemma_fiin_walk(inner, children_of(inner, 0), b);
}

/// A record that fits parses back as it was written, whatever the entry
/// count says.
pub proof fn law_fiin_build_parse(b: FiinView, count: u16)
    requires
        fiin_wf(b),
    ensures
        fiin_of(fullbox_wire(0, 0) + be16(count) + parts_wire(fiin_parts(b))) == Some(b),
        fiin_of(fiin_body(b)) == Some(b),
{
    lemma_fiin_of_parts(b, fullbox_wire(0, 0) + be16(count));
    lemma_fiin_of_parts(
        b,
        fullbox_wire(0, 0) + be16((b.partition_entries.len() % 0x1_0000) as u16),
    );
}

/// A body that parses gives a record that parses again to itself once
/// written, where the sizes of its boxes fit. They do not where replacement
/// characters in place of malformed text make a box too long.
pub proof fn law_fiin_parse_build_parse(s: Seq<u8>)
    ensures
        fiin_of(s) matches Some(b) ==> fiin_wf(b) ==> fiin_of(fiin_body(b)) == Some(b),
{
    if let Some(b) = fiin_of(s) {
        if fiin_wf(b) {
            law_fiin_build_parse(b, 0);
        }
    }
}

/// The boxes of the partition entries, as `build_paen_box` writes them.
pub open spec fn paen_wires(e: Seq<PartitionView>) -> Seq<Seq<u8>> {
    Seq::new(e.len(), |i: int| boxed(PAEN, paen_body(e[i])))
}

/// The box of the session groups, as `build_segr_box` writes it, if there
/// are any.
pub open spec fn segr_wire(g: Option<Seq<SessionGroupView>>) -> Seq<u8> {
    match g {
        Some(g) => boxed(SEGR, segr_body(g)),
        None => Seq::empty(),
    }
}

/// The box of the group names, as `build_gitn_box` writes it, if there are
/// any.
pub open spec fn gitn_wire(n: Option<Seq<GroupNameView>>) -> Seq<u8> {
    match n {
        Some(n) => boxed(GITN, gitn_body(n)),
        None => Seq::empty(),
    }
}

/// The boxes of a record, one after the other.
proof fn lemma_fiin_wires(b: FiinView)
    ensures
        parts_wire(fiin_parts(b)) == joined(paen_wires(b.partition_entries)) + segr_wire(
            b.session_info,
        ) + gitn_wire(b.group_id_to_name),
{
    let entries = paen_boxes(b.partition_entries);
    assert(part_wires(entries) =~= paen_wires(b.partition_entries));
    let start = parts_wire(entries);
    let mut parts = entries;
    if let Some(g) = b.session_info {
        let part = BoxPart { code: SEGR, body: segr_body(g) };
        lemma_parts_push(parts, part);
        parts = parts.push(part);
    }
    assert(parts_wire(parts) =~= start + segr_wire(b.session_info));
    let some = parts_wire(parts);
    if let Some(n) = b.group_id_to_name {
        let part = BoxPart { code: GITN, body: gitn_body(n) };
        lemma_parts_push(parts, part);
        parts = parts.push(part);
    }
    assert(parts_wire(parts) =~= some + gitn_wire(b.group_id_to_name));
    assert(parts =~= fiin_parts(b));
}

/// A box around a body in five parts, as one row.
proof fn lemma_boxed_row(
    body: Seq<u8>,
    head: Seq<u8>,
    count: Seq<u8>,
    x: Seq<u8>,
    y: Seq<u8>,
    z: Seq<u8>,
)
    requires
        body == head + count + (x + y + z),
        boxed(FIIN, body).len() <= 0xFFFF_FFFF,
    ensures
        boxed(FIIN, body) == be32(boxed(FIIN, body).len() as u32) + FIIN@ + head + count + x + y
            + z,
{
    lemma_boxed(FIIN, body);
    let size = be32(boxed(FIIN, body).len() as u32);
    assert(boxed(FIIN, body) == size + FIIN@ + body);
    assert(size + FIIN@ + (head + count + (x + y + z)) =~= size + FIIN@ + head + count + x + y
        + z);
}

/// Version 0 without flags is four zero bytes.
proof fn lemma_no_flags()
    ensures
        fullbox_wire(0, 0) == seq![0u8, 0, 0, 0],
{
    assert(fullbox_wire(0, 0) =~= seq![0u8, 0, 0, 0]);
}

/// Equal parts make up equal rows.
proof fn lemma_equal_row(
    body: Seq<u8>,
    head: Seq<u8>,
    zeros: Seq<u8>,
    count: Seq<u8>,
    parts: Seq<u8>,
    row: Seq<u8>,
)
    requires
        body == head + count + parts,
        head == zeros,
        parts == row,
    ensures
        body == zeros + count + row,
{
}

/// The body of a record in five parts.
proof fn lemma_fiin_row(b: FiinView)
    requires
        b.partition_entries.len() <= 0xFFFF,
    ensures
        fiin_body(b) == seq![0u8, 0, 0, 0] + be16(b.partition_entries.len() as u16) + (joined(
            paen_wires(b.partition_entries),
        ) + segr_wire(b.session_info) + gitn_wire(b.group_id_to_name)),
{
    lemma_fiin_wires(b);
    lemma_no_flags();
    lemma_equal_row(
        fiin_body(b),
        fullbox_wire(0, 0),
        seq![0u8, 0, 0, 0],
        be16(b.partition_entries.len() as u16),
        parts_wire(fiin_parts(b)),
        joined(paen_wires(b.partition_entries)) + segr_wire(b.session_info) + gitn_wire(
            b.group_id_to_name,
        ),
    );
}

/// A written box whose size and entry count fit is its size, its type, zero
/// version and flags, the count, and the boxes of the single parts in order.
pub proof fn law_fiin_layout(b: FiinView)
    requires
        b.partition_entries.len() <= 0xFFFF,
        boxed(FIIN, fiin_body(b)).len() <= 0xFFFF_FFFF,
    ensures
        ({
            let whole = boxed(FIIN, fiin_body(b));
            whole == be32(whole.len() as u32) + FIIN@ + seq![0u8, 0, 0, 0] + be16(
                b.partition_entries.len() as u16,
            ) + joined(paen_wires(b.partition_entries)) + segr_wire(b.session_info) + gitn_wire(
                b.group_id_to_name,
            )
        }),
{
    lemma_fiin_row(b);
    lemma_boxed_row(
        fiin_body(b),
        seq![0u8, 0, 0, 0],
        be16(b.partition_entries.len() as u16),
        joined(paen_wires(b.partition_entries)),
        segr_wire(b.session_info),
        gitn_wire(b.group_id_to_name),
    );
}

/// The walk over the children of a written record finds it again.
proof fn lemma_fiin_walk(inner: Seq<u8>, kids: Seq<ChildView>, b: FiinView)
    requires
        fiin_wf(b),
        children_are(inner, kids, fiin_parts(b)),
    ensures
        paens_among(inner, kids) == b.partition_entries,
        segr_among(inner, kids) == b.session_info,
        gitn_among(inner, kids) == b.group_id_to_name,
{
    lemma_fiin_codes();
    let parts = fiin_parts(b);
    let e = b.partition_entries;
    let n = e.len() as int;
    let paens = kids.take(n);
    assert(children_are(inner, paens, paen_boxes(e))) by {
        assert forall|i: int| 0 <= i < paens.len() implies (#[trigger] paens[i]).code
            == paen_boxes(e)[i].code@ && inner.subrange(paens[i].start, paens[i].end)
            == paen_boxes(e)[i].body by {
            assert(paens[i] == kids[i]);
            assert(parts[i] == paen_boxes(e)[i]);
        }
    }
    lemma_paens_among(inner, paens, e);
    let mut at = n;
    if let Some(g) = b.session_info {
        assert(kids.take(n + 1).drop_last() =~= paens);
        assert(kids.take(n + 1).last() == kids[n]);
        assert(parts[n] == (BoxPart { code: SEGR, body: segr_body(g) }));
        law_segr_build_parse(g, Seq::empty());
        assert(segr_body(g) + Seq::<u8>::empty() =~= segr_body(g));
        at = n + 1;
    }
    let some = kids.take(at);
    assert(paens_among(inner, some) == e);
    assert(segr_among(inner, some) == b.session_info);
    assert(gitn_among(inner, some) is None);
    if let Some(names) = b.group_id_to_name {
        assert(kids.take(at + 1).drop_last() =~= some);
        assert(kids.take(at + 1).last() == kids[at]);
        assert(parts[at] == (BoxPart { code: GITN, body: gitn_body(names) }));
        law_gitn_build_parse(names, Seq::empty());
        assert(gitn_body(names) + Seq::<u8>::empty() =~= gitn_body(names));
        assert(kids.take(at + 1) =~= kids);
    } else {
        assert(some =~= kids);
    }
}

} // verus!
