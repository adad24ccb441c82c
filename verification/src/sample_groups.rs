//! `sgpd` and `sbgp`: descriptions of sample groups, and which samples
//! belong to them.

use crate::boxes::{SBGP, SGPD};
use crate::bytes::{
    be32, be32_at, boxed, lemma_be32_at, low32, put_bytes, put_u32, size_field, wrap_box,
};
use crate::seqs::{
    holds_at, joined, lemma_holds_row, lemma_holds_split, lemma_holds_whole, lemma_holds_within,
    lemma_joined_all, lemma_joined_equal_parts, lemma_joined_none, lemma_joined_step,
    lemma_part_in_joined,
};
use vstd::prelude::*;

verus! {

/// A map from samples to groups, by runs.
#[derive(Clone, Debug, PartialEq, Eq)]
pub struct SampleToGroup {
    /// The kind of group.
    pub grouping_type: [u8; 4],
    /// The parameter of the kind, where it has one.
    pub grouping_type_parameter: Option<u32>,
    /// Runs of samples: how many, and the index of their description, 0
    /// for no group.
    pub entries: Vec<(u32, u32)>,
}

/// The descriptions of the groups of one kind.
#[derive(Clone, Debug, PartialEq, Eq)]
pub struct SampleGroupDescription {
    /// The kind of group.
    pub grouping_type: [u8; 4],
    /// The description of samples that no map names, where there is one.
    pub default_sample_description_index: Option<u32>,
    /// The descriptions, numbered from 1.
    pub entries: Vec<Vec<u8>>,
}

/// A pattern of a compact map.
#[derive(Clone, Debug, PartialEq, Eq)]
pub struct CompactSampleToGroupPattern {
    /// How many samples it is laid over.
    pub sample_count: u32,
    /// The indices that repeat.
    pub indices: Vec<u32>,
}

/// A map from samples to groups, by repeating patterns.
#[derive(Clone, Debug, PartialEq, Eq)]
pub struct CompactSampleToGroup {
    /// The kind of group.
    pub grouping_type: [u8; 4],
    /// The parameter of the kind, where it has one.
    pub grouping_type_parameter: Option<u32>,
    /// Whether the top bit of an index marks a description of the fragment.
    pub index_msb_indicates_fragment_local_description: bool,
    /// The patterns, in order.
    pub patterns: Vec<CompactSampleToGroupPattern>,
}

/// The descriptions of a list.
pub open spec fn entry_bytes(e: Seq<Vec<u8>>) -> Seq<Seq<u8>> {
    Seq::new(e.len(), |i: int| e[i]@)
}

/// The length that all descriptions share, or 0.
pub open spec fn shared_len(e: Seq<Seq<u8>>) -> u32 {
    if e.len() > 0 && forall|i: int| 0 <= i < e.len() ==> (#[trigger] e[i]).len() == e[0].len() {
        size_field(e[0].len())
    } else {
        0
    }
}

/// A description on the wire, with its length where it has one of its own.
pub open spec fn description_wire(e: Seq<u8>, shared: u32) -> Seq<u8> {
    if shared == 0 {
        be32(size_field(e.len())) + e
    } else {
        e
    }
}

/// The descriptions on the wire.
pub open spec fn description_wires(e: Seq<Seq<u8>>) -> Seq<Seq<u8>> {
    Seq::new(e.len(), |i: int| description_wire(e[i], shared_len(e)))
}

/// The body of a `sgpd` box: version 2 where there is a default
/// description, else version 1 with the length that all share.
pub open spec fn sgpd_body(code: [u8; 4], default_index: Option<u32>, e: Seq<Seq<u8>>) -> Seq<u8> {
    match default_index {
        Some(index) => seq![2u8, 0u8, 0u8, 0u8] + code@ + be32(index) + be32(
            size_field(e.len()),
        ) + joined(e),
        None => seq![1u8, 0u8, 0u8, 0u8] + code@ + be32(shared_len(e)) + be32(
            size_field(e.len()),
        ) + joined(description_wires(e)),
    }
}

/// The length that all descriptions share, or 0.
fn find_shared_len(entries: &Vec<Vec<u8>>) -> (r: u32)
    ensures
        r == shared_len(entry_bytes(entries@)),
{
    let ghost e = entry_bytes(entries@);
    if entries.len() == 0 {
        return 0;
    }
    let mut i: usize = 0;
    while i < entries.len()
        invariant
            i <= entries.len(),
            entries.len() > 0,
            e == entry_bytes(entries@),
            forall|k: int| 0 <= k < i ==> (#[trigger] e[k]).len() == e[0].len(),
        decreases entries.len() - i,
    {
        if entries[i].len() != entries[0].len() {
            assert(e[i as int].len() != e[0].len());
            return 0;
        }
        i = i + 1;
    }
    low32(entries[0].len())
}

/// Serialise a `sgpd` box.
pub fn build_sgpd(g: &SampleGroupDescription) -> (r: Vec<u8>)
    ensures
        r@ == boxed(
            SGPD,
            sgpd_body(
                g.grouping_type,
                g.default_sample_description_index,
                entry_bytes(g.entries@),
            ),
        ),
{
    let ghost e = entry_bytes(g.entries@);
    let shared: u32 = find_shared_len(&g.entries);
    let mut body: Vec<u8> = Vec::new();
    let with_len: bool = match g.default_sample_description_index {
        Some(index) => {
            put_u32(&mut body, 0x0200_0000);
            put_bytes(&mut body, &g.grouping_type);
            put_u32(&mut body, index);
            assert(be32(0x0200_0000u32) =~= seq![2u8, 0u8, 0u8, 0u8]);
            false
        },
        None => {
            put_u32(&mut body, 0x0100_0000);
            put_bytes(&mut body, &g.grouping_type);
            put_u32(&mut body, shared);
            assert(be32(0x0100_0000u32) =~= seq![1u8, 0u8, 0u8, 0u8]);
            shared == 0
        },
    };
    put_u32(&mut body, low32(g.entries.len()));
    let ghost head = body@;
    let ghost wires = if g.default_sample_description_index is Some {
        e
    } else {
        description_wires(e)
    };
    let mut i: usize = 0;
    proof {
        lemma_joined_none(wires);
    }
    while i < g.entries.len()
        invariant
            i <= g.entries.len(),
            e == entry_bytes(g.entries@),
            shared == shared_len(e),
            with_len == (g.default_sample_description_index is None && shared == 0),
            wires == (if g.default_sample_description_index is Some {
                e
            } else {
                description_wires(e)
            }),
            body@ == head + joined(wires.take(i as int)),
        decreases g.entries.len() - i,
    {
        if with_len {
            put_u32(&mut body, low32(g.entries[i].len()));
        }
        put_bytes(&mut body, g.entries[i].as_slice());
        proof {
            lemma_joined_step(wires, i as int);
            assert(body@ =~= head + joined(wires.take(i + 1)));
        }
        i = i + 1;
    }
    proof {
        lemma_joined_all(wires);
    }
    assert(body@ =~= sgpd_body(g.grouping_type, g.default_sample_description_index, e));
    wrap_box(&SGPD, body.as_slice())
}

/// A run on the wire.
pub open spec fn run_wire(run: (u32, u32)) -> Seq<u8> {
    be32(run.0) + be32(run.1)
}

/// The runs on the wire.
pub open spec fn run_wires(runs: Seq<(u32, u32)>) -> Seq<Seq<u8>> {
    Seq::new(runs.len(), |i: int| run_wire(runs[i]))
}

/// The body of a `sbgp` box: version 1 where the kind has a parameter.
pub open spec fn sbgp_body(code: [u8; 4], parameter: Option<u32>, runs: Seq<(u32, u32)>) -> Seq<
    u8,
> {
    (match parameter {
        Some(p) => seq![1u8, 0u8, 0u8, 0u8] + code@ + be32(p),
        None => seq![0u8, 0u8, 0u8, 0u8] + code@,
    }) + be32(size_field(runs.len())) + joined(run_wires(runs))
}

/// Serialise a `sbgp` box.
pub fn build_sbgp(g: &SampleToGroup) -> (r: Vec<u8>)
    ensures
        r@ == boxed(SBGP, sbgp_body(g.grouping_type, g.grouping_type_parameter, g.entries@)),
{
    let mut body: Vec<u8> = Vec::new();
    match g.grouping_type_parameter {
        Some(p) => {
            put_u32(&mut body, 0x0100_0000);
            put_bytes(&mut body, &g.grouping_type);
            put_u32(&mut body, p);
            assert(be32(0x0100_0000u32) =~= seq![1u8, 0u8, 0u8, 0u8]);
        },
        None => {
            put_u32(&mut body, 0);
            put_bytes(&mut body, &g.grouping_type);
            assert(be32(0u32) =~= seq![0u8, 0u8, 0u8, 0u8]);
        },
    }
    put_u32(&mut body, low32(g.entries.len()));
    let ghost head = body@;
    let ghost wires = run_wires(g.entries@);
    let mut i: usize = 0;
    proof {
        lemma_joined_none(wires);
    }
    while i < g.entries.len()
        invariant
            i <= g.entries.len(),
            wires == run_wires(g.entries@),
            body@ == head + joined(wires.take(i as int)),
        decreases g.entries.len() - i,
    {
        put_u32(&mut body, g.entries[i].0);
        put_u32(&mut body, g.entries[i].1);
        proof {
            lemma_joined_step(wires, i as int);
            assert(body@ =~= head + joined(wires.take(i + 1)));
        }
        i = i + 1;
    }
    proof {
        lemma_joined_all(wires);
    }
    assert(body@ =~= sbgp_body(g.grouping_type, g.grouping_type_parameter, g.entries@));
    wrap_box(&SBGP, body.as_slice())
}

/// The four words that a group description box starts with.
proof fn lemma_sgpd_head(code: [u8; 4], default_index: Option<u32>, e: Seq<Seq<u8>>)
    ensures
        ({
            let s = sgpd_body(code, default_index, e);
            let wires = if default_index is Some {
                e
            } else {
                description_wires(e)
            };
            &&& be32_at(s, 0) == if default_index is Some {
                0x0200_0000u32
            } else {
                0x0100_0000u32
            }
            &&& s.subrange(4, 8) == code@
            &&& be32_at(s, 8) == match default_index {
                Some(index) => index,
                None => shared_len(e),
            }
            &&& be32_at(s, 12) == size_field(e.len())
            &&& holds_at(s, 16, joined(wires))
        }),
{
    let s = sgpd_body(code, default_index, e);
    let wires = if default_index is Some {
        e
    } else {
        description_wires(e)
    };
    let version: u32 = if default_index is Some {
        0x0200_0000
    } else {
        0x0100_0000
    };
    let word = match default_index {
        Some(index) => index,
        None => shared_len(e),
    };
    let n = size_field(e.len());
    assert(be32(0x0200_0000) =~= seq![2u8, 0u8, 0u8, 0u8]);
    assert(be32(0x0100_0000) =~= seq![1u8, 0u8, 0u8, 0u8]);
    assert(s == be32(version) + code@ + be32(word) + be32(n) + joined(wires));
    lemma_holds_whole(s);
    lemma_holds_split(s, 0, be32(version) + code@ + be32(word) + be32(n), joined(wires));
    lemma_holds_split(s, 0, be32(version) + code@ + be32(word), be32(n));
    lemma_holds_split(s, 0, be32(version) + code@, be32(word));
    lemma_holds_split(s, 0, be32(version), code@);
    lemma_be32_at(s, 0, version);
    lemma_be32_at(s, 8, word);
    lemma_be32_at(s, 12, n);
}

/// How many bytes the first `n` descriptions take, with `more` bytes before
/// each.
pub open spec fn descriptions_before(e: Seq<Seq<u8>>, n: int, more: int) -> int
    decreases n,
{
    if n <= 0 {
        0
    } else {
        descriptions_before(e, n - 1, more) + more + e[n - 1].len()
    }
}

proof fn lemma_descriptions_before(e: Seq<Seq<u8>>, wires: Seq<Seq<u8>>, n: int, more: int)
    requires
        0 <= n <= e.len(),
        wires.len() == e.len(),
        forall|i: int| 0 <= i < e.len() ==> (#[trigger] wires[i]).len() == more + e[i].len(),
    ensures
        joined(wires.take(n)).len() == descriptions_before(e, n, more),
    decreases n,
{
    if n == 0 {
        lemma_joined_none(wires);
    } else {
        lemma_descriptions_before(e, wires, n - 1, more);
        lemma_joined_step(wires, n - 1);
        assert(wires[n - 1].len() == more + e[n - 1].len());
    }
}

/// Where a description stands among those that are joined at 16.
proof fn lemma_description_at(s: Seq<u8>, e: Seq<Seq<u8>>, wires: Seq<Seq<u8>>, more: int, i: int)
    requires
        0 <= i < e.len(),
        wires.len() == e.len(),
        forall|k: int| 0 <= k < e.len() ==> (#[trigger] wires[k]).len() == more + e[k].len(),
        holds_at(s, 16, joined(wires)),
    ensures
        holds_at(s, 16 + descriptions_before(e, i, more), wires[i]),
{
    lemma_descriptions_before(e, wires, i, more);
    lemma_part_in_joined(wires, i);
    lemma_holds_within(s, 16, joined(wires), joined(wires.take(i)).len() as int, wires[i]);
}

/// A description without a length of its own.
proof fn lemma_bare_description(s: Seq<u8>, e: Seq<Seq<u8>>, i: int)
    requires
        0 <= i < e.len(),
        shared_len(e) != 0,
        e[0].len() <= u32::MAX,
        holds_at(s, 16, joined(description_wires(e))),
    ensures
        e[i].len() == shared_len(e),
        holds_at(s, 16 + descriptions_before(e, i, 0), e[i]),
{
    let wires = description_wires(e);
    assert(forall|k: int| 0 <= k < e.len() ==> #[trigger] wires[k] == e[k]);
    lemma_description_at(s, e, wires, 0, i);
    assert(e[i].len() == e[0].len());
}

/// A description with a length of its own.
proof fn lemma_measured_description(s: Seq<u8>, e: Seq<Seq<u8>>, i: int)
    requires
        0 <= i < e.len(),
        shared_len(e) == 0,
        e[i].len() <= u32::MAX,
        holds_at(s, 16, joined(description_wires(e))),
    ensures
        be32_at(s, 16 + descriptions_before(e, i, 4)) == e[i].len(),
        holds_at(s, 20 + descriptions_before(e, i, 4), e[i]),
{
    let wires = description_wires(e);
    assert forall|k: int| 0 <= k < e.len() implies (#[trigger] wires[k]).len() == 4 + e[k].len() by {
        assert(wires[k] == be32(size_field(e[k].len())) + e[k]);
    }
    lemma_description_at(s, e, wires, 4, i);
    let at = 16 + descriptions_before(e, i, 4);
    let n = size_field(e[i].len());
    assert(wires[i] == be32(n) + e[i]);
    lemma_holds_split(s, at, be32(n), e[i]);
    lemma_be32_at(s, at, n);
}

/// Group descriptions read back by their layout: the kind of group, the
/// count, and the descriptions in order. Without a default index the box is
/// of version 1 and its third word is the length that all descriptions
/// share, or 0, and then each has its own length in a word before it. With
/// one the box is of version 2 and the third word is the index.
pub proof fn law_sgpd_reads_back(
    code: [u8; 4],
    default_index: Option<u32>,
    e: Seq<Seq<u8>>,
    i: int,
)
    requires
        0 <= i < e.len(),
        forall|k: int| 0 <= k < e.len() ==> (#[trigger] e[k]).len() <= u32::MAX,
    ensures
        ({
            let s = sgpd_body(code, default_index, e);
            let shared = be32_at(s, 8);
            &&& s.subrange(4, 8) == code@
            &&& be32_at(s, 12) == e.len() % 0x1_0000_0000
            &&& default_index matches Some(index) ==> {
                &&& be32_at(s, 0) == 0x0200_0000
                &&& be32_at(s, 8) == index
                &&& holds_at(s, 16 + descriptions_before(e, i, 0), e[i])
            }
            &&& default_index is None ==> be32_at(s, 0) == 0x0100_0000
            &&& default_index is None && shared != 0 ==> e[i].len() == shared && holds_at(
                s,
                16 + descriptions_before(e, i, 0),
                e[i],
            )
            &&& default_index is None && shared == 0 ==> {
                let at = 16 + descriptions_before(e, i, 4);
                be32_at(s, at) == e[i].len() && holds_at(s, at + 4, e[i])
            }
        }),
{
    let s = sgpd_body(code, default_index, e);
    lemma_sgpd_head(code, default_index, e);
    if default_index is Some {
        lemma_description_at(s, e, e, 0, i);
    } else if shared_len(e) != 0 {
        lemma_bare_description(s, e, i);
    } else {
        lemma_measured_description(s, e, i);
    }
}

/// A map from samples to groups reads back by its layout: the kind of group,
/// the parameter, in version 1, where there is one, the count, and of every
/// run the number of samples and their description.
pub proof fn law_sbgp_reads_back(
    code: [u8; 4],
    parameter: Option<u32>,
    runs: Seq<(u32, u32)>,
    i: int,
)
    requires
        0 <= i < runs.len(),
    ensures
        ({
            let s = sbgp_body(code, parameter, runs);
            let at: int = if parameter is Some {
                12
            } else {
                8
            };
            &&& s.len() == at + 4 + 8 * runs.len()
            &&& be32_at(s, 0) == if parameter is Some {
                0x0100_0000u32
            } else {
                0u32
            }
            &&& s.subrange(4, 8) == code@
            &&& parameter matches Some(x) ==> be32_at(s, 8) == x
            &&& be32_at(s, at) == runs.len() % 0x1_0000_0000
            &&& be32_at(s, at + 4 + 8 * i) == runs[i].0
            &&& be32_at(s, at + 8 + 8 * i) == runs[i].1
        }),
{
    let s = sbgp_body(code, parameter, runs);
    let version: u32 = if parameter is Some {
        0x0100_0000
    } else {
        0
    };
    let own = match parameter {
        Some(x) => be32(x),
        None => Seq::empty(),
    };
    let n = size_field(runs.len());
    let wires = run_wires(runs);
    assert(be32(0x0100_0000) =~= seq![1u8, 0u8, 0u8, 0u8]);
    assert(be32(0) =~= seq![0u8, 0u8, 0u8, 0u8]);
    assert(be32(version) + code@ + own =~= (match parameter {
        Some(p) => seq![1u8, 0u8, 0u8, 0u8] + code@ + be32(p),
        None => seq![0u8, 0u8, 0u8, 0u8] + code@,
    }));
    assert(s == be32(version) + code@ + own + be32(n) + joined(wires));
    lemma_holds_whole(s);
    lemma_holds_split(s, 0, be32(version) + code@ + own + be32(n), joined(wires));
    lemma_holds_split(s, 0, be32(version) + code@ + own, be32(n));
    lemma_holds_split(s, 0, be32(version) + code@, own);
    lemma_holds_split(s, 0, be32(version), code@);
    let at = 8 + own.len() as int;
    lemma_be32_at(s, 0, version);
    if let Some(x) = parameter {
        lemma_be32_at(s, 8, x);
    }
    lemma_be32_at(s, at, n);
    lemma_joined_equal_parts(wires, 8);
    lemma_holds_row(s, at + 4, wires, 8, i);
    assert(wires[i] == be32(runs[i].0) + be32(runs[i].1));
    lemma_holds_split(s, at + 4 + 8 * i, be32(runs[i].0), be32(runs[i].1));
    lemma_be32_at(s, at + 4 + 8 * i, runs[i].0);
    lemma_be32_at(s, at + 8 + 8 * i, runs[i].1);
}

} // verus!
