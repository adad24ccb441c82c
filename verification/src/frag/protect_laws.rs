//! The sample groups of a fragment name the right override for every
//! sample.

use crate::boxes::{SBGP, SGPD};
use crate::bytes::boxed;
use crate::cenc::senc::senc_refusal;
use crate::cenc::tenc::{seig_body, seig_refusal};
use crate::cenc::types::{SeigView, SencSampleView, SencView};
use crate::frag::protect::{
    any_seig, any_subsamples, aux_oversize, aux_refusal, distinct, group_boxes, group_indices,
    groups_refusal, local_index, place_of, runs_of, seig_entries, seig_fault, SEIG_GROUP,
};
use crate::sample_groups::{sbgp_body, sgpd_body};
use crate::seqs::{holds_at, lemma_holds_split, lemma_holds_whole};
use vstd::prelude::*;

verus! {

/// A place that is found holds the override, and one that is not says that
/// it occurs nowhere.
proof fn lemma_place(list: Seq<SeigView>, e: SeigView)
    ensures
        0 <= place_of(list, e) <= list.len(),
        place_of(list, e) < list.len() ==> list[place_of(list, e)] == e,
        place_of(list, e) == list.len() ==> forall|i: int| 0 <= i < list.len() ==> list[i] != e,
    decreases list.len(),
{
    if list.len() > 0 {
        lemma_place(list.drop_last(), e);
        if place_of(list, e) == list.len() {
            assert forall|i: int| 0 <= i < list.len() implies list[i] != e by {
                if i < list.len() - 1 {
                    assert(list.drop_last()[i] == list[i]);
                }
            }
        }
    }
}

/// The descriptions of earlier samples keep their places.
proof fn lemma_distinct_grows(seig: Seq<Option<SeigView>>, n: int)
    requires
        0 <= n <= seig.len(),
    ensures
        distinct(seig.take(n)).len() <= distinct(seig).len() <= seig.len(),
        distinct(seig).take(distinct(seig.take(n)).len() as int) == distinct(seig.take(n)),
    decreases seig.len(),
{
    if n < seig.len() {
        let init = seig.drop_last();
        assert(init.take(n) =~= seig.take(n));
        lemma_distinct_grows(init, n);
        let k = distinct(seig.take(n)).len() as int;
        assert(distinct(seig).take(k) =~= distinct(init).take(k));
    } else {
        assert(seig.take(n) =~= seig);
        assert(distinct(seig).take(distinct(seig).len() as int) =~= distinct(seig));
        if seig.len() > 0 {
            lemma_distinct_grows(seig.drop_last(), seig.len() - 1);
        }
    }
}

/// No override is described twice.
pub proof fn law_overrides_described_once(seig: Seq<Option<SeigView>>)
    ensures
        forall|i: int, j: int|
            0 <= i < j < distinct(seig).len() ==> distinct(seig)[i] != distinct(seig)[j],
    decreases seig.len(),
{
    if seig.len() > 0 {
        law_overrides_described_once(seig.drop_last());
        let before = distinct(seig.drop_last());
        if let Some(e) = seig.last() {
            lemma_place(before, e);
        }
    }
}

/// As many indices as samples.
proof fn lemma_indices_len(seig: Seq<Option<SeigView>>)
    ensures
        group_indices(seig).len() == seig.len(),
    decreases seig.len(),
{
    if seig.len() > 0 {
        lemma_indices_len(seig.drop_last());
    }
}

/// The index of a sample depends on it and on what came before.
proof fn lemma_index_at(seig: Seq<Option<SeigView>>, i: int)
    requires
        0 <= i < seig.len(),
    ensures
        group_indices(seig).len() == seig.len(),
        group_indices(seig)[i] == (match seig[i] {
            Some(e) => local_index(place_of(distinct(seig.take(i)), e)),
            None => 0u32,
        }),
    decreases seig.len(),
{
    let init = seig.drop_last();
    lemma_indices_len(seig);
    lemma_indices_len(init);
    if i < seig.len() - 1 {
        lemma_index_at(init, i);
        assert(init.take(i) =~= seig.take(i));
        assert(group_indices(seig)[i] == group_indices(init)[i]);
    } else {
        assert(seig.take(i) =~= init);
    }
}

/// Of fewer than `0xFFFE_FFFF` samples, each one without an override has
/// index 0, and each one with an override has an index past `0x1_0000` that
/// names a description equal to it.
pub proof fn law_index_names_override(seig: Seq<Option<SeigView>>, i: int)
    requires
        0 <= i < seig.len() < 0xFFFE_FFFF,
    ensures
        group_indices(seig).len() == seig.len(),
        match seig[i] {
            None => group_indices(seig)[i] == 0,
            Some(e) => {
                let k = group_indices(seig)[i] - 0x1_0001;
                0 <= k < distinct(seig).len() && distinct(seig)[k] == e
            },
        },
{
    lemma_index_at(seig, i);
    if let Some(e) = seig[i] {
        let upto = seig.take(i + 1);
        let before = distinct(seig.take(i));
        assert(upto.drop_last() =~= seig.take(i));
        assert(upto.last() == seig[i]);
        lemma_place(before, e);
        lemma_distinct_grows(seig, i);
        lemma_distinct_grows(seig, i + 1);
        let k = place_of(before, e);
        let known = distinct(upto);
        assert(known[k] == e);
        assert(distinct(seig).take(known.len() as int)[k] == distinct(seig)[k]);
        assert(local_index(k) == 0x1_0001 + k);
    }
}

/// The values that runs stand for.
pub open spec fn expanded(runs: Seq<(u32, u32)>) -> Seq<u32>
    decreases runs.len(),
{
    if runs.len() == 0 {
        Seq::empty()
    } else {
        expanded(runs.drop_last()) + Seq::new(runs.last().0 as nat, |i: int| runs.last().1)
    }
}

/// The runs of a map stand for the index of every sample, in order, and no
/// two neighbouring runs could be one. Counts fit for up to `0xFFFF_FFFF`
/// samples.
pub proof fn law_runs_expand(values: Seq<u32>)
    requires
        values.len() <= u32::MAX,
    ensures
        expanded(runs_of(values)) == values,
        forall|i: int|
            0 <= i < runs_of(values).len() - 1 ==> (#[trigger] runs_of(values)[i]).1
                != runs_of(values)[i + 1].1,
    decreases values.len(),
{
    if values.len() > 0 {
        let init = values.drop_last();
        law_runs_expand(init);
        let before = runs_of(init);
        let x = values.last();
        let runs = runs_of(values);
        if before.len() > 0 && before.last().1 == x {
            let n = before.last().0;
            lemma_run_fits(before);
            assert(runs.drop_last() =~= before.drop_last());
            let tail = Seq::new(n as nat, |i: int| before.last().1);
            let longer = Seq::new((n + 1) as nat, |i: int| x);
            assert(longer =~= tail.push(x));
            assert(runs.last() == ((n + 1) as u32, x));
            assert(expanded(runs) =~= expanded(before.drop_last()) + longer);
            assert(expanded(runs) =~= init.push(x));
            assert forall|i: int| 0 <= i < runs.len() - 1 implies (#[trigger] runs[i]).1 != runs[i
                + 1].1 by {
                assert(runs[i].1 == before[i].1);
                assert(runs[i + 1].1 == before[i + 1].1);
            }
        } else {
            assert(runs.drop_last() =~= before);
            assert(Seq::new(1, |i: int| x) =~= seq![x]);
            assert(runs.last() == (1u32, x));
            assert(expanded(runs) =~= init + seq![x]);
        }
        assert(init.push(x) =~= values);
    }
}

/// The last run is no longer than all that the runs stand for.
proof fn lemma_run_fits(runs: Seq<(u32, u32)>)
    requires
        runs.len() > 0,
    ensures
        runs.last().0 <= expanded(runs).len(),
{
}

/// The groups of a fragment, read back. Where a sample has an override, a
/// box of descriptions and a box of runs of the kind `seig` are written, and
/// the runs give for each sample 0, or `0x1_0001` and the place of a
/// description that holds its override as bytes. Where none has one, there
/// is neither box.
pub proof fn law_groups_of_a_fragment(seig: Seq<Option<SeigView>>, i: int)
    requires
        0 <= i < seig.len() < 0xFFFE_FFFF,
    ensures
        ({
            let b = group_boxes(seig);
            let list = seig_entries(distinct(seig));
            let runs = runs_of(group_indices(seig));
            let sgpd = boxed(SGPD, sgpd_body([0x73, 0x65, 0x69, 0x67], None, list));
            let sbgp = boxed(SBGP, sbgp_body([0x73, 0x65, 0x69, 0x67], None, runs));
            let index = expanded(runs)[i];
            &&& (forall|k: int| 0 <= k < seig.len() ==> (#[trigger] seig[k]) is None) ==> b.len() == 0
            &&& seig[i] is Some ==> {
                &&& holds_at(b, 0, sgpd)
                &&& holds_at(b, sgpd.len() as int, sbgp)
                &&& b.len() == sgpd.len() + sbgp.len()
            }
            &&& expanded(runs).len() == seig.len()
            &&& match seig[i] {
                None => index == 0,
                Some(e) => {
                    let k = index - 0x1_0001;
                    0 <= k < list.len() && list[k] == seig_body(e)
                },
            }
        }),
{
    law_index_names_override(seig, i);
    law_runs_expand(group_indices(seig));
    if seig[i] is Some {
        let b = group_boxes(seig);
        assert(any_seig(seig));
        let sgpd = boxed(SGPD, sgpd_body(SEIG_GROUP, None, seig_entries(distinct(seig))));
        let sbgp = boxed(SBGP, sbgp_body(SEIG_GROUP, None, runs_of(group_indices(seig))));
        lemma_holds_whole(b);
        lemma_holds_split(b, 0, sgpd, sbgp);
    }
}

/// Overrides are described in the order of their first use: those of the
/// first `n` samples come first, whatever follows, and only overrides that
/// occur are described.
pub proof fn law_overrides_in_order_of_use(seig: Seq<Option<SeigView>>, n: int)
    requires
        0 <= n <= seig.len(),
    ensures
        ({
            let first = distinct(seig.take(n));
            &&& first.len() <= distinct(seig).len()
            &&& distinct(seig).take(first.len() as int) == first
        }),
        forall|k: int|
            0 <= k < distinct(seig).len() ==> seig.contains(Some(#[trigger] distinct(seig)[k])),
{
    lemma_distinct_grows(seig, n);
    lemma_distinct_occur(seig);
}

proof fn lemma_distinct_occur(seig: Seq<Option<SeigView>>)
    ensures
        forall|k: int|
            0 <= k < distinct(seig).len() ==> seig.contains(Some(#[trigger] distinct(seig)[k])),
    decreases seig.len(),
{
    if seig.len() > 0 {
        let init = seig.drop_last();
        lemma_distinct_occur(init);
        assert forall|k: int| 0 <= k < distinct(seig).len() implies seig.contains(
            Some(#[trigger] distinct(seig)[k]),
        ) by {
            if k < distinct(init).len() {
                let e = Some(distinct(init)[k]);
                assert(init.contains(e));
                let j = choose|j: int| 0 <= j < init.len() && init[j] == e;
                assert(seig[j] == e);
            } else {
                assert(seig[seig.len() - 1] == Some(distinct(seig)[k]));
            }
        }
    }
}

proof fn lemma_oversize(senc: Seq<SencSampleView>, i: int, maps: bool)
    requires
        0 <= i <= senc.len(),
    ensures
        aux_oversize(senc, i, maps) is None <==> forall|k: int|
            i <= k < senc.len() ==> (#[trigger] senc[k]).iv.len() + (if maps {
                2 + 6 * senc[k].subsamples.len()
            } else {
                0
            }) <= 0xFF,
    decreases senc.len() - i,
{
    if i < senc.len() {
        lemma_oversize(senc, i + 1, maps);
    }
}

/// The auxiliary information of a fragment can be written if and only if
/// there is none, or there is an entry for every sample and, where an entry
/// has bytes, none has more than 255 and the table can be written.
pub proof fn law_which_aux_info_is_written(senc: Seq<SencSampleView>, samples: nat)
    ensures
        aux_refusal(senc, samples) is None <==> {
            let maps = exists|i: int|
                0 <= i < senc.len() && (#[trigger] senc[i]).subsamples.len() > 0;
            ||| senc.len() == 0
            ||| senc.len() == samples && senc[0].iv.len() == 0 && !maps
            ||| {
                &&& senc.len() == samples
                &&& forall|k: int|
                    0 <= k < senc.len() ==> (#[trigger] senc[k]).iv.len() + (if maps {
                        2 + 6 * senc[k].subsamples.len()
                    } else {
                        0
                    }) <= 0xFF
                &&& senc_refusal(
                    (SencView {
                        flags: if maps {
                            2
                        } else {
                            0
                        },
                        samples: senc,
                    }),
                ) is None
            }
        },
{
    lemma_oversize(senc, 0, any_subsamples(senc));
}

proof fn lemma_seig_faults(list: Seq<SeigView>, i: int)
    requires
        0 <= i <= list.len(),
    ensures
        seig_fault(list, i) is None <==> forall|k: int|
            i <= k < list.len() ==> seig_refusal(#[trigger] list[k]) is None,
    decreases list.len() - i,
{
    if i < list.len() {
        lemma_seig_faults(list, i + 1);
    }
}

/// The overrides of a fragment can be written if there are none, or there is
/// a place for every sample and each that occurs can be written.
pub proof fn law_which_overrides_are_written(seig: Seq<Option<SeigView>>, samples: nat)
    ensures
        (forall|i: int| 0 <= i < seig.len() ==> (#[trigger] seig[i]) is None) ==> groups_refusal(
            seig,
            samples,
        ) is None,
        seig.len() == samples && (forall|i: int|
            0 <= i < seig.len() ==> ((#[trigger] seig[i]) matches Some(e) ==> seig_refusal(e)
                is None)) ==> groups_refusal(seig, samples) is None,
        groups_refusal(seig, samples) is None ==> forall|k: int|
            any_seig(seig) && 0 <= k < distinct(seig).len() ==> seig_refusal(
                #[trigger] distinct(seig)[k],
            ) is None,
{
    let list = distinct(seig);
    lemma_seig_faults(list, 0);
    lemma_distinct_occur(seig);
    if forall|i: int|
        0 <= i < seig.len() ==> ((#[trigger] seig[i]) matches Some(e) ==> seig_refusal(e) is None) {
        assert forall|k: int| 0 <= k < list.len() implies seig_refusal(#[trigger] list[k]) is None by {
            assert(seig.contains(Some(list[k])));
            let j = choose|j: int| 0 <= j < seig.len() && seig[j] == Some(list[k]);
            assert(seig[j] is Some);
        }
    }
}

} // verus!
