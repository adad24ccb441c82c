//! What a track fragment says of the encryption of its samples: `senc` with
//! `saiz` and `saio`, and the `seig` groups of samples with other keys.

use crate::aux_info::{build_saio_box, build_saiz_box, saio_body, saiz_body};
use crate::boxes::{SAIO, SAIZ, SBGP, SENC, SGPD};
use crate::bytes::{boxed, low32, put_bytes, same_bytes};
use crate::cenc::senc::{build_senc_box, senc_body, senc_refusal};
use crate::cenc::tenc::{build_seig_entry, seig_body, seig_refusal};
use crate::cenc::types::{
    copy_samples, opt_bytes, sample_views, SeigEntry, SeigView, SencBox, SencSample,
    SencSampleView, SencView,
};
use crate::frag::error::MuxError;
use crate::sample_groups::{
    build_sbgp, build_sgpd, entry_bytes, sbgp_body, sgpd_body, SampleGroupDescription,
    SampleToGroup,
};
use vstd::prelude::*;

verus! {

/// `seig`, the kind of group of encryption overrides.
pub const SEIG_GROUP: [u8; 4] = [0x73, 0x65, 0x69, 0x67];

// ---------------------------------------------------------------------
// Auxiliary information
// ---------------------------------------------------------------------

/// Some sample has a subsample map.
pub open spec fn any_subsamples(senc: Seq<SencSampleView>) -> bool {
    exists|i: int| 0 <= i < senc.len() && (#[trigger] senc[i]).subsamples.len() > 0
}

/// How long the auxiliary information of a sample is.
pub open spec fn aux_size(s: SencSampleView, maps: bool) -> nat {
    s.iv.len() + if maps {
        2 + 6 * s.subsamples.len()
    } else {
        0
    }
}

/// The lengths, each in a byte.
pub open spec fn aux_sizes(senc: Seq<SencSampleView>) -> Seq<u8> {
    Seq::new(senc.len(), |i: int| aux_size(senc[i], any_subsamples(senc)) as u8)
}

/// There is auxiliary information to write: a constant IV without subsample
/// maps leaves none.
pub open spec fn has_aux_info(senc: Seq<SencSampleView>) -> bool {
    senc.len() > 0 && (senc[0].iv.len() > 0 || any_subsamples(senc))
}

/// The first sample from `i` on whose auxiliary information is too long.
pub open spec fn aux_oversize(senc: Seq<SencSampleView>, i: int, maps: bool) -> Option<MuxError>
    decreases senc.len() - i,
{
    if i < 0 || i >= senc.len() {
        None
    } else if aux_size(senc[i], maps) > 0xFF {
        Some(
            MuxError::AuxInfoSize {
                sample: i as usize,
                info_len: (aux_size(senc[i], maps) % 0x1_0000_0000_0000_0000) as u64,
            },
        )
    } else {
        aux_oversize(senc, i + 1, maps)
    }
}

/// The `senc` record of a fragment.
pub open spec fn senc_record(senc: Seq<SencSampleView>) -> SencView {
    SencView {
        flags: if any_subsamples(senc) {
            2
        } else {
            0
        },
        samples: senc,
    }
}

/// Why the auxiliary information of a fragment of `samples` samples cannot
/// be written, if it cannot.
pub open spec fn aux_refusal(senc: Seq<SencSampleView>, samples: nat) -> Option<MuxError> {
    if senc.len() == 0 {
        None
    } else if senc.len() != samples {
        Some(MuxError::SencOutOfStep)
    } else if !has_aux_info(senc) {
        None
    } else if aux_oversize(senc, 0, any_subsamples(senc)) is Some {
        aux_oversize(senc, 0, any_subsamples(senc))
    } else {
        match senc_refusal(senc_record(senc)) {
            Some(e) => Some(MuxError::Cenc(e)),
            None => None,
        }
    }
}

/// The three boxes of a fragment's auxiliary information, which stands
/// `offset` bytes into the movie fragment.
pub open spec fn aux_boxes(senc: Seq<SencSampleView>, offset: u32) -> Seq<u8> {
    if has_aux_info(senc) {
        boxed(SENC, senc_body(senc_record(senc))) + boxed(SAIZ, saiz_body(aux_sizes(senc))) + boxed(
            SAIO,
            saio_body(offset),
        )
    } else {
        Seq::empty()
    }
}

/// Whether some sample has a subsample map.
pub(crate) fn find_subsamples(senc: &Vec<SencSample>) -> (r: bool)
    ensures
        r == any_subsamples(sample_views(senc@)),
{
    let ghost v = sample_views(senc@);
    let mut i: usize = 0;
    while i < senc.len()
        invariant
            i <= senc.len(),
            v == sample_views(senc@),
            forall|k: int| 0 <= k < i ==> (#[trigger] v[k]).subsamples.len() == 0,
        decreases senc.len() - i,
    {
        if senc[i].subsamples.len() > 0 {
            assert(v[i as int].subsamples.len() > 0);
            return true;
        }
        i = i + 1;
    }
    false
}

/// The lengths of the auxiliary information, or the first that is too long.
#[verifier::loop_isolation(false)]
fn measure_aux_info(senc: &Vec<SencSample>, maps: bool) -> (r: Result<Vec<u8>, MuxError>)
    requires
        maps == any_subsamples(sample_views(senc@)),
    ensures
        match r {
            Ok(sizes) => aux_oversize(sample_views(senc@), 0, maps) is None && sizes@ == aux_sizes(
                sample_views(senc@),
            ),
            Err(e) => aux_oversize(sample_views(senc@), 0, maps) == Some(e),
        },
{
    let ghost v = sample_views(senc@);
    let mut sizes: Vec<u8> = Vec::new();
    let mut i: usize = 0;
    while i < senc.len()
        invariant
            i <= senc.len(),
            sizes@ == aux_sizes(v).take(i as int),
            aux_oversize(v, 0, maps) == aux_oversize(v, i as int, maps),
        decreases senc.len() - i,
    {
        let iv_len: usize = senc[i].initialization_vector.len();
        let maps_len: usize = senc[i].subsamples.len();
        let wide: u128 = iv_len as u128 + if maps {
            2 + 6 * (maps_len as u128)
        } else {
            0
        };
        assert(wide == aux_size(v[i as int], maps));
        if wide > 0xFF {
            let info_len: u64 = (wide % 0x1_0000_0000_0000_0000) as u64;
            return Err(MuxError::AuxInfoSize { sample: i, info_len });
        }
        sizes.push(wide as u8);
        assert(sizes@ =~= aux_sizes(v).take(i + 1));
        i = i + 1;
    }
    assert(sizes@ =~= aux_sizes(v));
    Ok(sizes)
}

/// Append the auxiliary information of a fragment of `samples` samples.
pub fn append_traf_cenc_boxes(
    body: &mut Vec<u8>,
    senc: &Vec<SencSample>,
    samples: usize,
    offset: u32,
) -> (r: Result<(), MuxError>)
    ensures
        match r {
            Ok(_) => aux_refusal(sample_views(senc@), samples as nat) is None && final(body)@
                == old(body)@ + aux_boxes(sample_views(senc@), offset),
            Err(e) => aux_refusal(sample_views(senc@), samples as nat) == Some(e) && final(body)@
                == old(body)@,
        },
{
    let ghost v = sample_views(senc@);
    if senc.len() == 0 {
        assert(body@ + aux_boxes(v, offset) =~= body@);
        return Ok(());
    }
    if senc.len() != samples {
        return Err(MuxError::SencOutOfStep);
    }
    let maps: bool = find_subsamples(senc);
    assert(v[0] == senc@[0]@);
    if senc[0].initialization_vector.len() == 0 && !maps {
        assert(body@ + aux_boxes(v, offset) =~= body@);
        return Ok(());
    }
    let sizes: Vec<u8> = match measure_aux_info(senc, maps) {
        Ok(sizes) => sizes,
        Err(e) => {
            return Err(e);
        },
    };
    let record: SencBox = SencBox {
        flags: if maps {
            2
        } else {
            0
        },
        samples: copy_samples(senc),
    };
    assert(record@ == senc_record(v));
    match build_senc_box(&record) {
        Ok(b) => put_bytes(body, b.as_slice()),
        Err(e) => {
            return Err(MuxError::Cenc(e));
        },
    }
    put_bytes(body, build_saiz_box(sizes.as_slice()).as_slice());
    put_bytes(body, build_saio_box(offset).as_slice());
    assert(body@ =~= old(body)@ + aux_boxes(v, offset));
    Ok(())
}

// ---------------------------------------------------------------------
// Overrides by group
// ---------------------------------------------------------------------

/// The value of an override, if there is one.
pub open spec fn opt_seig(o: Option<SeigEntry>) -> Option<SeigView> {
    match o {
        Some(e) => Some(e@),
        None => None,
    }
}

/// The values of overrides.
pub open spec fn seig_views(s: Seq<Option<SeigEntry>>) -> Seq<Option<SeigView>> {
    Seq::new(s.len(), |i: int| opt_seig(s[i]))
}

/// Some sample has an override.
pub open spec fn any_seig(seig: Seq<Option<SeigView>>) -> bool {
    exists|i: int| 0 <= i < seig.len() && (#[trigger] seig[i]) is Some
}

/// Where `e` first stands in `list`, or the length of `list`.
pub open spec fn place_of(list: Seq<SeigView>, e: SeigView) -> int
    decreases list.len(),
{
    if list.len() == 0 {
        0
    } else if place_of(list.drop_last(), e) < list.len() - 1 {
        place_of(list.drop_last(), e)
    } else if list.last() == e {
        list.len() - 1
    } else {
        list.len() as int
    }
}

/// The index by which a map names the `k`-th description of its own
/// fragment.
pub open spec fn local_index(k: int) -> u32 {
    ((0x1_0001 + k) % 0x1_0000_0000) as u32
}

/// The overrides that occur, each once, in the order of first use.
pub open spec fn distinct(seig: Seq<Option<SeigView>>) -> Seq<SeigView>
    decreases seig.len(),
{
    if seig.len() == 0 {
        Seq::empty()
    } else {
        let before = distinct(seig.drop_last());
        match seig.last() {
            Some(e) => if place_of(before, e) == before.len() {
                before.push(e)
            } else {
                before
            },
            None => before,
        }
    }
}

/// The index of each sample's description: 0 for a sample without override.
pub open spec fn group_indices(seig: Seq<Option<SeigView>>) -> Seq<u32>
    decreases seig.len(),
{
    if seig.len() == 0 {
        Seq::empty()
    } else {
        group_indices(seig.drop_last()).push(
            match seig.last() {
                Some(e) => local_index(place_of(distinct(seig.drop_last()), e)),
                None => 0,
            },
        )
    }
}

/// Equal neighbours as runs of a count and a value.
pub open spec fn runs_of(values: Seq<u32>) -> Seq<(u32, u32)>
    decreases values.len(),
{
    if values.len() == 0 {
        Seq::empty()
    } else {
        let before = runs_of(values.drop_last());
        if before.len() > 0 && before.last().1 == values.last() {
            before.drop_last().push(
                (((before.last().0 + 1) % 0x1_0000_0000) as u32, values.last()),
            )
        } else {
            before.push((1, values.last()))
        }
    }
}

/// The descriptions of overrides, as bytes.
pub open spec fn seig_entries(list: Seq<SeigView>) -> Seq<Seq<u8>> {
    Seq::new(list.len(), |i: int| seig_body(list[i]))
}

/// The first override from `i` on that cannot be written.
pub open spec fn seig_fault(list: Seq<SeigView>, i: int) -> Option<MuxError>
    decreases list.len() - i,
{
    if i < 0 || i >= list.len() {
        None
    } else {
        match seig_refusal(list[i]) {
            Some(e) => Some(MuxError::Cenc(e)),
            None => seig_fault(list, i + 1),
        }
    }
}

/// Why the overrides of a fragment of `samples` samples cannot be written,
/// if they cannot.
pub open spec fn groups_refusal(seig: Seq<Option<SeigView>>, samples: nat) -> Option<MuxError> {
    if !any_seig(seig) {
        None
    } else if seig.len() != samples {
        Some(MuxError::SeigOutOfStep)
    } else {
        seig_fault(distinct(seig), 0)
    }
}

/// The two boxes of a fragment's overrides.
pub open spec fn group_boxes(seig: Seq<Option<SeigView>>) -> Seq<u8> {
    if any_seig(seig) {
        boxed(SGPD, sgpd_body(SEIG_GROUP, None, seig_entries(distinct(seig)))) + boxed(
            SBGP,
            sbgp_body(SEIG_GROUP, None, runs_of(group_indices(seig))),
        )
    } else {
        Seq::empty()
    }
}

/// Whether two overrides are the same.
fn same_seig(a: &SeigEntry, b: &SeigEntry) -> (r: bool)
    ensures
        r == (a@ == b@),
{
    let iv_same: bool = match (&a.constant_iv, &b.constant_iv) {
        (Some(x), Some(y)) => same_bytes(x.as_slice(), y.as_slice()),
        (None, None) => true,
        _ => false,
    };
    assert(iv_same == (opt_bytes(a.constant_iv) == opt_bytes(b.constant_iv)));
    a.crypt_byte_block == b.crypt_byte_block && a.skip_byte_block == b.skip_byte_block
        && a.is_protected == b.is_protected && a.per_sample_iv_size == b.per_sample_iv_size
        && same_bytes(&a.kid, &b.kid) && iv_same
}

/// The overrides at some places.
pub open spec fn picked(seig: Seq<Option<SeigView>>, places: Seq<usize>) -> Seq<SeigView> {
    Seq::new(places.len(), |i: int| seig[places[i] as int]->0)
}

/// Every place is that of an override.
pub open spec fn picks_overrides(seig: Seq<Option<SeigView>>, places: Seq<usize>) -> bool {
    forall|i: int|
        0 <= i < places.len() ==> (#[trigger] places[i]) < seig.len() && seig[places[i] as int] is Some
}

/// Where `e` stands among the overrides at some places.
fn find_place(seig: &Vec<Option<SeigEntry>>, places: &Vec<usize>, e: &SeigEntry) -> (r: usize)
    requires
        picks_overrides(seig_views(seig@), places@),
    ensures
        r == place_of(picked(seig_views(seig@), places@), e@),
        r <= places@.len(),
{
    let ghost v = seig_views(seig@);
    let ghost list = picked(v, places@);
    let mut i: usize = 0;
    while i < places.len()
        invariant
            i <= places.len(),
            v == seig_views(seig@),
            list == picked(v, places@),
            picks_overrides(v, places@),
            place_of(list.take(i as int), e@) == i,
        decreases places.len() - i,
    {
        let at: usize = places[i];
        assert(v[at as int] is Some);
        assert(list.take(i + 1).drop_last() =~= list.take(i as int));
        assert(list.take(i + 1).last() == list[i as int]);
        if let Some(x) = &seig[at] {
            assert(list[i as int] == x@);
            if same_seig(x, e) {
                proof {
                    lemma_place_stays(list, i + 1, e@);
                }
                return i;
            }
        }
        i = i + 1;
    }
    assert(list.take(places.len() as int) =~= list);
    i
}

/// A place that is found among the first entries is the place among all.
pub proof fn lemma_place_stays(list: Seq<SeigView>, n: int, e: SeigView)
    requires
        0 <= n <= list.len(),
        place_of(list.take(n), e) < n,
    ensures
        place_of(list, e) == place_of(list.take(n), e),
    decreases list.len(),
{
    if n < list.len() {
        assert(list.drop_last().take(n) =~= list.take(n));
        lemma_place_stays(list.drop_last(), n, e);
    } else {
        assert(list.take(n) =~= list);
    }
}

/// Append the value of a sample to runs.
fn push_run(runs: &mut Vec<(u32, u32)>, value: u32)
    ensures
        forall|values: Seq<u32>|
            old(runs)@ == #[trigger] runs_of(values) ==> final(runs)@ == runs_of(
                values.push(value),
            ),
{
    let ghost before = runs@;
    let n: usize = runs.len();
    if n > 0 && runs[n - 1].1 == value {
        let count: u32 = runs[n - 1].0.wrapping_add(1);
        runs.set(n - 1, (count, value));
        assert(runs@ =~= before.drop_last().push((count, value)));
    } else {
        runs.push((1, value));
    }
    proof {
        assert forall|values: Seq<u32>| before == #[trigger] runs_of(values) implies runs@
            == runs_of(values.push(value)) by {
            assert(values.push(value).drop_last() =~= values);
        }
    }
}

/// Take up the override of sample `i`, if it has one, among those at some
/// places: the index of its description.
fn take_up(seig: &Vec<Option<SeigEntry>>, places: &mut Vec<usize>, i: usize) -> (index: u32)
    requires
        i < seig@.len(),
        picks_overrides(seig_views(seig@), old(places)@),
    ensures
        picks_overrides(seig_views(seig@), final(places)@),
        ({
            let v = seig_views(seig@);
            let before = picked(v, old(places)@);
            let after = picked(v, final(places)@);
            match v[i as int] {
                Some(e) => index == local_index(place_of(before, e)) && after == if place_of(
                    before,
                    e,
                ) == before.len() {
                    before.push(e)
                } else {
                    before
                },
                None => index == 0 && after == before,
            }
        }),
{
    let ghost v = seig_views(seig@);
    let ghost before = picked(v, places@);
    match &seig[i] {
        None => 0,
        Some(entry) => {
            assert(v[i as int] == Some(entry@));
            let k: usize = find_place(seig, places, entry);
            if k == places.len() {
                places.push(i);
                assert(picked(v, places@) =~= before.push(entry@));
            }
            low32(k).wrapping_add(0x1_0001)
        },
    }
}

/// Append the overrides of a fragment of `samples` samples.
pub fn append_traf_seig_groups(
    body: &mut Vec<u8>,
    seig: &Vec<Option<SeigEntry>>,
    samples: usize,
) -> (r: Result<(), MuxError>)
    ensures
        match r {
            Ok(_) => groups_refusal(seig_views(seig@), samples as nat) is None && final(body)@
                == old(body)@ + group_boxes(seig_views(seig@)),
            Err(e) => groups_refusal(seig_views(seig@), samples as nat) == Some(e) && final(body)@
                == old(body)@,
        },
{
    let ghost v = seig_views(seig@);
    if !find_override(seig) {
        assert(body@ + group_boxes(v) =~= body@);
        return Ok(());
    }
    if seig.len() != samples {
        return Err(MuxError::SeigOutOfStep);
    }
    let mut places: Vec<usize> = Vec::new();
    let mut runs: Vec<(u32, u32)> = Vec::new();
    let mut i: usize = 0;
    assert(picked(v, places@) =~= distinct(v.take(0)));
    assert(runs@ =~= runs_of(group_indices(v.take(0))));
    while i < seig.len()
        invariant
            i <= seig.len(),
            v == seig_views(seig@),
            picks_overrides(v, places@),
            picked(v, places@) == distinct(v.take(i as int)),
            runs@ == runs_of(group_indices(v.take(i as int))),
        decreases seig.len() - i,
    {
        let ghost done = v.take(i as int);
        assert(v.take(i + 1).drop_last() =~= done);
        assert(v.take(i + 1).last() == v[i as int]);
        let index: u32 = take_up(seig, &mut places, i);
        assert(group_indices(v.take(i + 1)) == group_indices(done).push(index));
        push_run(&mut runs, index);
        i = i + 1;
    }
    assert(v.take(seig.len() as int) =~= v);
    let entries: Vec<Vec<u8>> = match describe(seig, &places) {
        Ok(entries) => entries,
        Err(e) => {
            return Err(e);
        },
    };
    let sgpd: SampleGroupDescription = SampleGroupDescription {
        grouping_type: SEIG_GROUP,
        default_sample_description_index: None,
        entries,
    };
    put_bytes(body, build_sgpd(&sgpd).as_slice());
    let sbgp: SampleToGroup = SampleToGroup {
        grouping_type: SEIG_GROUP,
        grouping_type_parameter: None,
        entries: runs,
    };
    put_bytes(body, build_sbgp(&sbgp).as_slice());
    assert(body@ =~= old(body)@ + group_boxes(v));
    Ok(())
}

/// Whether some sample has an override.
fn find_override(seig: &Vec<Option<SeigEntry>>) -> (r: bool)
    ensures
        r == any_seig(seig_views(seig@)),
{
    let ghost v = seig_views(seig@);
    let mut i: usize = 0;
    while i < seig.len()
        invariant
            i <= seig.len(),
            v == seig_views(seig@),
            forall|k: int| 0 <= k < i ==> (#[trigger] v[k]) is None,
        decreases seig.len() - i,
    {
        if seig[i].is_some() {
            assert(v[i as int] is Some);
            return true;
        }
        i = i + 1;
    }
    false
}

/// The descriptions of the overrides at some places.
#[verifier::loop_isolation(false)]
fn describe(seig: &Vec<Option<SeigEntry>>, places: &Vec<usize>) -> (r: Result<
    Vec<Vec<u8>>,
    MuxError,
>)
    requires
        picks_overrides(seig_views(seig@), places@),
    ensures
        match r {
            Ok(entries) => seig_fault(picked(seig_views(seig@), places@), 0) is None && entry_bytes(
                entries@,
            ) == seig_entries(picked(seig_views(seig@), places@)),
            Err(e) => seig_fault(picked(seig_views(seig@), places@), 0) == Some(e),
        },
{
    let ghost v = seig_views(seig@);
    let ghost list = picked(v, places@);
    let mut out: Vec<Vec<u8>> = Vec::new();
    let mut i: usize = 0;
    while i < places.len()
        invariant
            i <= places.len(),
            out.len() == i,
            entry_bytes(out@) == seig_entries(list).take(i as int),
            seig_fault(list, 0) == seig_fault(list, i as int),
        decreases places.len() - i,
    {
        let at: usize = places[i];
        assert(v[at as int] is Some);
        if let Some(x) = &seig[at] {
            assert(list[i as int] == x@);
            match build_seig_entry(x) {
                Ok(b) => {
                    out.push(b);
                    assert(entry_bytes(out@) =~= seig_entries(list).take(i + 1));
                },
                Err(e) => {
                    return Err(MuxError::Cenc(e));
                },
            }
        }
        i = i + 1;
    }
    assert(entry_bytes(out@) =~= seig_entries(list));
    Ok(out)
}

} // verus!
