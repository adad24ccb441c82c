//! Opening a fragmented muxer.

use crate::cenc::scheme::{scheme_of, CencSchemeDecision, DecisionView};
use crate::cenc::sinf::sinf_refusal;
use crate::cenc::tenc::build_tenc_box;
use crate::cenc::types::CencScheme;
use crate::edits::{build_elst_box, elst_refusal};
use crate::frag::error::MuxError;
use crate::frag::model::{mux_wf, MuxView};
use crate::frag::moof::track_views;
use crate::frag::muxer::FragmentedMuxer;
use crate::frag::track::{
    new_track, opt_decision, track_wf, FragTrackState, TrackSetup, TrackView,
};
use crate::options::{FragmentedOptions, Mp4MuxerOptions, TrackEditList, TrackProtection};
use vstd::prelude::*;
use vstd::slice::slice_to_vec;

verus! {

/// The protection of a stream: the first that names it.
pub open spec fn protection_for(list: Seq<TrackProtection>, i: int) -> Option<TrackProtection>
    decreases list.len(),
{
    if list.len() == 0 {
        None
    } else if list[0].stream_index == i {
        Some(list[0])
    } else {
        protection_for(list.drop_first(), i)
    }
}

/// Track `i` of those to be opened, or why its protection does not hold.
pub open spec fn opened_track(setup: TrackSetup, i: int, list: Seq<TrackProtection>) -> Result<
    TrackView,
    MuxError,
> {
    match protection_for(list, i) {
        None => Ok(new_track(setup, (i + 1) as u32, None)),
        Some(p) => match sinf_refusal(p.scheme_type, p.tenc@) {
            Some(e) => Err(MuxError::Cenc(e)),
            None => Ok(
                new_track(
                    setup,
                    (i + 1) as u32,
                    Some(DecisionView { scheme: scheme_of(p.scheme_type), tenc: p.tenc@ }),
                ),
            ),
        },
    }
}

/// The tracks to be opened, or the first protection that does not hold.
pub open spec fn opened_tracks(setups: Seq<TrackSetup>, list: Seq<TrackProtection>) -> Result<
    Seq<TrackView>,
    MuxError,
>
    decreases setups.len(),
{
    if setups.len() == 0 {
        Ok(Seq::empty())
    } else {
        match opened_tracks(setups.drop_last(), list) {
            Err(e) => Err(e),
            Ok(before) => match opened_track(setups.last(), setups.len() - 1, list) {
                Err(e) => Err(e),
                Ok(t) => Ok(before.push(t)),
            },
        }
    }
}

/// The first edit list that names no stream or cannot be written.
pub open spec fn edit_lists_refusal(lists: Seq<TrackEditList>, streams: nat) -> Option<MuxError>
    decreases lists.len(),
{
    if lists.len() == 0 {
        None
    } else if lists[0].stream_index >= streams {
        Some(
            MuxError::EditListStream {
                stream_index: lists[0].stream_index,
                streams: streams as usize,
            },
        )
    } else {
        match elst_refusal(lists[0].entries@) {
            Some(e) => Some(MuxError::EditList(e)),
            None => edit_lists_refusal(lists.drop_first(), streams),
        }
    }
}

/// A muxer before its header, or why it cannot be opened.
pub open spec fn opened(
    setups: Seq<TrackSetup>,
    options: Mp4MuxerOptions,
    frag: FragmentedOptions,
) -> Result<MuxView, MuxError> {
    if setups.len() == 0 {
        Err(MuxError::NoStreams)
    } else {
        match opened_tracks(setups, options.track_protection@) {
            Err(e) => Err(e),
            Ok(tracks) => match edit_lists_refusal(options.track_edit_lists@, setups.len()) {
                Some(e) => Err(e),
                None => Ok(
                    MuxView {
                        tracks,
                        options,
                        frag,
                        sequence: 0,
                        header_written: false,
                        trailer_written: false,
                        styp_override: None,
                        prft: None,
                        pssh: Seq::empty(),
                        emsg: Seq::empty(),
                        mehd_at: None,
                    },
                ),
            },
        }
    }
}

impl TrackSetup {
    /// A copy of the setup.
    pub fn duplicate(&self) -> (r: TrackSetup)
        ensures
            r.media_time_scale == self.media_time_scale,
            r.tkhd@ == self.tkhd@,
            r.mdia@ == self.mdia@,
    {
        TrackSetup {
            media_time_scale: self.media_time_scale,
            tkhd: slice_to_vec(self.tkhd.as_slice()),
            mdia: slice_to_vec(self.mdia.as_slice()),
        }
    }
}

/// The first protection that names a stream.
#[verifier::loop_isolation(false)]
fn find_protection(list: &Vec<TrackProtection>, i: usize) -> (r: Option<&TrackProtection>)
    ensures
        match r {
            Some(p) => protection_for(list@, i as int) == Some(*p),
            None => protection_for(list@, i as int) is None,
        },
{
    let mut k: usize = 0;
    assert(list@.skip(0) =~= list@);
    while k < list.len()
        invariant
            k <= list.len(),
            protection_for(list@, i as int) == protection_for(list@.skip(k as int), i as int),
        decreases list.len() - k,
    {
        assert(list@.skip(k as int)[0] == list@[k as int]);
        if list[k].stream_index == i {
            return Some(&list[k]);
        }
        assert(list@.skip(k as int).drop_first() =~= list@.skip(k + 1));
        k = k + 1;
    }
    None
}

/// Open one track.
fn open_track(setup: &TrackSetup, i: usize, list: &Vec<TrackProtection>) -> (r: Result<
    FragTrackState,
    MuxError,
>)
    requires
        i < u32::MAX,
    ensures
        match r {
            Ok(t) => opened_track(*setup, i as int, list@) == Ok::<TrackView, MuxError>(t@)
                && track_wf(t@) && t@.track_id == i + 1,
            Err(e) => opened_track(*setup, i as int, list@) == Err::<TrackView, MuxError>(e),
        },
{
    let protection: Option<CencSchemeDecision> = match find_protection(list, i) {
        None => None,
        Some(p) => {
            let scheme: CencScheme = CencScheme::from_fourcc(&p.scheme_type);
            let decision: CencSchemeDecision = match CencSchemeDecision::new(
                scheme,
                p.tenc.duplicate(),
            ) {
                Ok(d) => d,
                Err(e) => {
                    return Err(MuxError::Cenc(e));
                },
            };
            match build_tenc_box(&p.tenc) {
                Ok(_) => {},
                Err(e) => {
                    return Err(MuxError::Cenc(e));
                },
            }
            Some(decision)
        },
    };
    let copy: TrackSetup = setup.duplicate();
    let ghost d = opt_decision(protection);
    assert(new_track(copy, (i + 1) as u32, d) == new_track(*setup, (i + 1) as u32, d));
    Ok(FragTrackState::new(copy, i as u32 + 1, protection))
}

/// The first track that cannot be opened decides.
proof fn lemma_open_err_stays(setups: Seq<TrackSetup>, n: int, list: Seq<TrackProtection>)
    requires
        0 <= n <= setups.len(),
        opened_tracks(setups.take(n), list) is Err,
    ensures
        opened_tracks(setups, list) == opened_tracks(setups.take(n), list),
    decreases setups.len(),
{
    if n < setups.len() {
        assert(setups.drop_last().take(n) =~= setups.take(n));
        lemma_open_err_stays(setups.drop_last(), n, list);
    } else {
        assert(setups.take(n) =~= setups);
    }
}

/// Open the tracks.
#[verifier::loop_isolation(false)]
fn open_tracks(setups: &Vec<TrackSetup>, list: &Vec<TrackProtection>) -> (r: Result<
    Vec<FragTrackState>,
    MuxError,
>)
    requires
        setups@.len() < u32::MAX,
    ensures
        match r {
            Ok(t) => opened_tracks(setups@, list@) == Ok::<Seq<TrackView>, MuxError>(
                track_views(t@),
            ) && t@.len() == setups@.len() && (forall|i: int|
                0 <= i < t@.len() ==> track_wf(#[trigger] track_views(t@)[i])) && (forall|i: int|
                0 <= i < t@.len() ==> (#[trigger] track_views(t@)[i]).track_id == i + 1),
            Err(e) => opened_tracks(setups@, list@) == Err::<Seq<TrackView>, MuxError>(e),
        },
{
    let mut tracks: Vec<FragTrackState> = Vec::new();
    let mut i: usize = 0;
    assert(setups@.take(0) =~= Seq::<TrackSetup>::empty());
    assert(track_views(tracks@) =~= Seq::<TrackView>::empty());
    while i < setups.len()
        invariant
            i <= setups.len(),
            tracks.len() == i,
            opened_tracks(setups@.take(i as int), list@) == Ok::<Seq<TrackView>, MuxError>(
                track_views(tracks@),
            ),
            forall|k: int| 0 <= k < i ==> track_wf(#[trigger] track_views(tracks@)[k]),
            forall|k: int| 0 <= k < i ==> (#[trigger] track_views(tracks@)[k]).track_id == k + 1,
        decreases setups.len() - i,
    {
        let ghost before = track_views(tracks@);
        assert(setups@.take(i + 1).drop_last() =~= setups@.take(i as int));
        assert(setups@.take(i + 1).last() == setups@[i as int]);
        match open_track(&setups[i], i, list) {
            Err(e) => {
                proof {
                    lemma_open_err_stays(setups@, i + 1, list@);
                }
                return Err(e);
            },
            Ok(t) => {
                let ghost v = t@;
                tracks.push(t);
                assert(track_views(tracks@) =~= before.push(v));
            },
        }
        i = i + 1;
    }
    assert(setups@.take(setups.len() as int) =~= setups@);
    Ok(tracks)
}

/// The first edit list that names no stream or cannot be written.
#[verifier::loop_isolation(false)]
fn find_edit_list_fault(lists: &Vec<TrackEditList>, streams: usize) -> (r: Option<MuxError>)
    ensures
        r == edit_lists_refusal(lists@, streams as nat),
{
    let mut k: usize = 0;
    assert(lists@.skip(0) =~= lists@);
    while k < lists.len()
        invariant
            k <= lists.len(),
            edit_lists_refusal(lists@, streams as nat) == edit_lists_refusal(
                lists@.skip(k as int),
                streams as nat,
            ),
        decreases lists.len() - k,
    {
        assert(lists@.skip(k as int)[0] == lists@[k as int]);
        let stream_index: usize = lists[k].stream_index;
        if stream_index >= streams {
            return Some(MuxError::EditListStream { stream_index, streams });
        }
        match build_elst_box(lists[k].entries.as_slice()) {
            Err(e) => {
                return Some(MuxError::EditList(e));
            },
            Ok(_) => {},
        }
        assert(lists@.skip(k as int).drop_first() =~= lists@.skip(k + 1));
        k = k + 1;
    }
    None
}

/// Open a fragmented muxer for streams that are set up as given. Protection
/// that does not hold and edit lists that cannot be written are refused
/// here.
pub fn open_fragmented_typed(
    setups: &Vec<TrackSetup>,
    options: Mp4MuxerOptions,
    frag_options: FragmentedOptions,
) -> (r: Result<FragmentedMuxer, MuxError>)
    requires
        setups@.len() < u32::MAX,
    ensures
        match r {
            Ok(m) => opened(setups@, options, frag_options) == Ok::<MuxView, MuxError>(m@)
                && mux_wf(m@),
            Err(e) => opened(setups@, options, frag_options) == Err::<MuxView, MuxError>(e),
        },
{
    if setups.len() == 0 {
        return Err(MuxError::NoStreams);
    }
    let tracks: Vec<FragTrackState> = match open_tracks(setups, &options.track_protection) {
        Ok(t) => t,
        Err(e) => {
            return Err(e);
        },
    };
    match find_edit_list_fault(&options.track_edit_lists, setups.len()) {
        Some(e) => {
            return Err(e);
        },
        None => {},
    }
    Ok(FragmentedMuxer::with_tracks(tracks, options, frag_options))
}

/// The protection of a stream is the first one that is given for it.
pub proof fn law_protection_of_a_stream(list: Seq<TrackProtection>, i: int)
    ensures
        match protection_for(list, i) {
            Some(p) => exists|k: int|
                0 <= k < list.len() && p == #[trigger] list[k] && p.stream_index == i && forall|
                    j: int,
                |
                    0 <= j < k ==> (#[trigger] list[j]).stream_index != i,
            None => forall|j: int| 0 <= j < list.len() ==> (#[trigger] list[j]).stream_index != i,
        },
    decreases list.len(),
{
    if list.len() > 0 && list[0].stream_index != i {
        let rest = list.drop_first();
        law_protection_of_a_stream(rest, i);
        match protection_for(rest, i) {
            Some(p) => {
                let k = choose|k: int|
                    0 <= k < rest.len() && p == #[trigger] rest[k] && p.stream_index == i && forall|
                        j: int,
                    |
                        0 <= j < k ==> (#[trigger] rest[j]).stream_index != i;
                assert(list[k + 1] == rest[k]);
                assert forall|j: int| 0 <= j < k + 1 implies (#[trigger] list[j]).stream_index != i by {
                    if j > 0 {
                        assert(rest[j - 1] == list[j]);
                    }
                }
            },
            None => {
                assert forall|j: int| 0 <= j < list.len() implies (#[trigger] list[j]).stream_index
                    != i by {
                    if j > 0 {
                        assert(rest[j - 1] == list[j]);
                    }
                }
            },
        }
    }
}

proof fn lemma_opened_tracks(setups: Seq<TrackSetup>, list: Seq<TrackProtection>)
    ensures
        match opened_tracks(setups, list) {
            Ok(t) => t.len() == setups.len() && forall|i: int|
                0 <= i < setups.len() ==> Ok::<TrackView, MuxError>(#[trigger] t[i])
                    == opened_track(setups[i], i, list),
            Err(e) => exists|i: int|
                0 <= i < setups.len() && #[trigger] opened_track(setups[i], i, list) == Err::<
                    TrackView,
                    MuxError,
                >(e),
        },
    decreases setups.len(),
{
    if setups.len() > 0 {
        let init = setups.drop_last();
        let n = init.len() as int;
        lemma_opened_tracks(init, list);
        assert(forall|i: int| 0 <= i < n ==> init[i] == setups[i]);
        match opened_tracks(init, list) {
            Err(e) => {
                let i = choose|i: int|
                    0 <= i < init.len() && #[trigger] opened_track(init[i], i, list) == Err::<
                        TrackView,
                        MuxError,
                    >(e);
                assert(opened_track(setups[i], i, list) == Err::<TrackView, MuxError>(e));
            },
            Ok(before) => {
                match opened_track(setups[n], n, list) {
                    Err(e) => {
                        assert(opened_track(setups[n], n, list) == Err::<TrackView, MuxError>(e));
                    },
                    Ok(t) => {
                        let all = before.push(t);
                        assert forall|i: int| 0 <= i < setups.len() implies Ok::<
                            TrackView,
                            MuxError,
                        >(#[trigger] all[i]) == opened_track(setups[i], i, list) by {
                            if i < n {
                                assert(all[i] == before[i]);
                                assert(init[i] == setups[i]);
                            }
                        }
                    },
                }
            },
        }
    }
}

/// A muxer that opens has a track for every stream, in order and numbered
/// from 1, with the clock and the boxes that it was set up with, and with
/// the scheme and the defaults of its protection where it has one. Nothing
/// is pending or written, every clock is at 0, and no fragment was numbered.
pub proof fn law_opened_muxer(
    setups: Seq<TrackSetup>,
    options: Mp4MuxerOptions,
    frag: FragmentedOptions,
    i: int,
)
    requires
        opened(setups, options, frag) is Ok,
        0 <= i < setups.len() < u32::MAX,
    ensures
        ({
            let m = opened(setups, options, frag)->Ok_0;
            let t = m.tracks[i];
            &&& m.tracks.len() == setups.len()
            &&& t.track_id == i + 1
            &&& t.time_scale == setups[i].media_time_scale
            &&& t.tkhd == setups[i].tkhd@
            &&& t.mdia == setups[i].mdia@
            &&& match protection_for(options.track_protection@, i) {
                Some(p) => t.protection is Some && t.protection->0.tenc == p.tenc@
                    && t.protection->0.scheme == scheme_of(p.scheme_type),
                None => t.protection is None,
            }
            &&& t.pending.len() == 0 && t.senc.len() == 0 && t.seig.len() == 0 && t.tfra.len() == 0
            &&& t.next_bmdt == 0 && t.cumulative == 0 && t.packets_total == 0
            &&& t.prev_pts is None && t.first_pts is None && !t.trex.locked
            &&& t.trex.duration == 0 && t.trex.size == 0 && t.trex.flags == 0
            &&& m.sequence == 0 && !m.header_written && !m.trailer_written
            &&& m.options == options && m.frag == frag
            &&& m.styp_override is None && m.prft is None && m.mehd_at is None
            &&& m.pssh.len() == 0 && m.emsg.len() == 0
        }),
{
    lemma_opened_tracks(setups, options.track_protection@);
    let t = opened_tracks(setups, options.track_protection@)->Ok_0;
    assert(Ok::<TrackView, MuxError>(t[i]) == opened_track(
        setups[i],
        i,
        options.track_protection@,
    ));
}

proof fn lemma_edit_lists(lists: Seq<TrackEditList>, streams: nat)
    ensures
        edit_lists_refusal(lists, streams) is None <==> forall|k: int|
            0 <= k < lists.len() ==> (#[trigger] lists[k]).stream_index < streams && elst_refusal(
                lists[k].entries@,
            ) is None,
    decreases lists.len(),
{
    if lists.len() > 0 {
        let rest = lists.drop_first();
        lemma_edit_lists(rest, streams);
        assert(forall|k: int| 0 <= k < rest.len() ==> rest[k] == lists[k + 1]);
        if edit_lists_refusal(rest, streams) is None && lists[0].stream_index < streams
            && elst_refusal(lists[0].entries@) is None {
            assert forall|k: int| 0 <= k < lists.len() implies (#[trigger] lists[k]).stream_index
                < streams && elst_refusal(lists[k].entries@) is None by {
                if k > 0 {
                    assert(rest[k - 1] == lists[k]);
                }
            }
        }
    }
}

/// A muxer opens if and only if there is a stream, the protection of every
/// stream that has one can be written, and every edit list is for a stream
/// and can be written.
pub proof fn law_which_muxers_open(
    setups: Seq<TrackSetup>,
    options: Mp4MuxerOptions,
    frag: FragmentedOptions,
)
    ensures
        opened(setups, options, frag) is Ok <==> {
            &&& setups.len() > 0
            &&& forall|i: int|
                0 <= i < setups.len() ==> (#[trigger] protection_for(
                    options.track_protection@,
                    i,
                ) matches Some(p) ==> sinf_refusal(p.scheme_type, p.tenc@) is None)
            &&& forall|k: int|
                0 <= k < options.track_edit_lists@.len() ==> (
                #[trigger] options.track_edit_lists@[k]).stream_index < setups.len()
                    && elst_refusal(options.track_edit_lists@[k].entries@) is None
        },
{
    let list = options.track_protection@;
    lemma_opened_tracks(setups, list);
    lemma_edit_lists(options.track_edit_lists@, setups.len());
    match opened_tracks(setups, list) {
        Ok(t) => {
            assert forall|i: int| 0 <= i < setups.len() implies (#[trigger] protection_for(
                list,
                i,
            ) matches Some(p) ==> sinf_refusal(p.scheme_type, p.tenc@) is None) by {
                assert(Ok::<TrackView, MuxError>(t[i]) == opened_track(setups[i], i, list));
            }
        },
        Err(e) => {
            let i = choose|i: int|
                0 <= i < setups.len() && #[trigger] opened_track(setups[i], i, list) == Err::<
                    TrackView,
                    MuxError,
                >(e);
            assert(protection_for(list, i) is Some);
        },
    }
}

} // verus!
