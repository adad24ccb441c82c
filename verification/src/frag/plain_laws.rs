//! Without protection a fragmented muxer refuses nothing once its header is
//! written.

use crate::frag::model::{
    any_pending, emsg_boxes, flush_due, flushed, fragment_tracks, mux_wf, packet_refusal,
    packet_step, sample_fits, ssix_due, with_sample, MuxView,
};
use crate::frag::fields::mfhd_box;
use crate::frag::moof::{moof_at, moof_body, pssh_boxes, traf_refusal};
use crate::frag::mux_laws::law_every_sample_is_kept;
use crate::frag::protect::{any_seig, aux_refusal, groups_refusal};
use crate::frag::run::total_duration;
use crate::frag::track::{
    queued, sample_duration, track_takes, track_wf, MediaTimes, TrackView,
};
use vstd::prelude::*;

verus! {

/// No track has encryption entries.
pub open spec fn all_plain(t: Seq<TrackView>) -> bool {
    forall|i: int| 0 <= i < t.len() ==> (#[trigger] t[i]).senc.len() == 0 && t[i].seig.len() == 0
}

/// Nothing that is queued can be refused: there are no encryption entries
/// and no protection headers, the events can be written, and no subsegment
/// index is due.
pub open spec fn plain(m: MuxView) -> bool {
    &&& all_plain(m.tracks)
    &&& m.pssh.len() == 0
    &&& emsg_boxes(m.emsg) is Some
    &&& !ssix_due(m.frag)
}

/// The track fragments of plain tracks can be written.
proof fn lemma_plain_body(t: Seq<TrackView>, head: Seq<u8>, base: Option<int>)
    requires
        all_plain(t),
    ensures
        moof_body(t, head, base) is Ok,
    decreases t.len(),
{
    if t.len() > 0 {
        let init = t.drop_last();
        assert forall|i: int| 0 <= i < init.len() implies (#[trigger] init[i]).senc.len() == 0
            && init[i].seig.len() == 0 by {
            assert(init[i] == t[i]);
        }
        lemma_plain_body(init, head, base);
        let last = t.last();
        assert(last == t[t.len() - 1]);
        reveal(traf_refusal);
        assert(aux_refusal(last.senc, last.pending.len()) is None);
        assert(!any_seig(last.seig));
        assert(groups_refusal(last.seig, last.pending.len()) is None);
    }
}

/// The movie fragment of plain tracks can be written.
proof fn lemma_plain_moof(sequence: u32, t: Seq<TrackView>, base: Option<int>)
    requires
        all_plain(t),
    ensures
        moof_at(sequence, t, Seq::empty(), base) is Ok,
{
    reveal(moof_at);
    let headers = pssh_boxes(Seq::empty())->Ok_0;
    lemma_plain_body(t, mfhd_box(sequence) + headers, base);
}

/// A fragment without protection is never refused, and what follows it is
/// without protection too.
pub proof fn law_plain_fragment_is_written(m: MuxView, hold: bool, position: u64)
    requires
        mux_wf(m),
        plain(m),
    ensures
        flushed(m, hold, position).result is Ok,
        plain(flushed(m, hold, position).after),
{
    let t = fragment_tracks(m, hold);
    assert forall|i: int| 0 <= i < t.len() implies (#[trigger] t[i]).senc.len() == 0
        && t[i].seig.len() == 0 by {
        assert(m.tracks[i].senc.len() == 0);
    }
    let sequence = (m.sequence + 1) as u32;
    assert(m.pssh =~= Seq::empty());
    lemma_plain_moof(sequence, t, None);
    lemma_plain_moof(sequence, t, Some(moof_at(sequence, t, m.pssh, None)->Ok_0.len() as int + 8));
    if any_pending(t) {
        let after = flushed(m, hold, position).after;
        assert forall|i: int| 0 <= i < after.tracks.len() implies (
        #[trigger] after.tracks[i]).senc.len() == 0 && after.tracks[i].seig.len() == 0 by {
            law_every_sample_is_kept(m, hold, position, i);
            assert(m.tracks[i].senc.len() == 0);
        }
    }
}

/// One more plain sample keeps the state well formed and plain.
pub proof fn lemma_plain_sample(
    m: MuxView,
    idx: int,
    data: Seq<u8>,
    keyframe: bool,
    times: MediaTimes,
)
    requires
        mux_wf(m),
        plain(m),
        0 <= idx < m.tracks.len(),
        track_takes(m.tracks[idx], sample_duration(m.tracks[idx].prev_pts, times)),
    ensures
        mux_wf(with_sample(m, idx, data, keyframe, times, None)),
        plain(with_sample(m, idx, data, keyframe, times, None)),
{
    let next = with_sample(m, idx, data, keyframe, times, None);
    let t = m.tracks[idx];
    let q = queued(t, data, keyframe, times, None);
    assert(track_wf(t));
    assert(q.pending.drop_last() =~= t.pending);
    assert(total_duration(q.pending) == total_duration(t.pending)
        + q.pending.last().duration as nat);
    assert(track_wf(q));
    assert forall|i: int| 0 <= i < next.tracks.len() implies track_wf(#[trigger] next.tracks[i]) by {
        assert(track_wf(m.tracks[i]));
    }
    assert forall|i: int| 0 <= i < next.tracks.len() implies (#[trigger] next.tracks[i]).track_id
        == i + 1 by {
        assert(m.tracks[i].track_id == i + 1);
    }
    assert forall|i: int| 0 <= i < next.tracks.len() implies (
    #[trigger] next.tracks[i]).senc.len() == 0 && next.tracks[i].seig.len() == 0 by {
        assert(m.tracks[i].senc.len() == 0);
    }
}

/// A plain packet of a known stream is never refused once the header is
/// written and while the counters have room.
pub proof fn law_plain_packet_is_taken(
    m: MuxView,
    idx: usize,
    data: Seq<u8>,
    keyframe: bool,
    times: MediaTimes,
    position: u64,
)
    requires
        mux_wf(m),
        plain(m),
        m.header_written,
        idx < m.tracks.len(),
        sample_fits(m, idx as int, keyframe, times),
    ensures
        packet_step(m, idx, data, keyframe, times, None, position).result is Ok,
        plain(packet_step(m, idx, data, keyframe, times, None, position).after),
{
    let next = with_sample(m, idx as int, data, keyframe, times, None);
    lemma_plain_sample(m, idx as int, data, keyframe, times);
    assert(m.tracks[idx as int].senc.len() == 0);
    assert(packet_refusal(m, idx, data.len(), None) is None);
    if flush_due(next, idx as int, keyframe) {
        law_plain_fragment_is_written(next, true, position);
    }
}

} // verus!
