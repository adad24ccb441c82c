//! What a fragmented muxer does, as steps from one state to the next.

use crate::boxes::{EMSG, MDAT, MFRA, MOOF, SIDX, SSIX, STYP, TRAF};
use crate::bytes::{boxed, size_field};
use crate::cenc::scheme::supply_of;
use crate::cenc::tenc::seig_refusal;
use crate::cenc::types::{IvSupply, PsshView, SeigView, SencSampleView, SubsampleEntry};
use crate::emsg::{emsg_body, emsg_wf, EmsgView};
use crate::frag::error::MuxError;
use crate::frag::fields::{
    empty_tfhd_box, ftyp_box, mfhd_box, mfro_box, prft_box, sidx_body, styp_box, tfdt_box, tfra_box,
    PrftRequest, TfraEmitEntry,
};
use crate::frag::init::{init_moov, MOVIE_TIME_SCALE};
use crate::frag::moof::{all_media, moof_of};
use crate::frag::run::{is_sync, total_duration, SampleView};
use crate::frag::track::{
    cut32, queued, sample_duration, times_fit, times_of, track_takes, track_wf, MediaTimes,
    PacketView, TrackView,
};
use crate::levels::ssix_body;
use crate::options::{FragmentCadence, FragmentedOptions, Mp4MuxerOptions};
use crate::styp::brands_body;
use vstd::prelude::*;

verus! {

/// The state of a fragmented muxer.
#[verifier::ext_equal]
pub struct MuxView {
    pub tracks: Seq<TrackView>,
    pub options: Mp4MuxerOptions,
    pub frag: FragmentedOptions,
    pub sequence: u32,
    pub header_written: bool,
    pub trailer_written: bool,
    pub styp_override: Option<([u8; 4], Seq<[u8; 4]>)>,
    pub prft: Option<PrftRequest>,
    pub pssh: Seq<PsshView>,
    pub emsg: Seq<EmsgView>,
    pub mehd_at: Option<u64>,
}

/// What a step does: the state after it, the bytes that it appends to the
/// output, and how it ends.
#[verifier::ext_equal]
pub struct Step {
    pub after: MuxView,
    pub out: Seq<u8>,
    pub result: Result<(), MuxError>,
}

/// A call did what the step says.
pub open spec fn took(
    s: Step,
    after: MuxView,
    out_before: Seq<u8>,
    out_after: Seq<u8>,
    r: Result<(), MuxError>,
) -> bool {
    after == s.after && out_after == out_before + s.out && r == s.result
}

/// There is a track, tracks are numbered from 1, and each is well formed.
pub open spec fn mux_wf(m: MuxView) -> bool {
    &&& 0 < m.tracks.len() < u32::MAX
    &&& forall|i: int| 0 <= i < m.tracks.len() ==> track_wf(#[trigger] m.tracks[i])
    &&& forall|i: int| 0 <= i < m.tracks.len() ==> (#[trigger] m.tracks[i]).track_id == i + 1
}

/// The decode times of all tracks have room for the pending samples.
pub open spec fn durations_fit(t: Seq<TrackView>) -> bool {
    forall|i: int|
        0 <= i < t.len() ==> (#[trigger] t[i]).next_bmdt + total_duration(t[i].pending) <= u64::MAX
}

/// The counters of the muxer have room for a fragment with the pending
/// samples, if there are any. `hold` says that a last keyframe may be held
/// back.
pub open spec fn flush_fits(m: MuxView, hold: bool) -> bool {
    &&& any_pending(fragment_tracks(m, hold)) ==> m.sequence < u32::MAX
    &&& durations_fit(fragment_tracks(m, hold))
}

/// Some track has pending samples.
pub open spec fn any_pending(t: Seq<TrackView>) -> bool {
    exists|i: int| 0 <= i < t.len() && (#[trigger] t[i]).pending.len() > 0
}

/// The first track with pending samples, from `i` on.
pub open spec fn anchor_from(t: Seq<TrackView>, i: int) -> int
    decreases t.len() - i,
{
    if i < 0 || i >= t.len() {
        0
    } else if t[i].pending.len() > 0 {
        i
    } else {
        anchor_from(t, i + 1)
    }
}

/// A position `n` bytes further on, kept within 64 bits.
pub open spec fn offset_after(position: u64, n: nat) -> u64 {
    if position + n > u64::MAX {
        u64::MAX
    } else {
        (position + n) as u64
    }
}

// ---------------------------------------------------------------------
// A fragment
// ---------------------------------------------------------------------

/// The pending keyframe that should open the next fragment.
pub open spec fn holds_back(m: MuxView) -> bool {
    &&& m.frag.cadence is EveryKeyframe
    &&& m.tracks[0].pending.len() > 0
    &&& is_sync(m.tracks[0].pending.last().flags)
}

/// A track without its last pending sample.
pub open spec fn without_last(t: TrackView) -> TrackView {
    TrackView {
        pending: t.pending.drop_last(),
        senc: if t.senc.len() > 0 {
            t.senc.drop_last()
        } else {
            t.senc
        },
        seig: if t.seig.len() > 0 {
            t.seig.drop_last()
        } else {
            t.seig
        },
        cumulative: (t.cumulative - t.pending.last().duration) as u64,
        ..t
    }
}

/// The encryption entry and override of the last pending sample, if it has
/// them.
pub open spec fn last_aux(t: TrackView) -> Option<(SencSampleView, Option<SeigView>)> {
    if t.senc.len() > 0 {
        Some((t.senc.last(), t.seig.last()))
    } else {
        None
    }
}

/// A track with a sample at the end of the pending ones.
pub open spec fn attached(
    t: TrackView,
    s: SampleView,
    aux: Option<(SencSampleView, Option<SeigView>)>,
) -> TrackView {
    TrackView {
        pending: t.pending.push(s),
        senc: match aux {
            Some((senc, _seig)) => t.senc.push(senc),
            None => t.senc,
        },
        seig: match aux {
            Some((_senc, seig)) => t.seig.push(seig),
            None => t.seig,
        },
        cumulative: (t.cumulative + s.duration) as u64,
        ..t
    }
}

/// The tracks whose pending samples a fragment takes: all, without a
/// keyframe that is held back.
pub open spec fn fragment_tracks(m: MuxView, hold: bool) -> Seq<TrackView> {
    if hold && holds_back(m) {
        m.tracks.update(0, without_last(m.tracks[0]))
    } else {
        m.tracks
    }
}

/// The rows of a random access table for the sync samples of a fragment
/// that starts at decode time `start` and file offset `offset`.
pub open spec fn sync_rows(s: Seq<SampleView>, start: u64, offset: u64) -> Seq<TfraEmitEntry>
    decreases s.len(),
{
    if s.len() == 0 {
        Seq::empty()
    } else {
        let before = sync_rows(s.drop_last(), start, offset);
        if is_sync(s.last().flags) {
            before.push(
                TfraEmitEntry {
                    time: (start + total_duration(s.drop_last())) as u64,
                    moof_offset: offset,
                    traf_number: 1,
                    trun_number: 1,
                    sample_number: cut32(s.len() as int),
                },
            )
        } else {
            before
        }
    }
}

/// A track whose pending samples went into a fragment at file offset
/// `offset`.
pub open spec fn advanced(t: TrackView, offset: u64) -> TrackView {
    TrackView {
        tfra: t.tfra + sync_rows(t.pending, t.next_bmdt, offset),
        next_bmdt: (t.next_bmdt + total_duration(t.pending)) as u64,
        pending: Seq::empty(),
        senc: Seq::empty(),
        seig: Seq::empty(),
        ..t
    }
}

/// All tracks after a fragment.
pub open spec fn all_advanced(t: Seq<TrackView>, offset: u64) -> Seq<TrackView> {
    Seq::new(t.len(), |i: int| advanced(t[i], offset))
}

/// The events before a fragment, or nothing where one cannot be written.
pub open spec fn emsg_boxes(e: Seq<EmsgView>) -> Option<Seq<u8>>
    decreases e.len(),
{
    if e.len() == 0 {
        Some(Seq::empty())
    } else {
        match emsg_boxes(e.drop_last()) {
            None => None,
            Some(before) => if emsg_wf(e.last()) {
                Some(before + boxed(EMSG, emsg_body(e.last())))
            } else {
                None
            },
        }
    }
}

/// The segment type box before a fragment, where there is one.
pub open spec fn styp_wire(m: MuxView) -> Seq<u8> {
    match m.styp_override {
        Some((major, compatible)) => boxed(STYP, brands_body(major, 0, compatible)),
        None => match m.frag.styp {
            Some(brand) => styp_box(brand),
            None => Seq::empty(),
        },
    }
}

/// The producer reference time before a fragment, where there is one.
pub open spec fn prft_wire(m: MuxView) -> Seq<u8> {
    match m.prft {
        Some(p) => prft_box(p),
        None => Seq::empty(),
    }
}

/// The segment index before a fragment of `size` bytes.
pub open spec fn sidx_wire(t: Seq<TrackView>, size: int) -> Seq<u8> {
    let a = t[anchor_from(t, 0)];
    boxed(
        SIDX,
        sidx_body(
            a.track_id,
            a.time_scale,
            a.next_bmdt,
            size,
            if total_duration(a.pending) > u32::MAX {
                u32::MAX
            } else {
                total_duration(a.pending) as u32
            },
            is_sync(a.pending[0].flags),
        ),
    )
}

/// Why the subsegment index of a fragment cannot be written, if it cannot.
pub open spec fn ssix_refusal(meta: int, media: int) -> Option<MuxError> {
    if meta > u32::MAX || media > u32::MAX {
        Some(MuxError::SubsegmentRange)
    } else if meta > 0xFF_FFFF || media > 0xFF_FFFF {
        Some(MuxError::SubsegmentLevelRange)
    } else {
        None
    }
}

/// What a fragment is made of, besides its indexes.
#[verifier::ext_equal]
pub struct Parts {
    pub styp: Seq<u8>,
    pub events: Seq<u8>,
    pub prft: Seq<u8>,
    pub moof: Seq<u8>,
    pub mdat: Seq<u8>,
}

/// The bytes before the media data.
pub open spec fn meta_of(p: Parts) -> Seq<u8> {
    p.styp + p.events + p.prft + p.moof
}

/// The segment index before a fragment, where there is one.
pub open spec fn index_wire(f: FragmentedOptions, t: Seq<TrackView>, p: Parts) -> Seq<u8> {
    if f.emit_random_access_indexes {
        sidx_wire(t, (meta_of(p).len() + p.mdat.len()) as int)
    } else {
        Seq::empty()
    }
}

/// A subsegment index is due.
pub open spec fn ssix_due(f: FragmentedOptions) -> bool {
    f.emit_random_access_indexes && f.emit_ssix
}

/// The subsegment index before a fragment, where there is one.
pub open spec fn ssix_wire(f: FragmentedOptions, p: Parts) -> Seq<u8> {
    if ssix_due(f) {
        boxed(
            SSIX,
            ssix_body(f.ssix_levels, meta_of(p).len() as u32, p.mdat.len() as u32),
        )
    } else {
        Seq::empty()
    }
}

/// The state after a fragment that could be written.
pub open spec fn after_fragment(
    m: MuxView,
    hold: bool,
    t: Seq<TrackView>,
    offset: u64,
) -> MuxView {
    let advanced = all_advanced(t, offset);
    MuxView {
        tracks: if hold && holds_back(m) {
            advanced.update(
                0,
                attached(advanced[0], m.tracks[0].pending.last(), last_aux(m.tracks[0])),
            )
        } else {
            advanced
        },
        sequence: (m.sequence + 1) as u32,
        styp_override: None,
        prft: None,
        pssh: Seq::empty(),
        emsg: Seq::empty(),
        ..m
    }
}

/// A fragment from its parts: the subsegment index may be refused when the
/// segment index is already out.
pub open spec fn fragment_step(
    m: MuxView,
    hold: bool,
    t: Seq<TrackView>,
    p: Parts,
    position: u64,
) -> Step {
    let index = index_wire(m.frag, t, p);
    let media = p.mdat.len() as int;
    if ssix_due(m.frag) && ssix_refusal(meta_of(p).len() as int, media) is Some {
        Step {
            after: MuxView {
                tracks: t,
                sequence: (m.sequence + 1) as u32,
                pssh: Seq::empty(),
                emsg: Seq::empty(),
                ..m
            },
            out: index,
            result: Err(ssix_refusal(meta_of(p).len() as int, media)->0),
        }
    } else {
        let before = index + ssix_wire(m.frag, p) + p.styp + p.events + p.prft;
        Step {
            after: after_fragment(m, hold, t, offset_after(position, before.len())),
            out: before + p.moof + p.mdat,
            result: Ok(()),
        }
    }
}

/// A fragment with all pending samples, at `position` in the file; `hold`
/// says that a last keyframe may be held back for the next one. Without any
/// sample nothing happens. A fragment that is refused has used up its
/// number and what was queued for it.
pub open spec fn flushed(m: MuxView, hold: bool, position: u64) -> Step {
    let t = fragment_tracks(m, hold);
    let sequence = (m.sequence + 1) as u32;
    if !any_pending(t) {
        Step { after: m, out: Seq::empty(), result: Ok(()) }
    } else {
        match moof_of(sequence, t, m.pssh) {
            Err(e) => Step {
                after: MuxView { tracks: t, sequence, pssh: Seq::empty(), ..m },
                out: Seq::empty(),
                result: Err(e),
            },
            Ok(moof) => match emsg_boxes(m.emsg) {
                None => Step {
                    after: MuxView {
                        tracks: t,
                        sequence,
                        pssh: Seq::empty(),
                        emsg: Seq::empty(),
                        ..m
                    },
                    out: Seq::empty(),
                    result: Err(MuxError::EventString),
                },
                Some(events) => fragment_step(
                    m,
                    hold,
                    t,
                    Parts {
                        styp: styp_wire(m),
                        events,
                        prft: prft_wire(m),
                        moof,
                        mdat: boxed(MDAT, all_media(t)),
                    },
                    position,
                ),
            },
        }
    }
}

// ---------------------------------------------------------------------
// A packet
// ---------------------------------------------------------------------

/// The cadence asks for a fragment, after a sample of track `idx`.
pub open spec fn flush_due(m: MuxView, idx: int, keyframe: bool) -> bool {
    let first = m.tracks[0].pending;
    match m.frag.cadence {
        FragmentCadence::EverySeconds(ticks) => first.len() > 0 && (ticks matches Some(n)
            && total_duration(first) >= n),
        FragmentCadence::EveryKeyframe => idx == 0 && keyframe && first.len() >= 2,
        FragmentCadence::EveryNPackets(n) => n != 0 && idx == 0 && cut32(first.len() as int) >= n,
    }
}

/// How many bytes subsamples cover.
pub open spec fn covered(s: Seq<SubsampleEntry>) -> nat
    decreases s.len(),
{
    if s.len() == 0 {
        0
    } else {
        covered(s.drop_last()) + s.last().bytes_of_clear_data as nat
            + s.last().bytes_of_protected_data as nat
    }
}

/// Why the initialization vector of a sample is refused, if it is.
pub open spec fn iv_refusal(supply: IvSupply, idx: usize, iv_len: nat) -> Option<MuxError> {
    match supply {
        IvSupply::PerSample { size } => if iv_len != size {
            Some(
                MuxError::IvLength { stream_index: idx, iv_len: iv_len as usize, iv_size: size },
            )
        } else {
            None
        },
        IvSupply::Constant => if iv_len > 0 {
            Some(MuxError::IvOnConstant { stream_index: idx })
        } else {
            None
        },
        IvSupply::Unprotected => Some(MuxError::ClearByDefault { stream_index: idx }),
    }
}

/// Why a protected sample of `len` bytes is refused, if it is.
pub open spec fn protected_refusal(t: TrackView, idx: usize, len: nat, s: SencSampleView) -> Option<
    MuxError,
> {
    match t.protection {
        None => Some(MuxError::NotProtected { stream_index: idx }),
        Some(d) => if t.senc.len() != t.pending.len() {
            Some(MuxError::ProtectedAfterPlain { stream_index: idx })
        } else {
            let supply = supply_of(d.tenc.is_protected, d.tenc.per_sample_iv_size);
            if iv_refusal(supply, idx, s.iv.len()) is Some {
                iv_refusal(supply, idx, s.iv.len())
            } else if s.subsamples.len() > 0 && covered(s.subsamples) != len {
                Some(
                    MuxError::SubsampleCover {
                        stream_index: idx,
                        total: (covered(s.subsamples) % 0x1_0000_0000_0000_0000) as u64,
                        sample_len: len as usize,
                    },
                )
            } else {
                None
            }
        },
    }
}

/// Why a packet of `len` bytes for stream `idx` is refused, if it is.
pub open spec fn packet_refusal(m: MuxView, idx: usize, len: nat, senc: Option<SencSampleView>) -> Option<
    MuxError,
> {
    if !m.header_written {
        Some(MuxError::NoHeader)
    } else if idx >= m.tracks.len() {
        Some(MuxError::UnknownStream { stream_index: idx })
    } else {
        match senc {
            Some(s) => protected_refusal(m.tracks[idx as int], idx, len, s),
            None => if m.tracks[idx as int].senc.len() > 0 {
                Some(MuxError::PlainAfterProtected { stream_index: idx })
            } else {
                None
            },
        }
    }
}

/// The times of a packet on the media clock of its track.
pub open spec fn packet_times(m: MuxView, p: PacketView) -> MediaTimes {
    times_of(p, m.tracks[p.stream_index as int].time_scale)
}

/// The counters of the muxer have room for one more sample on track `idx`,
/// and for the fragment that it brings on, if it does. Neither its data nor
/// its encryption matters for that.
pub open spec fn sample_fits(m: MuxView, idx: int, keyframe: bool, times: MediaTimes) -> bool {
    let next = with_sample(m, idx, Seq::empty(), keyframe, times, None);
    &&& track_takes(m.tracks[idx], sample_duration(m.tracks[idx].prev_pts, times))
    &&& flush_due(next, idx, keyframe) ==> flush_fits(next, true)
}

/// The times of a packet differ by no more than 64 bits can hold, and the
/// counters of the muxer have room for it, if it is for a track of a file
/// that was begun.
pub open spec fn packet_fits(m: MuxView, p: PacketView) -> bool {
    m.header_written && p.stream_index < m.tracks.len() ==> {
        &&& times_fit(m.tracks[p.stream_index as int].prev_pts, packet_times(m, p))
        &&& sample_fits(m, p.stream_index as int, p.keyframe, packet_times(m, p))
    }
}

/// The counters of the muxer have room for the last fragment of a file, if
/// it is not over.
pub open spec fn trailer_fits(m: MuxView) -> bool {
    m.header_written && !m.trailer_written ==> flush_fits(m, false)
}

/// The counters of the muxer have room for the pending samples and for
/// empty time behind them, if it is not refused.
pub open spec fn gap_fits(m: MuxView, idx: usize, duration: u32) -> bool {
    empty_time_refusal(m, idx) is None && duration > 0 ==> {
        let t = m.tracks[idx as int];
        &&& m.sequence + if any_pending(m.tracks) {
            2int
        } else {
            1
        } <= u32::MAX
        &&& durations_fit(m.tracks)
        &&& t.next_bmdt + total_duration(t.pending) + duration <= u64::MAX
    }
}

/// The state with one more pending sample.
pub open spec fn with_sample(
    m: MuxView,
    idx: int,
    data: Seq<u8>,
    keyframe: bool,
    times: MediaTimes,
    aux: Option<(SencSampleView, Option<SeigView>)>,
) -> MuxView {
    MuxView {
        tracks: m.tracks.update(idx, queued(m.tracks[idx], data, keyframe, times, aux)),
        ..m
    }
}

/// A packet: its sample waits for the next fragment, which is written where
/// the cadence asks for it.
pub open spec fn packet_step(
    m: MuxView,
    idx: usize,
    data: Seq<u8>,
    keyframe: bool,
    times: MediaTimes,
    aux: Option<(SencSampleView, Option<SeigView>)>,
    position: u64,
) -> Step {
    let senc = match aux {
        Some((s, _seig)) => Some(s),
        None => None,
    };
    match packet_refusal(m, idx, data.len(), senc) {
        Some(e) => Step { after: m, out: Seq::empty(), result: Err(e) },
        None => {
            let next = with_sample(m, idx as int, data, keyframe, times, aux);
            if flush_due(next, idx as int, keyframe) {
                flushed(next, true, position)
            } else {
                Step { after: next, out: Seq::empty(), result: Ok(()) }
            }
        },
    }
}

/// Why an override is refused, if it is.
pub open spec fn override_refusal(m: MuxView, idx: usize, seig: Option<SeigView>) -> Option<
    MuxError,
> {
    match seig {
        None => None,
        Some(e) => match seig_refusal(e) {
            Some(why) => Some(MuxError::Cenc(why)),
            None => if idx < m.tracks.len() && (m.tracks[idx as int].protection matches Some(d)
                && e.is_protected == 1 && e.per_sample_iv_size != d.tenc.per_sample_iv_size) {
                Some(
                    MuxError::OverrideIvSize {
                        stream_index: idx,
                        default_size: m.tracks[idx as int].protection->0.tenc.per_sample_iv_size,
                        override_size: e.per_sample_iv_size,
                    },
                )
            } else {
                None
            },
        },
    }
}

/// A protected packet.
pub open spec fn protected_step(
    m: MuxView,
    idx: usize,
    data: Seq<u8>,
    keyframe: bool,
    times: MediaTimes,
    senc: SencSampleView,
    seig: Option<SeigView>,
    position: u64,
) -> Step {
    match override_refusal(m, idx, seig) {
        Some(e) => Step { after: m, out: Seq::empty(), result: Err(e) },
        None => packet_step(m, idx, data, keyframe, times, Some((senc, seig)), position),
    }
}

// ---------------------------------------------------------------------
// Header, empty time, trailer
// ---------------------------------------------------------------------

/// The header: brands and movie box. Where the movie box is refused the
/// brands are already out.
pub open spec fn header_step(m: MuxView) -> Step {
    let ftyp = ftyp_box(m.options.brand);
    if m.header_written {
        Step { after: m, out: Seq::empty(), result: Err(MuxError::HeaderTwice) }
    } else {
        match init_moov(m.tracks, m.options.track_edit_lists@, m.frag, moov_pssh(m.options)) {
            Err(e) => Step { after: m, out: ftyp, result: Err(e) },
            Ok((moov, at)) => Step {
                after: MuxView {
                    header_written: true,
                    mehd_at: match at {
                        Some(x) => Some(offset_after(0, (ftyp.len() + 28 + x) as nat)),
                        None => None,
                    },
                    ..m
                },
                out: ftyp + moov,
                result: Ok(()),
            },
        }
    }
}

/// The protection system headers of the movie.
pub open spec fn moov_pssh(o: Mp4MuxerOptions) -> Seq<PsshView> {
    crate::frag::moof::pssh_views(o.pssh@)
}

/// The movie fragment of empty time.
pub open spec fn gap_box(sequence: u32, t: TrackView, duration: u32) -> Seq<u8> {
    boxed(
        MOOF,
        mfhd_box(sequence) + boxed(
            TRAF,
            empty_tfhd_box(t.track_id, duration) + tfdt_box(t.next_bmdt),
        ),
    )
}

/// Empty time on a track, as a movie fragment of its own.
pub open spec fn gap_step(m: MuxView, idx: int, duration: u32) -> Step {
    let sequence = (m.sequence + 1) as u32;
    let t = m.tracks[idx];
    Step {
        after: MuxView {
            tracks: m.tracks.update(
                idx,
                TrackView { next_bmdt: (t.next_bmdt + duration) as u64, ..t },
            ),
            sequence,
            ..m
        },
        out: gap_box(sequence, t, duration),
        result: Ok(()),
    }
}

/// Why empty time is refused, if it is.
pub open spec fn empty_time_refusal(m: MuxView, idx: usize) -> Option<MuxError> {
    if !m.header_written {
        Some(MuxError::EmptyTimeBeforeHeader)
    } else if m.trailer_written {
        Some(MuxError::EmptyTimeAfterTrailer)
    } else if idx >= m.tracks.len() {
        Some(
            MuxError::EmptyTimeStream { stream_index: idx, streams: m.tracks.len() as usize },
        )
    } else if m.options.track_edit_lists@.len() > 0 {
        Some(MuxError::EmptyTimeWithEdits)
    } else {
        None
    }
}

/// Empty time: the pending samples come first, then a gap that is not zero.
pub open spec fn empty_time_step(m: MuxView, idx: usize, duration: u32, position: u64) -> Step {
    match empty_time_refusal(m, idx) {
        Some(e) => Step { after: m, out: Seq::empty(), result: Err(e) },
        None => if duration == 0 {
            Step { after: m, out: Seq::empty(), result: Ok(()) }
        } else {
            let first = flushed(m, false, position);
            match first.result {
                Err(_) => first,
                Ok(_) => {
                    let gap = gap_step(first.after, idx as int, duration);
                    Step { out: first.out + gap.out, ..gap }
                },
            }
        },
    }
}

/// Some track has a row in its random access table.
pub open spec fn any_rows(t: Seq<TrackView>) -> bool {
    exists|i: int| 0 <= i < t.len() && (#[trigger] t[i]).tfra.len() > 0
}

/// The random access tables of the tracks that have one.
pub open spec fn tfra_boxes(t: Seq<TrackView>) -> Seq<u8>
    decreases t.len(),
{
    if t.len() == 0 {
        Seq::empty()
    } else {
        tfra_boxes(t.drop_last()) + if t.last().tfra.len() > 0 {
            tfra_box(t.last().track_id, t.last().tfra)
        } else {
            Seq::empty()
        }
    }
}

/// The random access box that ends a file.
pub open spec fn mfra_box(t: Seq<TrackView>) -> Seq<u8> {
    boxed(MFRA, tfra_boxes(t) + mfro_box(size_field(tfra_boxes(t).len() + 24)))
}

/// How long a track is, on the movie's clock, rounded up; 0 without a clock.
pub open spec fn track_length(t: TrackView) -> u64 {
    if t.time_scale == 0 {
        0
    } else {
        let n = (t.next_bmdt * MOVIE_TIME_SCALE + t.time_scale - 1) / (t.time_scale as int);
        if n > u64::MAX {
            u64::MAX
        } else {
            n as u64
        }
    }
}

/// How long the longest track is.
pub open spec fn movie_length(t: Seq<TrackView>) -> u64
    decreases t.len(),
{
    if t.len() == 0 {
        0
    } else {
        let before = movie_length(t.drop_last());
        if track_length(t.last()) > before {
            track_length(t.last())
        } else {
            before
        }
    }
}

/// What a trailer does besides a last fragment: a box for the end of the
/// file, and eight bytes to be written at an earlier position.
#[verifier::ext_equal]
pub struct TrailerView {
    pub mfra: Option<Seq<u8>>,
    pub mehd: Option<(u64, u64)>,
}

/// The trailer of a muxer without pending samples.
pub open spec fn trailer_of(m: MuxView) -> TrailerView {
    TrailerView {
        mfra: if m.frag.emit_random_access_indexes && any_rows(m.tracks) {
            Some(mfra_box(m.tracks))
        } else {
            None
        },
        mehd: match m.mehd_at {
            Some(at) => Some((at, movie_length(m.tracks))),
            None => None,
        },
    }
}

/// The trailer: the last fragment keeps its keyframe. A second trailer does
/// nothing.
pub open spec fn trailer_step(m: MuxView, position: u64) -> (Step, TrailerView) {
    let nothing = TrailerView { mfra: None, mehd: None };
    if m.trailer_written {
        (Step { after: m, out: Seq::empty(), result: Ok(()) }, nothing)
    } else if !m.header_written {
        (
            Step { after: m, out: Seq::empty(), result: Err(MuxError::TrailerBeforeHeader) },
            nothing,
        )
    } else {
        let last = flushed(m, false, position);
        match last.result {
            Err(_) => (last, nothing),
            Ok(_) => (
                Step { after: MuxView { trailer_written: true, ..last.after }, ..last },
                trailer_of(last.after),
            ),
        }
    }
}

} // verus!
