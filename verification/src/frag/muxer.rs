//! The fragmented muxer. It keeps no output of its own: each call appends
//! to a buffer what belongs at the current end of the file.

use crate::boxes::{MFRA, MOOF, TRAF};
use crate::bytes::{low32, put_bytes, size_field, wrap_box};
use crate::cenc::scheme::CencSchemeDecision;
use crate::cenc::tenc::build_seig_entry;
use crate::cenc::types::{
    IvSupply, PsshBox, PsshView, SeigEntry, SeigView, SencSample, SencSampleView, SubsampleEntry,
};
use crate::emsg::{build_emsg_box, emsg_views, EmsgBox, EmsgView};
use crate::frag::error::MuxError;
use crate::frag::fields::{
    build_empty_tfhd, build_ftyp, build_mfhd, build_mfro, build_prft, build_sidx, build_styp,
    build_tfdt, build_tfra, PrftRequest,
};
use crate::frag::init::build_init_moov;
use crate::frag::model::{
    advanced, all_advanced, anchor_from, any_pending, any_rows, attached, covered, durations_fit,
    empty_time_refusal, empty_time_step, emsg_boxes, flush_due, flush_fits, flushed, fragment_step,
    fragment_tracks, gap_fits, gap_step, header_step, holds_back, index_wire, last_aux, meta_of,
    mfra_box, movie_length, mux_wf, offset_after, override_refusal, packet_fits, packet_step,
    packet_times, prft_wire, protected_refusal, protected_step, sample_fits, ssix_due, ssix_refusal,
    ssix_wire, styp_wire, tfra_boxes, took, track_length, trailer_fits, trailer_of, trailer_step,
    with_sample, without_last, MuxView, Parts, TrailerView,
};
use crate::frag::moof::{build_mdat, build_moof, pssh_views, track_views};
use crate::frag::protect::opt_seig;
use crate::frag::queue::{total_ticks, Held};
use crate::frag::run::{marks_sync, total_duration};
use crate::frag::track::{
    find_duration, opt_aux, queued, sample_duration, test_times_fit, times_fit, track_takes,
    track_wf, FragTrackState, MediaTimes, Packet, TrackView,
};
use crate::levels::build_ssix_box;
use crate::options::{copy_brands, BrandPreset, FragmentCadence, FragmentedOptions, Mp4MuxerOptions};
use crate::styp::write_styp;
use vstd::prelude::*;

verus! {

/// A fragmented muxer.
pub struct FragmentedMuxer {
    tracks: Vec<FragTrackState>,
    options: Mp4MuxerOptions,
    frag_options: FragmentedOptions,
    sequence_number: u32,
    header_written: bool,
    trailer_written: bool,
    styp_override: Option<([u8; 4], Vec<[u8; 4]>)>,
    pending_prft: Option<PrftRequest>,
    pending_moof_pssh: Vec<PsshBox>,
    pending_emsg: Vec<EmsgBox>,
    mehd_patch_pos: Option<u64>,
}

/// The value of a segment type override, if there is one.
pub open spec fn opt_override(o: Option<([u8; 4], Vec<[u8; 4]>)>) -> Option<
    ([u8; 4], Seq<[u8; 4]>),
> {
    match o {
        Some((major, compatible)) => Some((major, compatible@)),
        None => None,
    }
}

impl View for FragmentedMuxer {
    type V = MuxView;

    closed spec fn view(&self) -> MuxView {
        MuxView {
            tracks: track_views(self.tracks@),
            options: self.options,
            frag: self.frag_options,
            sequence: self.sequence_number,
            header_written: self.header_written,
            trailer_written: self.trailer_written,
            styp_override: opt_override(self.styp_override),
            prft: self.pending_prft,
            pssh: pssh_views(self.pending_moof_pssh@),
            emsg: emsg_views(self.pending_emsg@),
            mehd_at: self.mehd_patch_pos,
        }
    }
}

impl FragmentedMuxer {
    /// A muxer before its header.
    pub(crate) fn with_tracks(
        tracks: Vec<FragTrackState>,
        options: Mp4MuxerOptions,
        frag_options: FragmentedOptions,
    ) -> (r: FragmentedMuxer)
        ensures
            r@ == (MuxView {
                tracks: track_views(tracks@),
                options,
                frag: frag_options,
                sequence: 0,
                header_written: false,
                trailer_written: false,
                styp_override: None,
                prft: None,
                pssh: Seq::empty(),
                emsg: Seq::empty(),
                mehd_at: None,
            }),
    {
        let r: FragmentedMuxer = FragmentedMuxer {
            tracks,
            options,
            frag_options,
            sequence_number: 0,
            header_written: false,
            trailer_written: false,
            styp_override: None,
            pending_prft: None,
            pending_moof_pssh: Vec::new(),
            pending_emsg: Vec::new(),
            mehd_patch_pos: None,
        };
        assert(r@.pssh =~= Seq::empty());
        assert(r@.emsg =~= Seq::empty());
        r
    }
}

// ---------------------------------------------------------------------
// Questions about the tracks
// ---------------------------------------------------------------------

/// Whether some track has pending samples.
fn has_pending(tracks: &Vec<FragTrackState>) -> (r: bool)
    ensures
        r == any_pending(track_views(tracks@)),
{
    let ghost v = track_views(tracks@);
    let mut i: usize = 0;
    while i < tracks.len()
        invariant
            i <= tracks.len(),
            v == track_views(tracks@),
            forall|k: int| 0 <= k < i ==> (#[trigger] v[k]).pending.len() == 0,
        decreases tracks.len() - i,
    {
        if tracks[i].pending.len() > 0 {
            assert(v[i as int].pending.len() > 0);
            return true;
        }
        i = i + 1;
    }
    false
}

/// The first track with pending samples.
fn find_anchor(tracks: &Vec<FragTrackState>) -> (r: usize)
    requires
        any_pending(track_views(tracks@)),
    ensures
        r < tracks@.len(),
        r == anchor_from(track_views(tracks@), 0),
        track_views(tracks@)[r as int].pending.len() > 0,
{
    let ghost v = track_views(tracks@);
    let mut i: usize = 0;
    while i < tracks.len()
        invariant
            i <= tracks.len(),
            v == track_views(tracks@),
            any_pending(v),
            anchor_from(v, 0) == anchor_from(v, i as int),
            forall|k: int| 0 <= k < i ==> (#[trigger] v[k]).pending.len() == 0,
        decreases tracks.len() - i,
    {
        if tracks[i].pending.len() > 0 {
            return i;
        }
        i = i + 1;
    }
    assert(false);
    0
}

/// How many bytes subsamples cover.
fn count_covered(subs: &Vec<SubsampleEntry>) -> (r: u128)
    ensures
        r == covered(subs@),
        r <= subs@.len() * 0x1_0000_FFFE,
{
    let mut total: u128 = 0;
    let mut i: usize = 0;
    assert(subs@.take(0) =~= Seq::<SubsampleEntry>::empty());
    while i < subs.len()
        invariant
            i <= subs.len(),
            total == covered(subs@.take(i as int)),
            total <= i * 0x1_0000_FFFE,
        decreases subs.len() - i,
    {
        assert(subs@.take(i + 1).drop_last() =~= subs@.take(i as int));
        assert(subs@.take(i + 1).last() == subs@[i as int]);
        total = total + subs[i].bytes_of_clear_data as u128 + subs[i].bytes_of_protected_data as u128;
        i = i + 1;
    }
    assert(subs@.take(subs.len() as int) =~= subs@);
    total
}

/// The events before a fragment, if all can be written.
#[verifier::loop_isolation(false)]
fn build_events(events: &Vec<EmsgBox>) -> (r: Option<Vec<u8>>)
    ensures
        match r {
            Some(b) => emsg_boxes(emsg_views(events@)) == Some(b@),
            None => emsg_boxes(emsg_views(events@)) is None,
        },
{
    let ghost v = emsg_views(events@);
    let mut out: Vec<u8> = Vec::new();
    let mut i: usize = 0;
    assert(v.take(0) =~= Seq::<EmsgView>::empty());
    while i < events.len()
        invariant
            i <= events.len(),
            emsg_boxes(v.take(i as int)) == Some(out@),
        decreases events.len() - i,
    {
        assert(v.take(i + 1).drop_last() =~= v.take(i as int));
        assert(v.take(i + 1).last() == v[i as int]);
        match build_emsg_box(&events[i]) {
            Some(b) => put_bytes(&mut out, b.as_slice()),
            None => {
                proof {
                    lemma_no_events(v, i + 1);
                }
                return None;
            },
        }
        i = i + 1;
    }
    assert(v.take(events.len() as int) =~= v);
    Some(out)
}

/// One event that cannot be written is enough.
proof fn lemma_no_events(e: Seq<EmsgView>, n: int)
    requires
        0 <= n <= e.len(),
        emsg_boxes(e.take(n)) is None,
    ensures
        emsg_boxes(e) is None,
    decreases e.len(),
{
    if n < e.len() {
        assert(e.drop_last().take(n) =~= e.take(n));
        lemma_no_events(e.drop_last(), n);
    } else {
        assert(e.take(n) =~= e);
    }
}

// ---------------------------------------------------------------------
// A fragment
// ---------------------------------------------------------------------

/// What a fragment is made of, besides its indexes.
struct PartBytes {
    styp: Vec<u8>,
    events: Vec<u8>,
    prft: Vec<u8>,
    moof: Vec<u8>,
    mdat: Vec<u8>,
}

impl View for PartBytes {
    type V = Parts;

    closed spec fn view(&self) -> Parts {
        Parts {
            styp: self.styp@,
            events: self.events@,
            prft: self.prft@,
            moof: self.moof@,
            mdat: self.mdat@,
        }
    }
}

impl PartBytes {
    /// How many bytes precede the media data.
    fn meta_len(&self) -> (r: u128)
        ensures
            r == meta_of(self@).len(),
            r <= 4 * u64::MAX,
    {
        self.styp.len() as u128 + self.events.len() as u128 + self.prft.len() as u128
            + self.moof.len() as u128
    }
}

impl FragmentedMuxer {
    /// Take out a last keyframe that should open the next fragment.
    fn hold_back(&mut self, hold: bool) -> (r: Option<Held>)
        requires
            mux_wf(old(self)@),
        ensures
            final(self)@ == (MuxView { tracks: fragment_tracks(old(self)@, hold), ..old(self)@ }),
            mux_wf(final(self)@),
            match r {
                Some(h) => hold && holds_back(old(self)@) && h.sample@
                    == old(self)@.tracks[0].pending.last() && opt_aux(h.aux) == last_aux(
                    old(self)@.tracks[0],
                ),
                None => !(hold && holds_back(old(self)@)),
            },
    {
        let ghost m = self@;
        assert(m.tracks[0] == self.tracks@[0]@);
        let by_keyframe: bool = match self.frag_options.cadence {
            FragmentCadence::EveryKeyframe => true,
            _ => false,
        };
        let n: usize = self.tracks[0].pending.len();
        if hold && by_keyframe && n > 0 {
            assert(m.tracks[0].pending.last() == self.tracks@[0].pending@[n - 1]@);
            if marks_sync(self.tracks[0].pending[n - 1].flags) {
                assert(track_wf(m.tracks[0]));
                let held: Held = self.tracks[0].detach_last();
                proof {
                    let t = track_views(self.tracks@);
                    assert(t =~= m.tracks.update(0, without_last(m.tracks[0])));
                }
                return Some(held);
            }
        }
        None
    }

    /// Append the indexes of a fragment.
    fn write_indexes(&self, out: &mut Vec<u8>, p: &PartBytes) -> (r: Result<(), MuxError>)
        requires
            any_pending(self@.tracks),
            durations_fit(self@.tracks),
        ensures
            match r {
                Ok(_) => (ssix_due(self@.frag) ==> ssix_refusal(
                    meta_of(p@).len() as int,
                    p@.mdat.len() as int,
                ) is None) && final(out)@ == old(out)@ + index_wire(
                    self@.frag,
                    self@.tracks,
                    p@,
                ) + ssix_wire(self@.frag, p@),
                Err(e) => ssix_due(self@.frag) && ssix_refusal(
                    meta_of(p@).len() as int,
                    p@.mdat.len() as int,
                ) == Some(e) && final(out)@ == old(out)@ + index_wire(
                    self@.frag,
                    self@.tracks,
                    p@,
                ),
            },
    {
        if !self.frag_options.emit_random_access_indexes {
            assert(out@ =~= old(out)@ + index_wire(self@.frag, self@.tracks, p@) + ssix_wire(
                self@.frag,
                p@,
            ));
            return Ok(());
        }
        let meta: u128 = p.meta_len();
        let media: u128 = p.mdat.len() as u128;
        let total: u128 = meta + media;
        let size: u64 = if total > 0xFFFF_FFFF_FFFF_FFFF {
            0xFFFF_FFFF_FFFF_FFFF
        } else {
            total as u64
        };
        let anchor: usize = find_anchor(&self.tracks);
        let t: &FragTrackState = &self.tracks[anchor];
        assert(self@.tracks[anchor as int] == t@);
        let ticks: u64 = total_ticks(&t.pending);
        let duration: u32 = if ticks > 0xFFFF_FFFF {
            0xFFFF_FFFF
        } else {
            ticks as u32
        };
        assert(t@.pending[0] == t.pending@[0]@);
        let sidx: Vec<u8> = build_sidx(
            t.track_id,
            t.setup.media_time_scale,
            t.next_bmdt,
            size,
            duration,
            marks_sync(t.pending[0].flags),
        );
        assert(sidx@ == index_wire(self@.frag, self@.tracks, p@));
        put_bytes(out, sidx.as_slice());
        let ghost indexed = out@;
        if self.frag_options.emit_ssix {
            if meta > 0xFFFF_FFFF || media > 0xFFFF_FFFF {
                return Err(MuxError::SubsegmentRange);
            }
            match build_ssix_box(self.frag_options.ssix_levels, meta as u32, media as u32) {
                Some(b) => put_bytes(out, b.as_slice()),
                None => {
                    return Err(MuxError::SubsegmentLevelRange);
                },
            }
        }
        assert(out@ =~= indexed + ssix_wire(self@.frag, p@));
        Ok(())
    }

    /// The segment type box before a fragment.
    fn build_segment_type(&self) -> (r: Vec<u8>)
        ensures
            r@ == styp_wire(self@),
    {
        let mut styp: Vec<u8> = Vec::new();
        match &self.styp_override {
            Some((major, compatible)) => write_styp(&mut styp, *major, compatible.as_slice()),
            None => match &self.frag_options.styp {
                Some(brand) => {
                    styp = build_styp(brand);
                },
                None => {},
            },
        }
        assert(styp@ =~= styp_wire(self@));
        styp
    }

    /// The producer reference time before a fragment.
    fn build_reference_time(&self) -> (r: Vec<u8>)
        ensures
            r@ == prft_wire(self@),
    {
        match &self.pending_prft {
            Some(p) => build_prft(p),
            None => {
                let nothing: Vec<u8> = Vec::new();
                assert(nothing@ =~= prft_wire(self@));
                nothing
            },
        }
    }

    /// Let all tracks go on behind a fragment at file offset `offset`.
    fn advance_all(&mut self, offset: u64)
        requires
            mux_wf(old(self)@),
            durations_fit(old(self)@.tracks),
        ensures
            final(self)@ == (MuxView {
                tracks: all_advanced(old(self)@.tracks, offset),
                ..old(self)@
            }),
            mux_wf(final(self)@),
    {
        let ghost m = self@;
        let mut i: usize = 0;
        while i < self.tracks.len()
            invariant
                i <= self.tracks.len(),
                mux_wf(m),
                durations_fit(m.tracks),
                self@ == (MuxView { tracks: self@.tracks, ..m }),
                self@.tracks.len() == m.tracks.len(),
                forall|k: int|
                    0 <= k < i ==> #[trigger] self@.tracks[k] == advanced(m.tracks[k], offset),
                forall|k: int|
                    0 <= k < i ==> track_wf(#[trigger] self@.tracks[k]),
                forall|k: int| i <= k < m.tracks.len() ==> #[trigger] self@.tracks[k] == m.tracks[k],
            decreases self.tracks.len() - i,
        {
            let ghost before = self@.tracks;
            assert(before[i as int] == self.tracks@[i as int]@);
            assert(before[i as int] == m.tracks[i as int]);
            assert(track_wf(m.tracks[i as int]));
            self.tracks[i].advance(offset);
            assert(self@.tracks =~= before.update(i as int, advanced(m.tracks[i as int], offset)));
            i = i + 1;
        }
        assert(self@.tracks =~= all_advanced(m.tracks, offset));
    }

    /// Put a sample that was held back at the end of the first track.
    fn put_back(&mut self, held: Held)
        requires
            mux_wf(old(self)@),
            old(self)@.tracks[0].pending.len() == 0,
            old(self)@.tracks[0].cumulative + held.sample.duration <= u64::MAX,
        ensures
            final(self)@ == (MuxView {
                tracks: old(self)@.tracks.update(
                    0,
                    attached(old(self)@.tracks[0], held.sample@, opt_aux(held.aux)),
                ),
                ..old(self)@
            }),
            mux_wf(final(self)@),
    {
        let ghost m = self@;
        let ghost s = held.sample@;
        let ghost aux = opt_aux(held.aux);
        assert(m.tracks[0] == self.tracks@[0]@);
        assert(track_wf(m.tracks[0]));
        self.tracks[0].reattach(held);
        assert(self@.tracks =~= m.tracks.update(0, attached(m.tracks[0], s, aux)));
    }

    /// Write a fragment from its parts.
    fn emit_fragment(
        &mut self,
        position: u64,
        out: &mut Vec<u8>,
        p: PartBytes,
        held: Option<Held>,
        hold: bool,
        m: Ghost<MuxView>,
    ) -> (r: Result<(), MuxError>)
        requires
            mux_wf(m@),
            mux_wf(old(self)@),
            durations_fit(old(self)@.tracks),
            any_pending(old(self)@.tracks),
            old(self)@.tracks == fragment_tracks(m@, hold),
            old(self)@ == (MuxView {
                tracks: old(self)@.tracks,
                sequence: (m@.sequence + 1) as u32,
                pssh: Seq::empty(),
                emsg: Seq::empty(),
                ..m@
            }),
            match held {
                Some(h) => hold && holds_back(m@) && h.sample@ == m@.tracks[0].pending.last()
                    && opt_aux(h.aux) == last_aux(m@.tracks[0]),
                None => !(hold && holds_back(m@)),
            },
        ensures
            took(
                fragment_step(m@, hold, old(self)@.tracks, p@, position),
                final(self)@,
                old(out)@,
                final(out)@,
                r,
            ),
            mux_wf(final(self)@),
    {
        let ghost t = self@.tracks;
        let ghost start = out@;
        let ghost step = fragment_step(m@, hold, t, p@, position);
        let start_len: usize = out.len();
        match self.write_indexes(out, &p) {
            Err(e) => {
                assert(self@ =~= step.after);
                return Err(e);
            },
            Ok(_) => {},
        }
        put_bytes(out, p.styp.as_slice());
        put_bytes(out, p.events.as_slice());
        put_bytes(out, p.prft.as_slice());
        let ghost before = index_wire(m@.frag, t, p@) + ssix_wire(m@.frag, p@) + p@.styp + p@.events
            + p@.prft;
        assert(out@ =~= start + before);
        let lead: usize = out.len() - start_len;
        let offset: u64 = position.saturating_add(lead as u64);
        assert(offset == offset_after(position, before.len()));
        put_bytes(out, p.moof.as_slice());
        put_bytes(out, p.mdat.as_slice());
        assert(out@ =~= start + (before + p@.moof + p@.mdat));
        self.styp_override = None;
        self.pending_prft = None;
        self.advance_all(offset);
        match held {
            Some(h) => {
                proof {
                    assert(self@.tracks[0] == advanced(t[0], offset));
                    assert(t[0] == without_last(m@.tracks[0]));
                    assert(track_wf(m@.tracks[0]));
                }
                self.put_back(h);
            },
            None => {},
        }
        assert(self@ =~= step.after);
        Ok(())
    }

    /// Write a fragment with all pending samples. `hold` says that a last
    /// keyframe may be held back for the next one.
    fn flush_fragment_inner(&mut self, hold: bool, position: u64, out: &mut Vec<u8>) -> (r: Result<
        (),
        MuxError,
    >)
        requires
            mux_wf(old(self)@),
            flush_fits(old(self)@, hold),
        ensures
            took(
                flushed(old(self)@, hold, position),
                final(self)@,
                old(out)@,
                final(out)@,
                r,
            ),
            mux_wf(final(self)@),
    {
        let ghost m = self@;
        let ghost t = fragment_tracks(m, hold);
        let held: Option<Held> = self.hold_back(hold);
        if !has_pending(&self.tracks) {
            match held {
                Some(h) => {
                    proof {
                        assert(track_wf(m.tracks[0]));
                        assert(t[0].pending.len() == 0);
                        lemma_detach_reattach(m.tracks[0]);
                    }
                    self.put_back(h);
                    assert(self@.tracks =~= m.tracks);
                },
                None => {},
            }
            assert(self@ =~= m);
            assert(out@ =~= old(out)@ + Seq::<u8>::empty());
            return Ok(());
        }
        self.sequence_number = self.sequence_number + 1;
        let mut pssh: Vec<PsshBox> = Vec::new();
        std::mem::swap(&mut pssh, &mut self.pending_moof_pssh);
        assert(pssh_views(self.pending_moof_pssh@) =~= Seq::<PsshView>::empty());
        let moof: Vec<u8> = match build_moof(self.sequence_number, &self.tracks, &pssh) {
            Ok(b) => b,
            Err(e) => {
                assert(self@ =~= flushed(m, hold, position).after);
                assert(out@ =~= old(out)@ + Seq::<u8>::empty());
                return Err(e);
            },
        };
        let mut emsg: Vec<EmsgBox> = Vec::new();
        std::mem::swap(&mut emsg, &mut self.pending_emsg);
        assert(emsg_views(self.pending_emsg@) =~= Seq::<EmsgView>::empty());
        let events: Vec<u8> = match build_events(&emsg) {
            Some(b) => b,
            None => {
                assert(self@ =~= flushed(m, hold, position).after);
                assert(out@ =~= old(out)@ + Seq::<u8>::empty());
                return Err(MuxError::EventString);
            },
        };
        let p: PartBytes = PartBytes {
            styp: self.build_segment_type(),
            events,
            prft: self.build_reference_time(),
            moof,
            mdat: build_mdat(&self.tracks),
        };
        self.emit_fragment(position, out, p, held, hold, Ghost(m))
    }

    /// Write a fragment as the cadence asks for it.
    fn flush_fragment(&mut self, position: u64, out: &mut Vec<u8>) -> (r: Result<(), MuxError>)
        requires
            mux_wf(old(self)@),
            flush_fits(old(self)@, true),
        ensures
            took(
                flushed(old(self)@, true, position),
                final(self)@,
                old(out)@,
                final(out)@,
                r,
            ),
            mux_wf(final(self)@),
    {
        self.flush_fragment_inner(true, position, out)
    }
}

// ---------------------------------------------------------------------
// Packets
// ---------------------------------------------------------------------

/// A copy of a byte run.
fn copy_data(data: &Vec<u8>) -> (r: Vec<u8>)
    ensures
        r@ == data@,
{
    vstd::slice::slice_to_vec(data.as_slice())
}

impl FragmentedMuxer {
    /// Whether the counters of the muxer have room for the last fragment of
    /// the file.
    pub fn can_finish(&self) -> (r: bool)
        ensures
            r == trailer_fits(self@),
    {
        if !self.header_written || self.trailer_written {
            return true;
        }
        if self.sequence_number == 0xFFFF_FFFF && has_pending(&self.tracks) {
            return false;
        }
        self.times_have_room()
    }

    /// Whether the decode times have room for the pending samples.
    fn times_have_room(&self) -> (r: bool)
        ensures
            r == durations_fit(self@.tracks),
    {
        let mut i: usize = 0;
        while i < self.tracks.len()
            invariant
                i <= self.tracks.len(),
                forall|k: int|
                    0 <= k < i ==> (#[trigger] self@.tracks[k]).next_bmdt + total_duration(
                        self@.tracks[k].pending,
                    ) <= u64::MAX,
            decreases self.tracks.len() - i,
        {
            let t: &FragTrackState = &self.tracks[i];
            assert(self@.tracks[i as int] == t@);
            if t.end_time().is_none() {
                return false;
            }
            i = i + 1;
        }
        true
    }

    /// Whether the counters of the muxer have room for empty time.
    pub fn can_insert(&self, stream_index: usize, duration: u32) -> (r: bool)
        ensures
            r == gap_fits(self@, stream_index, duration),
    {
        if self.refuse_empty_time(stream_index).is_some() || duration == 0 {
            return true;
        }
        let last: u32 = if has_pending(&self.tracks) {
            0xFFFF_FFFD
        } else {
            0xFFFF_FFFE
        };
        if self.sequence_number > last || !self.times_have_room() {
            return false;
        }
        let t: &FragTrackState = &self.tracks[stream_index];
        assert(self@.tracks[stream_index as int] == t@);
        t.has_room(duration)
    }

    /// Whether one more sample on track `idx` brings on a fragment.
    fn will_flush(&self, idx: usize, keyframe: bool, duration: u32, times: Ghost<MediaTimes>) -> (r:
        bool)
        requires
            mux_wf(self@),
            idx < self@.tracks.len(),
            duration == sample_duration(self@.tracks[idx as int].prev_pts, times@),
            track_takes(self@.tracks[idx as int], duration),
        ensures
            r == flush_due(
                with_sample(self@, idx as int, Seq::empty(), keyframe, times@, None),
                idx as int,
                keyframe,
            ),
    {
        let ghost q = queued(self@.tracks[idx as int], Seq::empty(), keyframe, times@, None);
        let first: &FragTrackState = &self.tracks[0];
        assert(self@.tracks[0] == first@);
        assert(track_wf(first@));
        assert(q.pending.drop_last() =~= self@.tracks[idx as int].pending);
        match self.frag_options.cadence {
            FragmentCadence::EverySeconds(ticks) => {
                let n: u64 = match ticks {
                    Some(n) => n,
                    None => {
                        return false;
                    },
                };
                let waiting: u64 = total_ticks(&first.pending);
                if idx == 0 {
                    waiting + duration as u64 >= n
                } else {
                    first.pending.len() > 0 && waiting >= n
                }
            },
            FragmentCadence::EveryKeyframe => idx == 0 && keyframe && first.pending.len() >= 1,
            FragmentCadence::EveryNPackets(n) => n != 0 && idx == 0 && low32(
                first.pending.len(),
            ).wrapping_add(1) >= n,
        }
    }

    /// Whether there is room for the fragment that one more sample on track
    /// `idx` brings on.
    fn fragment_fits(
        &self,
        idx: usize,
        keyframe: Ghost<bool>,
        duration: u32,
        times: Ghost<MediaTimes>,
    ) -> (r: bool)
        requires
            mux_wf(self@),
            idx < self@.tracks.len(),
            duration == sample_duration(self@.tracks[idx as int].prev_pts, times@),
            flush_due(
                with_sample(self@, idx as int, Seq::empty(), keyframe@, times@, None),
                idx as int,
                keyframe@,
            ),
        ensures
            r == flush_fits(
                with_sample(self@, idx as int, Seq::empty(), keyframe@, times@, None),
                true,
            ),
    {
        proof {
            lemma_next_fragment(self@, idx as int, keyframe@, times@);
        }
        if self.sequence_number == 0xFFFF_FFFF || !self.times_have_room() {
            return false;
        }
        match self.frag_options.cadence {
            FragmentCadence::EveryKeyframe => true,
            _ => {
                let t: &FragTrackState = &self.tracks[idx];
                assert(self@.tracks[idx as int] == t@);
                t.has_room(duration)
            },
        }
    }

    /// Whether a packet can be counted: its times fit, and the counters of
    /// the muxer have room.
    pub fn accepts(&self, packet: &Packet) -> (r: bool)
        requires
            mux_wf(self@),
        ensures
            r == packet_fits(self@, packet@),
    {
        let idx: usize = packet.stream_index as usize;
        if !self.header_written || idx >= self.tracks.len() {
            return true;
        }
        let t: &FragTrackState = &self.tracks[idx];
        assert(self@.tracks[idx as int] == t@);
        let times: MediaTimes = packet.media_times(t.setup.media_time_scale);
        if !test_times_fit(t.prev_pts_in_ts, &times) {
            return false;
        }
        let duration: u32 = find_duration(t.prev_pts_in_ts, &times);
        if t.packets_total == 0xFFFF_FFFF_FFFF_FFFF || t.cumulative_duration.checked_add(
            duration as u64,
        ).is_none() {
            return false;
        }
        !self.will_flush(idx, packet.keyframe, duration, Ghost(times)) || self.fragment_fits(
            idx,
            Ghost(packet.keyframe),
            duration,
            Ghost(times),
        )
    }

    /// Why a protected sample is refused, if it is.
    fn check_protected(&self, idx: usize, len: usize, senc: &SencSample) -> (r: Option<MuxError>)
        requires
            idx < self@.tracks.len(),
        ensures
            r == protected_refusal(self@.tracks[idx as int], idx, len as nat, senc@),
    {
        let t: &FragTrackState = &self.tracks[idx];
        assert(self@.tracks[idx as int] == t@);
        let decision: &CencSchemeDecision = match &t.protection {
            None => {
                return Some(MuxError::NotProtected { stream_index: idx });
            },
            Some(d) => d,
        };
        if t.pending_senc.len() != t.pending.len() {
            return Some(MuxError::ProtectedAfterPlain { stream_index: idx });
        }
        let iv_len: usize = senc.initialization_vector.len();
        match decision.iv_supply() {
            IvSupply::PerSample { size } => {
                if iv_len != size as usize {
                    return Some(
                        MuxError::IvLength { stream_index: idx, iv_len, iv_size: size },
                    );
                }
            },
            IvSupply::Constant => {
                if iv_len > 0 {
                    return Some(MuxError::IvOnConstant { stream_index: idx });
                }
            },
            IvSupply::Unprotected => {
                return Some(MuxError::ClearByDefault { stream_index: idx });
            },
        }
        if senc.subsamples.len() > 0 {
            let total: u128 = count_covered(&senc.subsamples);
            if total != len as u128 {
                return Some(
                    MuxError::SubsampleCover {
                        stream_index: idx,
                        total: (total % 0x1_0000_0000_0000_0000) as u64,
                        sample_len: len,
                    },
                );
            }
        }
        None
    }

    /// Whether the cadence asks for a fragment.
    fn should_flush(&self, idx: usize, keyframe: bool) -> (r: bool)
        requires
            mux_wf(self@),
        ensures
            r == flush_due(self@, idx as int, keyframe),
    {
        let first: &FragTrackState = &self.tracks[0];
        assert(self@.tracks[0] == first@);
        assert(track_wf(first@));
        match self.frag_options.cadence {
            FragmentCadence::EverySeconds(ticks) => {
                if first.pending.len() == 0 {
                    return false;
                }
                match ticks {
                    Some(n) => total_ticks(&first.pending) >= n,
                    None => false,
                }
            },
            FragmentCadence::EveryKeyframe => idx == 0 && keyframe && first.pending.len() >= 2,
            FragmentCadence::EveryNPackets(n) => n != 0 && idx == 0 && low32(first.pending.len())
                >= n,
        }
    }

    /// Queue a sample, and write a fragment where the cadence asks for it.
    fn queue_packet_impl(
        &mut self,
        idx: usize,
        data: Vec<u8>,
        keyframe: bool,
        times: &MediaTimes,
        aux: Option<(SencSample, Option<SeigEntry>)>,
        position: u64,
        out: &mut Vec<u8>,
    ) -> (r: Result<(), MuxError>)
        requires
            mux_wf(old(self)@),
            old(self)@.header_written && idx < old(self)@.tracks.len() ==> times_fit(
                old(self)@.tracks[idx as int].prev_pts,
                *times,
            ) && sample_fits(old(self)@, idx as int, keyframe, *times),
        ensures
            took(
                packet_step(old(self)@, idx, data@, keyframe, *times, opt_aux(aux), position),
                final(self)@,
                old(out)@,
                final(out)@,
                r,
            ),
            mux_wf(final(self)@),
    {
        let ghost m = self@;
        assert(out@ =~= old(out)@ + Seq::<u8>::empty());
        if !self.header_written {
            return Err(MuxError::NoHeader);
        }
        if idx >= self.tracks.len() {
            return Err(MuxError::UnknownStream { stream_index: idx });
        }
        match &aux {
            Some((senc, _seig)) => match self.check_protected(idx, data.len(), senc) {
                Some(e) => {
                    return Err(e);
                },
                None => {},
            },
            None => {
                assert(m.tracks[idx as int] == self.tracks@[idx as int]@);
                if self.tracks[idx].pending_senc.len() > 0 {
                    return Err(MuxError::PlainAfterProtected { stream_index: idx });
                }
            },
        }
        let ghost d = data@;
        let ghost a = opt_aux(aux);
        proof {
            assert(m.tracks[idx as int] == self.tracks@[idx as int]@);
            assert(track_wf(m.tracks[idx as int]));
        }
        self.tracks[idx].queue(data, keyframe, times, aux);
        let ghost next = with_sample(m, idx as int, d, keyframe, *times, a);
        proof {
            assert(self@.tracks =~= next.tracks);
            assert(self@ =~= next);
            lemma_any_data(m, idx as int, d, keyframe, *times, a);
        }
        if self.should_flush(idx, keyframe) {
            self.flush_fragment(position, out)
        } else {
            Ok(())
        }
    }

    /// The times of a packet on the media clock of its track.
    fn times_for(&self, packet: &Packet) -> (r: MediaTimes)
        ensures
            packet.stream_index < self@.tracks.len() ==> r == packet_times(self@, packet@),
    {
        let idx: usize = packet.stream_index as usize;
        let rate: u32 = if idx < self.tracks.len() {
            assert(self@.tracks[idx as int] == self.tracks@[idx as int]@);
            self.tracks[idx].setup.media_time_scale
        } else {
            0
        };
        packet.media_times(rate)
    }

    /// Write a packet: it waits for the next fragment, which is appended to
    /// `out` where the cadence asks for it. `position` is the current end of
    /// the file.
    pub fn write_packet(&mut self, packet: &Packet, position: u64, out: &mut Vec<u8>) -> (r: Result<
        (),
        MuxError,
    >)
        requires
            mux_wf(old(self)@),
            packet_fits(old(self)@, packet@),
        ensures
            took(
                packet_step(
                    old(self)@,
                    packet.stream_index as usize,
                    packet.data@,
                    packet.keyframe,
                    packet_times(old(self)@, packet@),
                    None,
                    position,
                ),
                final(self)@,
                old(out)@,
                final(out)@,
                r,
            ),
            mux_wf(final(self)@),
    {
        let times: MediaTimes = self.times_for(packet);
        self.queue_packet_impl(
            packet.stream_index as usize,
            copy_data(&packet.data),
            packet.keyframe,
            &times,
            None,
            position,
            out,
        )
    }

    /// Write a packet whose data is encrypted, with its initialization
    /// vector and subsamples.
    pub fn write_protected_packet(
        &mut self,
        packet: &Packet,
        senc: SencSample,
        position: u64,
        out: &mut Vec<u8>,
    ) -> (r: Result<(), MuxError>)
        requires
            mux_wf(old(self)@),
            packet_fits(old(self)@, packet@),
        ensures
            took(
                packet_step(
                    old(self)@,
                    packet.stream_index as usize,
                    packet.data@,
                    packet.keyframe,
                    packet_times(old(self)@, packet@),
                    Some((senc@, None)),
                    position,
                ),
                final(self)@,
                old(out)@,
                final(out)@,
                r,
            ),
            mux_wf(final(self)@),
    {
        self.write_protected_packet_grouped(packet, senc, None, position, out)
    }

    /// Like [`FragmentedMuxer::write_protected_packet`], for a sample whose
    /// encryption differs from the track's defaults.
    pub fn write_protected_packet_grouped(
        &mut self,
        packet: &Packet,
        senc: SencSample,
        seig: Option<SeigEntry>,
        position: u64,
        out: &mut Vec<u8>,
    ) -> (r: Result<(), MuxError>)
        requires
            mux_wf(old(self)@),
            packet_fits(old(self)@, packet@),
        ensures
            took(
                protected_step(
                    old(self)@,
                    packet.stream_index as usize,
                    packet.data@,
                    packet.keyframe,
                    packet_times(old(self)@, packet@),
                    senc@,
                    opt_seig(seig),
                    position,
                ),
                final(self)@,
                old(out)@,
                final(out)@,
                r,
            ),
            mux_wf(final(self)@),
    {
        let idx: usize = packet.stream_index as usize;
        match self.check_override(idx, &seig) {
            Some(e) => {
                assert(out@ =~= old(out)@ + Seq::<u8>::empty());
                return Err(e);
            },
            None => {},
        }
        let times: MediaTimes = self.times_for(packet);
        self.queue_packet_impl(
            idx,
            copy_data(&packet.data),
            packet.keyframe,
            &times,
            Some((senc, seig)),
            position,
            out,
        )
    }

    /// Why an override is refused, if it is.
    fn check_override(&self, idx: usize, seig: &Option<SeigEntry>) -> (r: Option<MuxError>)
        ensures
            r == override_refusal(self@, idx, opt_seig(*seig)),
    {
        let entry: &SeigEntry = match seig {
            None => {
                return None;
            },
            Some(e) => e,
        };
        match build_seig_entry(entry) {
            Err(e) => {
                return Some(MuxError::Cenc(e));
            },
            Ok(_) => {},
        }
        if idx < self.tracks.len() {
            assert(self@.tracks[idx as int] == self.tracks@[idx as int]@);
            if let Some(d) = &self.tracks[idx].protection {
                if entry.is_protected == 1 && entry.per_sample_iv_size
                    != d.tenc.default_per_sample_iv_size {
                    return Some(
                        MuxError::OverrideIvSize {
                            stream_index: idx,
                            default_size: d.tenc.default_per_sample_iv_size,
                            override_size: entry.per_sample_iv_size,
                        },
                    );
                }
            }
        }
        None
    }
}

// ---------------------------------------------------------------------
// What is queued for the next fragment
// ---------------------------------------------------------------------

impl FragmentedMuxer {
    /// Give the next fragment a segment type box with these brands, and no
    /// fragment after it.
    pub fn write_fragmented_segment_with_styp(
        &mut self,
        major_brand: [u8; 4],
        compat_brands: &[[u8; 4]],
    )
        ensures
            final(self)@ == (MuxView {
                styp_override: Some((major_brand, compat_brands@)),
                ..old(self)@
            }),
    {
        self.styp_override = Some((major_brand, copy_brands(compat_brands)));
    }

    /// Give the next fragment a producer reference time, in place of one
    /// that was asked for before.
    pub fn set_next_segment_prft(
        &mut self,
        reference_track_id: u32,
        ntp_timestamp: u64,
        media_time: u64,
        flags: u32,
    )
        ensures
            final(self)@ == (MuxView {
                prft: Some(
                    PrftRequest {
                        reference_track_id,
                        ntp_timestamp,
                        media_time,
                        flags,
                        force_v1: false,
                    },
                ),
                ..old(self)@
            }),
    {
        self.pending_prft = Some(
            PrftRequest { reference_track_id, ntp_timestamp, media_time, flags, force_v1: false },
        );
    }

    /// Like [`FragmentedMuxer::set_next_segment_prft`], with a media time
    /// of 64 bits in any case.
    pub fn set_next_segment_prft_v1(
        &mut self,
        reference_track_id: u32,
        ntp_timestamp: u64,
        media_time: u64,
        flags: u32,
    )
        ensures
            final(self)@ == (MuxView {
                prft: Some(
                    PrftRequest {
                        reference_track_id,
                        ntp_timestamp,
                        media_time,
                        flags,
                        force_v1: true,
                    },
                ),
                ..old(self)@
            }),
    {
        self.pending_prft = Some(
            PrftRequest { reference_track_id, ntp_timestamp, media_time, flags, force_v1: true },
        );
    }

    /// Give the next fragment protection system headers, behind those that
    /// were asked for before.
    pub fn set_next_segment_pssh(&mut self, pssh: Vec<PsshBox>)
        ensures
            final(self)@ == (MuxView {
                pssh: old(self)@.pssh + pssh_views(pssh@),
                ..old(self)@
            }),
    {
        let ghost m = self@;
        let ghost more = pssh_views(pssh@);
        let mut queue: Vec<PsshBox> = pssh;
        self.pending_moof_pssh.append(&mut queue);
        assert(pssh_views(self.pending_moof_pssh@) =~= m.pssh + more);
    }

    /// Put events before the next fragment, behind those that were asked
    /// for before.
    pub fn set_next_segment_emsg(&mut self, events: Vec<EmsgBox>)
        ensures
            final(self)@ == (MuxView {
                emsg: old(self)@.emsg + emsg_views(events@),
                ..old(self)@
            }),
    {
        let ghost m = self@;
        let ghost more = emsg_views(events@);
        let mut queue: Vec<EmsgBox> = events;
        self.pending_emsg.append(&mut queue);
        assert(emsg_views(self.pending_emsg@) =~= m.emsg + more);
    }
}

// ---------------------------------------------------------------------
// Header, empty time, trailer
// ---------------------------------------------------------------------

/// What a trailer does besides a last fragment.
#[derive(Clone, Debug, PartialEq, Eq)]
pub struct Trailer {
    /// A box for the end of the file, if there is to be one.
    pub mfra: Option<Vec<u8>>,
    /// A position and the 64-bit number to be written there, if there is to
    /// be one.
    pub mehd: Option<MehdPatch>,
}

/// The length of the presentation, and where it belongs.
#[derive(Clone, Copy, Debug, PartialEq, Eq)]
pub struct MehdPatch {
    /// The position in the file.
    pub position: u64,
    /// The length on the movie's clock.
    pub duration: u64,
}

impl View for Trailer {
    type V = TrailerView;

    open spec fn view(&self) -> TrailerView {
        TrailerView {
            mfra: match self.mfra {
                Some(b) => Some(b@),
                None => None,
            },
            mehd: match self.mehd {
                Some(p) => Some((p.position, p.duration)),
                None => None,
            },
        }
    }
}

/// Whether some track has a row in its random access table.
fn has_rows(tracks: &Vec<FragTrackState>) -> (r: bool)
    ensures
        r == any_rows(track_views(tracks@)),
{
    let ghost v = track_views(tracks@);
    let mut i: usize = 0;
    while i < tracks.len()
        invariant
            i <= tracks.len(),
            v == track_views(tracks@),
            forall|k: int| 0 <= k < i ==> (#[trigger] v[k]).tfra.len() == 0,
        decreases tracks.len() - i,
    {
        if tracks[i].tfra_entries.len() > 0 {
            assert(v[i as int].tfra.len() > 0);
            return true;
        }
        i = i + 1;
    }
    false
}

/// The random access tables of the tracks that have one.
fn build_tfras(tracks: &Vec<FragTrackState>) -> (r: Vec<u8>)
    ensures
        r@ == tfra_boxes(track_views(tracks@)),
{
    let ghost v = track_views(tracks@);
    let mut body: Vec<u8> = Vec::new();
    let mut i: usize = 0;
    assert(v.take(0) =~= Seq::<TrackView>::empty());
    while i < tracks.len()
        invariant
            i <= tracks.len(),
            v == track_views(tracks@),
            body@ == tfra_boxes(v.take(i as int)),
        decreases tracks.len() - i,
    {
        assert(v.take(i + 1).drop_last() =~= v.take(i as int));
        assert(v.take(i + 1).last() == v[i as int]);
        let t: &FragTrackState = &tracks[i];
        assert(v[i as int] == t@);
        let ghost before = body@;
        if t.tfra_entries.len() > 0 {
            let table: Vec<u8> = build_tfra(t.track_id, t.tfra_entries.as_slice());
            put_bytes(&mut body, table.as_slice());
        } else {
            assert(before + Seq::<u8>::empty() =~= before);
        }
        i = i + 1;
    }
    assert(v.take(tracks.len() as int) =~= v);
    body
}

/// The size of a random access box whose tables take `n` bytes, to 32 bits.
fn mfra_size(n: usize) -> (r: u32)
    ensures
        r == size_field(n as nat + 24),
{
    low32(n).wrapping_add(24)
}

/// The random access box that ends a file.
fn build_mfra(tracks: &Vec<FragTrackState>) -> (r: Vec<u8>)
    ensures
        r@ == mfra_box(track_views(tracks@)),
{
    let mut body: Vec<u8> = build_tfras(tracks);
    let size: u32 = mfra_size(body.len());
    put_bytes(&mut body, build_mfro(size).as_slice());
    wrap_box(&MFRA, body.as_slice())
}

/// How long a track is, on the movie's clock.
fn find_track_length(t: &FragTrackState) -> (r: u64)
    ensures
        r == track_length(t@),
{
    let rate: u128 = t.setup.media_time_scale as u128;
    if rate == 0 {
        return 0;
    }
    let ticks: u128 = (t.next_bmdt as u128) * 1000;
    let n: u128 = (ticks + rate - 1) / rate;
    if n > 0xFFFF_FFFF_FFFF_FFFF {
        0xFFFF_FFFF_FFFF_FFFF
    } else {
        n as u64
    }
}

/// How long the longest track is.
fn find_movie_length(tracks: &Vec<FragTrackState>) -> (r: u64)
    ensures
        r == movie_length(track_views(tracks@)),
{
    let ghost v = track_views(tracks@);
    let mut longest: u64 = 0;
    let mut i: usize = 0;
    assert(v.take(0) =~= Seq::<TrackView>::empty());
    while i < tracks.len()
        invariant
            i <= tracks.len(),
            v == track_views(tracks@),
            longest == movie_length(v.take(i as int)),
        decreases tracks.len() - i,
    {
        assert(v.take(i + 1).drop_last() =~= v.take(i as int));
        assert(v.take(i + 1).last() == v[i as int]);
        let length: u64 = find_track_length(&tracks[i]);
        if length > longest {
            longest = length;
        }
        i = i + 1;
    }
    assert(v.take(tracks.len() as int) =~= v);
    longest
}

impl FragmentedMuxer {
    /// The name of the format that is written.
    pub fn format_name(&self) -> (r: &str)
        ensures
            r@ == (match (self@.options.brand, self@.options.fragmented is Some) {
                (BrandPreset::Ismv, true) => "ismv"@,
                (BrandPreset::Mov, _) => "mov"@,
                _ => "mp4"@,
            }),
    {
        match (&self.options.brand, self.options.fragmented.is_some()) {
            (BrandPreset::Ismv, true) => "ismv",
            (BrandPreset::Mov, _) => "mov",
            _ => "mp4",
        }
    }

    /// Write the header: the file starts with what is appended to `out`.
    pub fn write_header(&mut self, out: &mut Vec<u8>) -> (r: Result<(), MuxError>)
        requires
            mux_wf(old(self)@),
        ensures
            took(header_step(old(self)@), final(self)@, old(out)@, final(out)@, r),
            mux_wf(final(self)@),
    {
        let ghost m = self@;
        if self.header_written {
            assert(out@ =~= old(out)@ + Seq::<u8>::empty());
            return Err(MuxError::HeaderTwice);
        }
        let ftyp: Vec<u8> = build_ftyp(&self.options.brand);
        put_bytes(out, ftyp.as_slice());
        match build_init_moov(
            &self.tracks,
            &self.options.track_edit_lists,
            &self.frag_options,
            &self.options.pssh,
        ) {
            Err(e) => Err(e),
            Ok((moov, at)) => {
                put_bytes(out, moov.as_slice());
                self.mehd_patch_pos = match at {
                    Some(x) => Some((ftyp.len() as u64).saturating_add(28).saturating_add(x as u64)),
                    None => None,
                };
                self.header_written = true;
                assert(out@ =~= old(out)@ + (ftyp@ + moov@));
                assert(self@ =~= header_step(m).after);
                Ok(())
            },
        }
    }

    /// Why empty time is refused, if it is.
    fn refuse_empty_time(&self, stream_index: usize) -> (r: Option<MuxError>)
        ensures
            r == empty_time_refusal(self@, stream_index),
    {
        if !self.header_written {
            Some(MuxError::EmptyTimeBeforeHeader)
        } else if self.trailer_written {
            Some(MuxError::EmptyTimeAfterTrailer)
        } else if stream_index >= self.tracks.len() {
            Some(MuxError::EmptyTimeStream { stream_index, streams: self.tracks.len() })
        } else if self.options.track_edit_lists.len() > 0 {
            Some(MuxError::EmptyTimeWithEdits)
        } else {
            None
        }
    }

    /// Insert empty time into a track: the pending samples are written
    /// first, then a movie fragment without samples.
    pub fn insert_empty_time(
        &mut self,
        stream_index: usize,
        duration: u32,
        position: u64,
        out: &mut Vec<u8>,
    ) -> (r: Result<(), MuxError>)
        requires
            mux_wf(old(self)@),
            gap_fits(old(self)@, stream_index, duration),
        ensures
            took(
                empty_time_step(old(self)@, stream_index, duration, position),
                final(self)@,
                old(out)@,
                final(out)@,
                r,
            ),
            mux_wf(final(self)@),
    {
        let ghost m = self@;
        assert(out@ =~= old(out)@ + Seq::<u8>::empty());
        match self.refuse_empty_time(stream_index) {
            Some(e) => {
                return Err(e);
            },
            None => {},
        }
        if duration == 0 {
            return Ok(());
        }
        match self.flush_fragment_inner(false, position, out) {
            Err(e) => {
                return Err(e);
            },
            Ok(_) => {},
        }
        proof {
            lemma_gap_fits(m, position, stream_index, duration);
        }
        let ghost first = self@;
        let ghost so_far = out@;
        self.write_gap(stream_index, duration, out);
        assert(out@ =~= old(out)@ + empty_time_step(m, stream_index, duration, position).out);
        Ok(())
    }

    /// Write empty time.
    fn write_gap(&mut self, idx: usize, duration: u32, out: &mut Vec<u8>)
        requires
            mux_wf(old(self)@),
            old(self)@.sequence < u32::MAX,
            idx < old(self)@.tracks.len(),
            old(self)@.tracks[idx as int].next_bmdt + duration <= u64::MAX,
        ensures
            final(self)@ == gap_step(old(self)@, idx as int, duration).after,
            final(out)@ == old(out)@ + gap_step(old(self)@, idx as int, duration).out,
            mux_wf(final(self)@),
    {
        let ghost m = self@;
        assert(m.tracks[idx as int] == self.tracks@[idx as int]@);
        assert(track_wf(m.tracks[idx as int]));
        self.sequence_number = self.sequence_number + 1;
        let track_id: u32 = self.tracks[idx].track_id;
        let start: u64 = self.tracks[idx].next_bmdt;
        let mut traf: Vec<u8> = build_empty_tfhd(track_id, duration);
        put_bytes(&mut traf, build_tfdt(start).as_slice());
        let mut moof: Vec<u8> = build_mfhd(self.sequence_number);
        put_bytes(&mut moof, wrap_box(&TRAF, traf.as_slice()).as_slice());
        put_bytes(out, wrap_box(&MOOF, moof.as_slice()).as_slice());
        self.tracks[idx].next_bmdt = start + duration as u64;
        let ghost after = gap_step(m, idx as int, duration).after;
        assert(self@.tracks =~= after.tracks);
        assert(self@ =~= after);
    }

    /// Finish the file: append a last fragment, and say what is left to be
    /// written at the end of the file and at the start.
    pub fn write_trailer(&mut self, position: u64, out: &mut Vec<u8>) -> (r: Result<
        Trailer,
        MuxError,
    >)
        requires
            mux_wf(old(self)@),
            trailer_fits(old(self)@),
        ensures
            ({
                let (step, trailer) = trailer_step(old(self)@, position);
                &&& final(self)@ == step.after
                &&& final(out)@ == old(out)@ + step.out
                &&& match r {
                    Ok(t) => step.result is Ok && t@ == trailer,
                    Err(e) => step.result == Err::<(), MuxError>(e),
                }
            }),
            mux_wf(final(self)@),
    {
        let ghost m = self@;
        assert(out@ =~= old(out)@ + Seq::<u8>::empty());
        if self.trailer_written {
            return Ok(Trailer { mfra: None, mehd: None });
        }
        if !self.header_written {
            return Err(MuxError::TrailerBeforeHeader);
        }
        match self.flush_fragment_inner(false, position, out) {
            Err(e) => {
                return Err(e);
            },
            Ok(_) => {},
        }
        let ghost last = self@;
        let mfra: Option<Vec<u8>> = if self.frag_options.emit_random_access_indexes && has_rows(
            &self.tracks,
        ) {
            Some(build_mfra(&self.tracks))
        } else {
            None
        };
        let mehd: Option<MehdPatch> = match self.mehd_patch_pos {
            Some(position) => Some(
                MehdPatch { position, duration: find_movie_length(&self.tracks) },
            ),
            None => None,
        };
        self.trailer_written = true;
        assert(self@ =~= (MuxView { trailer_written: true, ..last }));
        let r: Trailer = Trailer { mfra, mehd };
        assert(r@ =~= trailer_of(last));
        Ok(r)
    }
}

/// After a fragment that keeps all samples there is room for empty time.
proof fn lemma_gap_fits(m: MuxView, position: u64, idx: usize, duration: u32)
    requires
        mux_wf(m),
        gap_fits(m, idx, duration),
        empty_time_refusal(m, idx) is None,
        duration > 0,
        flushed(m, false, position).result is Ok,
    ensures
        flushed(m, false, position).after.sequence < u32::MAX,
        flushed(m, false, position).after.tracks.len() == m.tracks.len(),
        flushed(m, false, position).after.tracks[idx as int].next_bmdt + duration <= u64::MAX,
{
}

/// Tracks with as many pending samples that last as long leave the same room.
proof fn lemma_same_room(a: Seq<TrackView>, b: Seq<TrackView>)
    requires
        a.len() == b.len(),
        forall|i: int|
            0 <= i < a.len() ==> (#[trigger] a[i]).pending.len() == b[i].pending.len()
                && a[i].next_bmdt == b[i].next_bmdt && total_duration(a[i].pending)
                == total_duration(b[i].pending),
    ensures
        any_pending(a) == any_pending(b),
        durations_fit(a) == durations_fit(b),
{
    if any_pending(a) {
        let i = choose|i: int| 0 <= i < a.len() && (#[trigger] a[i]).pending.len() > 0;
        assert(b[i].pending.len() > 0);
    }
    if any_pending(b) {
        let i = choose|i: int| 0 <= i < b.len() && (#[trigger] b[i]).pending.len() > 0;
        assert(a[i].pending.len() > 0);
    }
    if durations_fit(a) {
        assert forall|i: int| 0 <= i < b.len() implies (#[trigger] b[i]).next_bmdt
            + total_duration(b[i].pending) <= u64::MAX by {
            assert(a[i].next_bmdt + total_duration(a[i].pending) <= u64::MAX);
        }
    }
    if durations_fit(b) {
        assert forall|i: int| 0 <= i < a.len() implies (#[trigger] a[i]).next_bmdt
            + total_duration(a[i].pending) <= u64::MAX by {
            assert(b[i].next_bmdt + total_duration(b[i].pending) <= u64::MAX);
        }
    }
}

/// Whether a sample brings on a fragment, and whether there is room for it,
/// does not depend on its data or its encryption.
proof fn lemma_any_data(
    m: MuxView,
    idx: int,
    data: Seq<u8>,
    keyframe: bool,
    times: MediaTimes,
    aux: Option<(SencSampleView, Option<SeigView>)>,
)
    requires
        0 <= idx < m.tracks.len(),
    ensures
        ({
            let a = with_sample(m, idx, Seq::empty(), keyframe, times, None);
            let b = with_sample(m, idx, data, keyframe, times, aux);
            &&& flush_due(a, idx, keyframe) == flush_due(b, idx, keyframe)
            &&& flush_fits(a, true) == flush_fits(b, true)
        }),
{
    let a = with_sample(m, idx, Seq::empty(), keyframe, times, None);
    let b = with_sample(m, idx, data, keyframe, times, aux);
    let p = a.tracks[idx].pending;
    let q = b.tracks[idx].pending;
    assert(p.drop_last() =~= m.tracks[idx].pending);
    assert(q.drop_last() =~= m.tracks[idx].pending);
    assert(total_duration(p) == total_duration(q));
    assert(holds_back(a) == holds_back(b));
    let t = fragment_tracks(a, true);
    let u = fragment_tracks(b, true);
    assert forall|i: int| 0 <= i < t.len() implies (#[trigger] t[i]).pending.len()
        == u[i].pending.len() && t[i].next_bmdt == u[i].next_bmdt && total_duration(t[i].pending)
        == total_duration(u[i].pending) by {}
    lemma_same_room(t, u);
}

/// The fragment that one more sample brings on: under the keyframe cadence
/// it takes what is pending without the sample, else with it.
proof fn lemma_next_fragment(m: MuxView, idx: int, keyframe: bool, times: MediaTimes)
    requires
        0 <= idx < m.tracks.len(),
        flush_due(with_sample(m, idx, Seq::empty(), keyframe, times, None), idx, keyframe),
    ensures
        ({
            let t = fragment_tracks(
                with_sample(m, idx, Seq::empty(), keyframe, times, None),
                true,
            );
            let duration = sample_duration(m.tracks[idx].prev_pts, times);
            &&& any_pending(t)
            &&& durations_fit(t) == (durations_fit(m.tracks) && (m.frag.cadence is EveryKeyframe
                || m.tracks[idx].next_bmdt + total_duration(m.tracks[idx].pending) + duration
                <= u64::MAX))
        }),
{
    let next = with_sample(m, idx, Seq::empty(), keyframe, times, None);
    let t = fragment_tracks(next, true);
    let p = next.tracks[idx].pending;
    assert(p.drop_last() =~= m.tracks[idx].pending);
    if m.frag.cadence is EveryKeyframe {
        assert(holds_back(next));
        assert forall|i: int| 0 <= i < t.len() implies (#[trigger] t[i]).pending
            == m.tracks[i].pending && t[i].next_bmdt == m.tracks[i].next_bmdt by {}
        lemma_same_room(t, m.tracks);
        assert(t[0].pending.len() > 0);
    } else {
        assert(t[idx].pending.len() > 0);
        if durations_fit(t) {
            assert(t[idx].next_bmdt + total_duration(t[idx].pending) <= u64::MAX);
            assert forall|i: int| 0 <= i < m.tracks.len() implies (
            #[trigger] m.tracks[i]).next_bmdt + total_duration(m.tracks[i].pending)
                <= u64::MAX by {
                assert(t[i].next_bmdt + total_duration(t[i].pending) <= u64::MAX);
            }
        }
        if durations_fit(m.tracks) {
            assert forall|i: int| 0 <= i < t.len() && i != idx implies (#[trigger] t[i]).next_bmdt
                + total_duration(t[i].pending) <= u64::MAX by {
                assert(m.tracks[i].next_bmdt + total_duration(m.tracks[i].pending) <= u64::MAX);
            }
        }
    }
}

/// A sample that is taken out and put back leaves the track as it was.
pub proof fn lemma_detach_reattach(t: TrackView)
    requires
        track_wf(t),
        t.pending.len() > 0,
    ensures
        attached(without_last(t), t.pending.last(), last_aux(t)) == t,
{
    let r = attached(without_last(t), t.pending.last(), last_aux(t));
    assert(r.pending =~= t.pending);
    assert(r.senc =~= t.senc);
    assert(r.seig =~= t.seig);
    assert(r =~= t);
}

} // verus!
