//! One track of a fragmented file: what is known of it, and the samples
//! that wait for the next fragment.

use crate::bytes::{low32, size_field};
use crate::cenc::scheme::{CencSchemeDecision, DecisionView};
use crate::cenc::types::{
    sample_views as senc_views, SeigEntry, SeigView, SencSample, SencSampleView,
};
use crate::frag::fields::TfraEmitEntry;
use crate::frag::protect::{opt_seig, seig_views};
use crate::frag::run::{
    flags_for, sample_flags_for, sample_views, total_duration, PendingSample, SampleView,
};
use crate::time::{rescale_to_media_ts, rescaled, TimeBase};
use vstd::prelude::*;

verus! {

/// A chunk of encoded data of one stream.
#[derive(Clone, Debug, PartialEq, Eq)]
pub struct Packet {
    /// The stream.
    pub stream_index: u32,
    /// Seconds per tick of the times below.
    pub time_base: TimeBase,
    /// When it is presented.
    pub pts: Option<i64>,
    /// When it is decoded.
    pub dts: Option<i64>,
    /// How long it lasts.
    pub duration: Option<i64>,
    /// Whether decoding can start with it.
    pub keyframe: bool,
    /// The data.
    pub data: Vec<u8>,
}

/// The value of a [`Packet`].
#[verifier::ext_equal]
pub struct PacketView {
    pub stream_index: u32,
    pub time_base: TimeBase,
    pub pts: Option<i64>,
    pub dts: Option<i64>,
    pub duration: Option<i64>,
    pub keyframe: bool,
    pub data: Seq<u8>,
}

impl View for Packet {
    type V = PacketView;

    open spec fn view(&self) -> PacketView {
        PacketView {
            stream_index: self.stream_index,
            time_base: self.time_base,
            pts: self.pts,
            dts: self.dts,
            duration: self.duration,
            keyframe: self.keyframe,
            data: self.data@,
        }
    }
}

/// The values of packets.
pub open spec fn packet_views(p: Seq<Packet>) -> Seq<PacketView> {
    Seq::new(p.len(), |i: int| p[i]@)
}

/// The times of a packet, in ticks of a media clock.
#[derive(Clone, Copy, Debug, PartialEq, Eq)]
pub struct MediaTimes {
    /// When it is presented.
    pub pts: Option<i64>,
    /// When it is decoded.
    pub dts: Option<i64>,
    /// How long it lasts.
    pub duration: Option<i64>,
}

/// A time in ticks of a media clock, where there is one.
pub open spec fn opt_rescaled(t: Option<i64>, base: TimeBase, rate: u32) -> Option<i64> {
    match t {
        Some(v) => Some(rescaled(v, base, rate)),
        None => None,
    }
}

/// The times of a packet, in ticks of a clock of `rate` ticks per second.
pub open spec fn times_of(p: PacketView, rate: u32) -> MediaTimes {
    MediaTimes {
        pts: opt_rescaled(p.pts, p.time_base, rate),
        dts: opt_rescaled(p.dts, p.time_base, rate),
        duration: opt_rescaled(p.duration, p.time_base, rate),
    }
}

/// A time in ticks of a media clock, where there is one.
fn rescale_opt(t: Option<i64>, base: TimeBase, rate: u32) -> (r: Option<i64>)
    ensures
        r == opt_rescaled(t, base, rate),
{
    match t {
        Some(v) => Some(rescale_to_media_ts(v, base, rate)),
        None => None,
    }
}

impl Packet {
    /// The times of the packet, in ticks of a clock of `rate` ticks per
    /// second.
    pub fn media_times(&self, rate: u32) -> (r: MediaTimes)
        ensures
            r == times_of(self@, rate),
    {
        MediaTimes {
            pts: rescale_opt(self.pts, self.time_base, rate),
            dts: rescale_opt(self.dts, self.time_base, rate),
            duration: rescale_opt(self.duration, self.time_base, rate),
        }
    }
}

// ---------------------------------------------------------------------
// Numbers that are cut to 32 bits
// ---------------------------------------------------------------------

/// The low 32 bits of `x`.
pub open spec fn cut32(x: int) -> u32 {
    (x % 0x1_0000_0000) as u32
}

/// The low 32 bits of `x`, in two's complement.
pub open spec fn wrap32(x: int) -> i32 {
    let m = x % 0x1_0000_0000;
    if m < 0x8000_0000 {
        m as i32
    } else {
        (m - 0x1_0000_0000) as i32
    }
}

/// The low 32 bits of `x`.
pub fn low_bits(x: i64) -> (r: u32)
    ensures
        r == cut32(x as int),
{
    if x >= 0 {
        ((x as u64) % 0x1_0000_0000) as u32
    } else {
        let y: u64 = ((-(x + 1)) as u64) % 0x1_0000_0000;
        (0xFFFF_FFFF - y) as u32
    }
}

/// A 32-bit word taken as two's complement.
pub fn as_signed(m: u32) -> (r: i32)
    ensures
        r == wrap32(m as int),
{
    if m < 0x8000_0000 {
        m as i32
    } else {
        (m as i64 - 0x1_0000_0000) as i32
    }
}

// ---------------------------------------------------------------------
// The track
// ---------------------------------------------------------------------

/// What is known of a track before its first packet.
#[derive(Clone, Debug, PartialEq, Eq)]
pub struct TrackSetup {
    /// Ticks per second of the media clock.
    pub media_time_scale: u32,
    /// The whole track header box.
    pub tkhd: Vec<u8>,
    /// The whole media box, with empty sample tables.
    pub mdia: Vec<u8>,
}

/// A track of a fragmented file.
pub struct FragTrackState {
    /// Its number, from 1.
    pub track_id: u32,
    /// What was known of it at the start.
    pub setup: TrackSetup,
    /// How its samples are protected, if they are.
    pub protection: Option<CencSchemeDecision>,
    /// The encryption entries of the pending samples: one for each, or none.
    pub pending_senc: Vec<SencSample>,
    /// The overrides of the pending samples, one for each encryption entry.
    pub pending_seig: Vec<Option<SeigEntry>>,
    /// The duration of the first sample ever.
    pub trex_default_sample_duration: u32,
    /// The size of the first sample ever.
    pub trex_default_sample_size: u32,
    /// The flags of the first sample ever.
    pub trex_default_sample_flags: u32,
    /// Whether there was a sample.
    pub trex_locked: bool,
    /// The samples of the next fragment.
    pub pending: Vec<PendingSample>,
    /// The decode time at which the next fragment starts.
    pub next_bmdt: u64,
    /// How many packets there were.
    pub packets_total: u64,
    /// The random access table so far.
    pub tfra_entries: Vec<TfraEmitEntry>,
    /// When the first packet is presented.
    pub first_pts_in_ts: Option<i64>,
    /// When the last packet is presented.
    pub prev_pts_in_ts: Option<i64>,
    /// How long all packets last together.
    pub cumulative_duration: u64,
}

/// The value of a [`FragTrackState`].
#[verifier::ext_equal]
pub struct TrackView {
    pub track_id: u32,
    pub time_scale: u32,
    pub tkhd: Seq<u8>,
    pub mdia: Seq<u8>,
    pub protection: Option<DecisionView>,
    pub senc: Seq<SencSampleView>,
    pub seig: Seq<Option<SeigView>>,
    pub trex: TrexView,
    pub pending: Seq<SampleView>,
    pub next_bmdt: u64,
    pub packets_total: u64,
    pub tfra: Seq<TfraEmitEntry>,
    pub first_pts: Option<i64>,
    pub prev_pts: Option<i64>,
    pub cumulative: u64,
}

/// The sample defaults of a track.
pub struct TrexView {
    pub duration: u32,
    pub size: u32,
    pub flags: u32,
    pub locked: bool,
}

/// The value of a protection decision, if there is one.
pub open spec fn opt_decision(d: Option<CencSchemeDecision>) -> Option<DecisionView> {
    match d {
        Some(d) => Some(d@),
        None => None,
    }
}

impl View for FragTrackState {
    type V = TrackView;

    open spec fn view(&self) -> TrackView {
        TrackView {
            track_id: self.track_id,
            time_scale: self.setup.media_time_scale,
            tkhd: self.setup.tkhd@,
            mdia: self.setup.mdia@,
            protection: opt_decision(self.protection),
            senc: senc_views(self.pending_senc@),
            seig: seig_views(self.pending_seig@),
            trex: TrexView {
                duration: self.trex_default_sample_duration,
                size: self.trex_default_sample_size,
                flags: self.trex_default_sample_flags,
                locked: self.trex_locked,
            },
            pending: sample_views(self.pending@),
            next_bmdt: self.next_bmdt,
            packets_total: self.packets_total,
            tfra: self.tfra_entries@,
            first_pts: self.first_pts_in_ts,
            prev_pts: self.prev_pts_in_ts,
            cumulative: self.cumulative_duration,
        }
    }
}

/// A track before its first packet.
pub open spec fn new_track(setup: TrackSetup, track_id: u32, p: Option<DecisionView>) -> TrackView {
    TrackView {
        track_id,
        time_scale: setup.media_time_scale,
        tkhd: setup.tkhd@,
        mdia: setup.mdia@,
        protection: p,
        senc: Seq::empty(),
        seig: Seq::empty(),
        trex: TrexView { duration: 0, size: 0, flags: 0, locked: false },
        pending: Seq::empty(),
        next_bmdt: 0,
        packets_total: 0,
        tfra: Seq::empty(),
        first_pts: None,
        prev_pts: None,
        cumulative: 0,
    }
}

/// Encryption entries and overrides are there for all pending samples or
/// for none, and all packets last at least as long as the pending ones.
pub open spec fn track_wf(t: TrackView) -> bool {
    &&& t.senc.len() == t.seig.len()
    &&& t.senc.len() == 0 || t.senc.len() == t.pending.len()
    &&& total_duration(t.pending) <= t.cumulative
}

/// One more sample, of `duration` ticks, can be counted.
pub open spec fn track_takes(t: TrackView, duration: u32) -> bool {
    t.cumulative + duration <= u64::MAX && t.packets_total < u64::MAX
}

/// How long a sample lasts: as long as it says, else from the sample before
/// to it, and never less than a tick.
pub open spec fn sample_duration(prev: Option<i64>, m: MediaTimes) -> u32 {
    match m.duration {
        Some(d) => if d > 0 {
            cut32(d as int)
        } else {
            1
        },
        None => match (prev, m.pts) {
            (Some(p), Some(c)) => if c > p && cut32(c - p) > 1 {
                cut32(c - p)
            } else {
                1
            },
            _ => 1,
        },
    }
}

/// How far presentation is from decoding, 0 where one is not known.
pub open spec fn sample_offset(m: MediaTimes) -> i32 {
    match (m.pts, m.dts) {
        (Some(p), Some(d)) => wrap32(p - d),
        _ => 0,
    }
}

/// The times of a packet differ by no more than 64 bits can hold.
pub open spec fn times_fit(prev: Option<i64>, m: MediaTimes) -> bool {
    &&& m.duration is None ==> (prev matches Some(p) ==> m.pts matches Some(c) ==> i64::MIN <= c - p
        <= i64::MAX)
    &&& m.pts matches Some(p) ==> m.dts matches Some(d) ==> i64::MIN <= p - d <= i64::MAX
    &&& m.pts is None ==> (match prev {
        Some(p) => p + sample_duration(prev, m) <= i64::MAX,
        None => true,
    })
}

/// A track with one more pending sample.
pub open spec fn queued(
    t: TrackView,
    data: Seq<u8>,
    keyframe: bool,
    m: MediaTimes,
    aux: Option<(SencSampleView, Option<SeigView>)>,
) -> TrackView {
    let duration = sample_duration(t.prev_pts, m);
    let flags = flags_for(keyframe);
    TrackView {
        senc: match aux {
            Some((senc, _seig)) => t.senc.push(senc),
            None => t.senc,
        },
        seig: match aux {
            Some((_senc, seig)) => t.seig.push(seig),
            None => t.seig,
        },
        trex: if t.trex.locked {
            t.trex
        } else {
            TrexView { duration, size: size_field(data.len()), flags, locked: true }
        },
        pending: t.pending.push(
            SampleView { data, duration, flags, composition_time_offset: sample_offset(m) },
        ),
        packets_total: (t.packets_total + 1) as u64,
        first_pts: match t.first_pts {
            Some(p) => Some(p),
            None => match m.pts {
                Some(p) => Some(p),
                None => Some(0),
            },
        },
        prev_pts: match m.pts {
            Some(p) => Some(p),
            None => match t.prev_pts {
                Some(p) => Some((p + duration) as i64),
                None => Some(duration as i64),
            },
        },
        cumulative: (t.cumulative + duration) as u64,
        ..t
    }
}

/// The aux information of a sample, if there is any.
pub open spec fn opt_aux(aux: Option<(SencSample, Option<SeigEntry>)>) -> Option<
    (SencSampleView, Option<SeigView>),
> {
    match aux {
        Some((senc, seig)) => Some((senc@, opt_seig(seig))),
        None => None,
    }
}

/// How long a sample lasts.
pub(crate) fn find_duration(prev: Option<i64>, m: &MediaTimes) -> (r: u32)
    requires
        times_fit(prev, *m),
    ensures
        r == sample_duration(prev, *m),
{
    if let Some(d) = m.duration {
        return if d > 0 {
            low_bits(d)
        } else {
            1
        };
    }
    match (prev, m.pts) {
        (Some(p), Some(c)) => {
            let delta: i64 = c - p;
            if delta > 0 {
                let ticks: u32 = low_bits(delta);
                if ticks > 1 {
                    ticks
                } else {
                    1
                }
            } else {
                1
            }
        },
        _ => 1,
    }
}

/// How far presentation is from decoding.
fn find_offset(m: &MediaTimes) -> (r: i32)
    requires
        m.pts matches Some(p) ==> m.dts matches Some(d) ==> i64::MIN <= p - d <= i64::MAX,
    ensures
        r == sample_offset(*m),
{
    match (m.pts, m.dts) {
        (Some(p), Some(d)) => as_signed(low_bits(p - d)),
        _ => 0,
    }
}

/// Whether the times of a packet differ by no more than 64 bits can hold.
pub fn test_times_fit(prev: Option<i64>, m: &MediaTimes) -> (r: bool)
    ensures
        r == times_fit(prev, *m),
{
    if m.duration.is_none() {
        if let (Some(p), Some(c)) = (prev, m.pts) {
            if c.checked_sub(p).is_none() {
                return false;
            }
        }
    }
    if let (Some(p), Some(d)) = (m.pts, m.dts) {
        if p.checked_sub(d).is_none() {
            return false;
        }
    }
    if m.pts.is_none() {
        if let Some(p) = prev {
            let duration: u32 = match m.duration {
                Some(d) => if d > 0 {
                    low_bits(d)
                } else {
                    1
                },
                None => 1,
            };
            return p.checked_add(duration as i64).is_some();
        }
    }
    true
}

impl FragTrackState {
    /// A track before its first packet.
    pub fn new(setup: TrackSetup, track_id: u32, protection: Option<CencSchemeDecision>) -> (r:
        FragTrackState)
        ensures
            r@ == new_track(setup, track_id, opt_decision(protection)),
            track_wf(r@),
    {
        let r: FragTrackState = FragTrackState {
            track_id,
            setup,
            protection,
            pending_senc: Vec::new(),
            pending_seig: Vec::new(),
            trex_default_sample_duration: 0,
            trex_default_sample_size: 0,
            trex_default_sample_flags: 0,
            trex_locked: false,
            pending: Vec::new(),
            next_bmdt: 0,
            packets_total: 0,
            tfra_entries: Vec::new(),
            first_pts_in_ts: None,
            prev_pts_in_ts: None,
            cumulative_duration: 0,
        };
        assert(r@ =~= new_track(setup, track_id, opt_decision(protection)));
        r
    }

    /// Take the sample defaults from the first sample.
    fn lock_trex(&mut self, duration: u32, size: u32, flags: u32)
        ensures
            final(self)@ == (TrackView {
                trex: if old(self)@.trex.locked {
                    old(self)@.trex
                } else {
                    TrexView { duration, size, flags, locked: true }
                },
                ..old(self)@
            }),
    {
        if self.trex_locked {
            return ;
        }
        self.trex_default_sample_duration = duration;
        self.trex_default_sample_size = size;
        self.trex_default_sample_flags = flags;
        self.trex_locked = true;
    }

    /// Add a sample to the next fragment.
    pub fn queue(
        &mut self,
        data: Vec<u8>,
        keyframe: bool,
        m: &MediaTimes,
        aux: Option<(SencSample, Option<SeigEntry>)>,
    )
        requires
            track_wf(old(self)@),
            track_takes(old(self)@, sample_duration(old(self)@.prev_pts, *m)),
            times_fit(old(self)@.prev_pts, *m),
            aux is Some ==> old(self)@.senc.len() == old(self)@.pending.len(),
            aux is None ==> old(self)@.senc.len() == 0,
        ensures
            final(self)@ == queued(old(self)@, data@, keyframe, *m, opt_aux(aux)),
            track_wf(final(self)@),
    {
        let ghost t = self@;
        let duration: u32 = find_duration(self.prev_pts_in_ts, m);
        let composition_time_offset: i32 = find_offset(m);
        let flags: u32 = sample_flags_for(keyframe);
        let size: u32 = low32(data.len());
        self.lock_trex(duration, size, flags);
        let sample: PendingSample = PendingSample {
            data,
            duration,
            flags,
            composition_time_offset,
        };
        let ghost s = sample@;
        self.pending.push(sample);
        proof {
            assert(sample_views(self.pending@) =~= t.pending.push(s));
            assert(t.pending.push(s).drop_last() =~= t.pending);
        }
        match aux {
            Some((senc, seig)) => {
                let ghost a = senc@;
                let ghost b = opt_seig(seig);
                self.pending_senc.push(senc);
                self.pending_seig.push(seig);
                assert(senc_views(self.pending_senc@) =~= t.senc.push(a));
                assert(seig_views(self.pending_seig@) =~= t.seig.push(b));
            },
            None => {},
        }
        match m.pts {
            Some(p) => {
                if self.first_pts_in_ts.is_none() {
                    self.first_pts_in_ts = Some(p);
                }
                self.prev_pts_in_ts = Some(p);
            },
            None => {
                let base: i64 = match self.prev_pts_in_ts {
                    Some(p) => p,
                    None => 0,
                };
                self.prev_pts_in_ts = Some(base + duration as i64);
                if self.first_pts_in_ts.is_none() {
                    self.first_pts_in_ts = Some(0);
                }
            },
        }
        self.cumulative_duration = self.cumulative_duration + duration as u64;
        self.packets_total = self.packets_total + 1;
        assert(self@ =~= queued(t, s.data, keyframe, *m, opt_aux(aux)));
    }
}

} // verus!
