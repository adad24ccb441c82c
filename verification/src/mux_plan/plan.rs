//! A whole plan, read from a recipe.

use crate::emsg::{emsg_wf, EmsgBox, EmsgTime, EmsgView};
use crate::mux_plan::order::{is_order, write_order, Slot};
use crate::mux_plan::tracks::{
    mjpeg_track, mjpeg_track_of, pcm_track, pcm_track_of, plan_views, track_plan_wf, StreamMedia,
    StreamPlan, TrackPlan, TrackPlanView,
};
use crate::recipe::{byte_of, chunk, lemma_past_past, past, word16_of, word32_of, Recipe};
use crate::text::plain;
use vstd::prelude::*;

verus! {

/// How many packets of one input are read back at most.
pub const MAX_PACKETS_PER_INPUT: usize = 256;

/// The brands of a planned file.
#[derive(Clone, Copy, Debug, PartialEq, Eq)]
pub enum PlanBrand {
    /// Those of an MP4 file.
    Mp4,
    /// Those of a QuickTime movie.
    Mov,
    /// Those of a smooth streaming file.
    Ismv,
}

/// Empty time in a planned file.
#[derive(Clone, Copy, Debug, PartialEq, Eq)]
pub struct Gap {
    /// The track.
    pub track: usize,
    /// The packet of the track that it follows.
    pub after: usize,
    /// How long it lasts, in ticks of the media clock.
    pub duration: u32,
}

/// The part of a plan that is about fragments.
#[derive(Clone, Debug, PartialEq, Eq)]
pub struct FragPlan {
    /// How many packets of the first track make a fragment.
    pub every: u32,
    /// Whether there are segment type boxes and random access tables.
    pub indexed: bool,
    /// Empty time, if there is any.
    pub gap: Option<Gap>,
    /// An event before the first fragment, if there is one.
    pub emsg: Option<EmsgBox>,
}

/// The value of a [`FragPlan`].
#[verifier::ext_equal]
pub struct FragPlanView {
    pub every: u32,
    pub indexed: bool,
    pub gap: Option<Gap>,
    pub emsg: Option<EmsgView>,
}

impl View for FragPlan {
    type V = FragPlanView;

    open spec fn view(&self) -> FragPlanView {
        FragPlanView {
            every: self.every,
            indexed: self.indexed,
            gap: self.gap,
            emsg: match self.emsg {
                Some(e) => Some(e@),
                None => None,
            },
        }
    }
}

/// A plan for a file, valid by construction.
pub struct MuxPlan {
    tracks: Vec<TrackPlan>,
    brand: PlanBrand,
    faststart: bool,
    frag: Option<FragPlan>,
    check_pts: bool,
}

/// The value of a [`MuxPlan`].
#[verifier::ext_equal]
pub struct PlanView {
    pub tracks: Seq<TrackPlanView>,
    pub brand: PlanBrand,
    pub faststart: bool,
    pub frag: Option<FragPlanView>,
    pub check_pts: bool,
}

impl View for MuxPlan {
    type V = PlanView;

    closed spec fn view(&self) -> PlanView {
        PlanView {
            tracks: plan_views(self.tracks@),
            brand: self.brand,
            faststart: self.faststart,
            frag: match self.frag {
                Some(f) => Some(f@),
                None => None,
            },
            check_pts: self.check_pts,
        }
    }
}

/// The tracks can be muxed, those of a fragmented file start at time 0,
/// empty time is on the first of them, and an event can be written.
pub open spec fn plan_wf(p: PlanView) -> bool {
    &&& 1 <= p.tracks.len() <= 2
    &&& forall|i: int| 0 <= i < p.tracks.len() ==> track_plan_wf(#[trigger] p.tracks[i], i)
    &&& p.frag matches Some(f) ==> {
        &&& forall|i: int|
            0 <= i < p.tracks.len() ==> (#[trigger] p.tracks[i]).packets[0].pts == Some(0i64)
        &&& f.every > 0
        &&& f.gap matches Some(g) ==> g.track == 0 && g.duration > 0
        &&& f.emsg matches Some(e) ==> emsg_wf(e)
    }
}

// ---------------------------------------------------------------------
// What a recipe says
// ---------------------------------------------------------------------

/// The tracks from `s` on, and what is left of `s`: PCM, and on demand a
/// second one.
pub open spec fn tracks_of(s: Seq<u8>, start_delay_ms: int) -> (Seq<TrackPlanView>, Seq<u8>) {
    let (first, rest) = pcm_track_of(past(s, 1), 0, start_delay_ms);
    if byte_of(s) % 2 == 0 {
        (seq![first], rest)
    } else {
        let (second, end) = if byte_of(rest) % 2 == 1 {
            mjpeg_track_of(past(rest, 1), 1, start_delay_ms)
        } else {
            pcm_track_of(past(rest, 1), 1, start_delay_ms)
        };
        (seq![first, second], end)
    }
}

/// Empty time from `s` on, if `s` asks for it, and what is left of `s`.
pub open spec fn gap_of(s: Seq<u8>, packets: nat) -> (Option<Gap>, Seq<u8>) {
    if byte_of(s) % 2 == 0 {
        (None, past(s, 1))
    } else {
        (
            Some(
                Gap {
                    track: 0,
                    after: (byte_of(past(s, 1)) as int % packets as int) as usize,
                    duration: (1 + word16_of(past(s, 2)) % 5_000) as u32,
                },
            ),
            past(s, 4),
        )
    }
}

/// An event from `s` on, if `s` asks for it, and what is left of `s`.
pub open spec fn event_of(s: Seq<u8>) -> (Option<EmsgView>, Seq<u8>) {
    if byte_of(s) % 2 == 0 {
        (None, past(s, 1))
    } else {
        let when = word32_of(past(s, 2));
        (
            Some(
                EmsgView {
                    scheme_id_uri: "urn:oxideav:fuzz"@,
                    value: "1"@,
                    timescale: 1_000,
                    presentation: if byte_of(past(s, 1)) % 2 == 1 {
                        EmsgTime::Absolute(when as u64)
                    } else {
                        EmsgTime::Delta(when)
                    },
                    event_duration: word32_of(past(s, 6)),
                    id: word32_of(past(s, 10)),
                    message_data: chunk(past(s, 14), 16),
                },
            ),
            past(s, 30),
        )
    }
}

/// The part about fragments from `s` on, and what is left of `s`.
pub open spec fn frag_of(s: Seq<u8>, indexed: bool, packets: nat) -> (FragPlanView, Seq<u8>) {
    let (gap, rest) = gap_of(past(s, 1), packets);
    let (emsg, end) = event_of(rest);
    (FragPlanView { every: (1 + byte_of(s) % 3) as u32, indexed, gap, emsg }, end)
}

/// The delay of all tracks of a file without fragments, in milliseconds,
/// and what is left of `s`.
pub open spec fn delay_of(s: Seq<u8>) -> (int, Seq<u8>) {
    if byte_of(s) % 2 == 1 {
        (10 * (byte_of(past(s, 1)) % 200) as int, past(s, 2))
    } else {
        (0, past(s, 1))
    }
}

/// The brands that a byte picks.
pub open spec fn brand_of(b: u8) -> PlanBrand {
    if b % 3 == 0 {
        PlanBrand::Mp4
    } else if b % 3 == 1 {
        PlanBrand::Mov
    } else {
        PlanBrand::Ismv
    }
}

/// The plan that a recipe holds, and what is left of it. The layout comes
/// first: plain, movie box in front, fragments, fragments with indexes.
pub open spec fn plan_of(s: Seq<u8>) -> (PlanView, Seq<u8>) {
    let layout = byte_of(s) % 4;
    let brand = brand_of(byte_of(past(s, 1)));
    let (delay, s1) = if layout < 2 {
        delay_of(past(s, 2))
    } else {
        (0, past(s, 2))
    };
    let (tracks, s2) = tracks_of(s1, delay);
    if layout < 2 {
        (PlanView { tracks, brand, faststart: layout == 1, frag: None, check_pts: true }, s2)
    } else {
        let (frag, end) = frag_of(s2, layout == 3, tracks[0].packets.len());
        (
            PlanView {
                tracks,
                brand,
                faststart: false,
                frag: Some(frag),
                check_pts: frag.gap is None,
            },
            end,
        )
    }
}

// ---------------------------------------------------------------------
// Reading
// ---------------------------------------------------------------------

/// Read the tracks.
fn read_tracks(r: &mut Recipe, start_delay_ms: i64) -> (t: Vec<TrackPlan>)
    requires
        0 <= start_delay_ms <= 2_000,
    ensures
        (plan_views(t@), final(r)@) == tracks_of(old(r)@, start_delay_ms as int),
        1 <= t@.len() <= 2,
        forall|i: int| 0 <= i < t@.len() ==> track_plan_wf(#[trigger] plan_views(t@)[i], i),
        start_delay_ms == 0 ==> forall|i: int|
            0 <= i < t@.len() ==> (#[trigger] plan_views(t@)[i]).packets[0].pts == Some(0i64),
{
    let two: bool = r.u8() % 2 == 1;
    let mut tracks: Vec<TrackPlan> = Vec::new();
    let first: TrackPlan = pcm_track(r, 0, start_delay_ms);
    let ghost a = first@;
    tracks.push(first);
    if two {
        let second: TrackPlan = if r.u8() % 2 == 1 {
            mjpeg_track(r, 1, start_delay_ms)
        } else {
            pcm_track(r, 1, start_delay_ms)
        };
        let ghost b = second@;
        tracks.push(second);
        assert(plan_views(tracks@) =~= seq![a, b]);
    } else {
        assert(plan_views(tracks@) =~= seq![a]);
    }
    tracks
}

/// Read empty time.
fn read_gap(r: &mut Recipe, packets: usize) -> (g: Option<Gap>)
    requires
        packets > 0,
    ensures
        (g, final(r)@) == gap_of(old(r)@, packets as nat),
        g matches Some(x) ==> x.track == 0 && x.duration > 0,
{
    let ghost s = r@;
    if r.u8() % 2 == 0 {
        return None;
    }
    let after: usize = r.u8() as usize % packets;
    let duration: u32 = 1 + (r.u16() % 5_000) as u32;
    proof {
        lemma_past_past(s, 1, 1);
        lemma_past_past(s, 2, 2);
    }
    Some(Gap { track: 0, after, duration })
}

/// Read an event.
fn read_event(r: &mut Recipe) -> (e: Option<EmsgBox>)
    ensures
        (match e {
            Some(x) => Some(x@),
            None => None,
        }, final(r)@) == event_of(old(r)@),
        e matches Some(x) ==> emsg_wf(x@),
{
    let ghost s = r@;
    if r.u8() % 2 == 0 {
        return None;
    }
    let absolute: bool = r.u8() % 2 == 1;
    let when: u32 = r.u32();
    let event_duration: u32 = r.u32();
    let id: u32 = r.u32();
    let message_data: Vec<u8> = r.take(16);
    proof {
        lemma_past_past(s, 1, 1);
        lemma_past_past(s, 2, 4);
        lemma_past_past(s, 6, 4);
        lemma_past_past(s, 10, 4);
        lemma_past_past(s, 14, 16);
        reveal_strlit("urn:oxideav:fuzz");
        reveal_strlit("1");
    }
    Some(
        EmsgBox {
            scheme_id_uri: plain("urn:oxideav:fuzz"),
            value: plain("1"),
            timescale: 1_000,
            presentation: if absolute {
                EmsgTime::Absolute(when as u64)
            } else {
                EmsgTime::Delta(when)
            },
            event_duration,
            id,
            message_data,
        },
    )
}

/// Read the part about fragments.
fn read_frag(r: &mut Recipe, indexed: bool, packets: usize) -> (f: FragPlan)
    requires
        packets > 0,
    ensures
        (f@, final(r)@) == frag_of(old(r)@, indexed, packets as nat),
        f@.every > 0,
        f@.gap matches Some(g) ==> g.track == 0 && g.duration > 0,
        f@.emsg matches Some(e) ==> emsg_wf(e),
{
    let every: u32 = 1 + (r.u8() % 3) as u32;
    let gap: Option<Gap> = read_gap(r, packets);
    let emsg: Option<EmsgBox> = read_event(r);
    FragPlan { every, indexed, gap, emsg }
}

/// Read the delay of a file without fragments.
fn read_delay(r: &mut Recipe) -> (d: i64)
    ensures
        (d as int, final(r)@) == delay_of(old(r)@),
        0 <= d <= 2_000,
{
    let ghost s = r@;
    if r.u8() % 2 == 1 {
        let d: i64 = 10 * (r.u8() % 200) as i64;
        proof {
            lemma_past_past(s, 1, 1);
        }
        d
    } else {
        0
    }
}

impl MuxPlan {
    /// The plan that a recipe holds.
    pub fn decode(r: &mut Recipe) -> (p: MuxPlan)
        ensures
            (p@, final(r)@) == plan_of(old(r)@),
            plan_wf(p@),
    {
        let ghost s = r@;
        let layout: u8 = r.u8() % 4;
        let brand: PlanBrand = match r.u8() % 3 {
            0 => PlanBrand::Mp4,
            1 => PlanBrand::Mov,
            _ => PlanBrand::Ismv,
        };
        proof {
            lemma_past_past(s, 1, 1);
        }
        let fragmented: bool = layout >= 2;
        let start_delay_ms: i64 = if fragmented {
            0
        } else {
            read_delay(r)
        };
        let tracks: Vec<TrackPlan> = read_tracks(r, start_delay_ms);
        assert(track_plan_wf(plan_views(tracks@)[0], 0));
        let mut check_pts: bool = true;
        let frag: Option<FragPlan> = if fragmented {
            let f: FragPlan = read_frag(r, layout == 3, tracks[0].packets.len());
            check_pts = f.gap.is_none();
            Some(f)
        } else {
            None
        };
        MuxPlan { tracks, brand, faststart: layout == 1, frag, check_pts }
    }

    /// How many tracks the plan has.
    pub fn n_tracks(&self) -> (n: usize)
        ensures
            n == self@.tracks.len(),
    {
        self.tracks.len()
    }

    /// Whether the file is to be fragmented.
    pub fn is_fragmented(&self) -> (b: bool)
        ensures
            b == self@.frag is Some,
    {
        self.frag.is_some()
    }

    /// Whether track `i` carries pictures.
    pub fn is_video(&self, i: usize) -> (b: bool)
        requires
            i < self@.tracks.len(),
        ensures
            b == self@.tracks[i as int].stream.media is Video,
    {
        assert(self@.tracks[i as int] == self.tracks@[i as int]@);
        match self.tracks[i].stream.media {
            StreamMedia::Video { .. } => true,
            StreamMedia::Audio { .. } => false,
        }
    }

    /// The tracks.
    pub fn tracks(&self) -> (t: &Vec<TrackPlan>)
        ensures
            plan_views(t@) == self@.tracks,
    {
        &self.tracks
    }

    /// The brands.
    pub fn brand(&self) -> (b: PlanBrand)
        ensures
            b == self@.brand,
    {
        self.brand
    }

    /// Whether the movie box is to be in front.
    pub fn faststart(&self) -> (b: bool)
        ensures
            b == self@.faststart,
    {
        self.faststart
    }

    /// The part about fragments.
    pub fn frag(&self) -> (f: &Option<FragPlan>)
        ensures
            match *f {
                Some(x) => self@.frag == Some(x@),
                None => self@.frag is None,
            },
    {
        &self.frag
    }

    /// Whether the times should come back.
    pub fn check_pts(&self) -> (b: bool)
        ensures
            b == self@.check_pts,
    {
        self.check_pts
    }

    /// The order in which the packets of all tracks are written, whatever
    /// the layout of the file.
    pub fn write_order(&self) -> (r: Vec<Slot>)
        requires
            plan_wf(self@),
        ensures
            is_order(self@.tracks, r@),
    {
        write_order(&self.tracks)
    }

    /// The stream of track `i`.
    pub fn stream(&self, i: usize) -> (s: StreamPlan)
        requires
            i < self@.tracks.len(),
        ensures
            s == self@.tracks[i as int].stream,
    {
        assert(self@.tracks[i as int] == self.tracks@[i as int]@);
        self.tracks[i].stream
    }
}

} // verus!
