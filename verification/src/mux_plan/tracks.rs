//! The tracks of a plan, read from a recipe.

use crate::frag::track::{packet_views, Packet, PacketView};
use crate::recipe::{
    byte_of, chunk, lemma_past_past, past, resize, resized, word16_of, Recipe,
};
use crate::time::TimeBase;
use vstd::prelude::*;

verus! {

/// What a stream carries.
#[derive(Clone, Copy, Debug, PartialEq, Eq)]
pub enum StreamMedia {
    /// 16-bit PCM.
    Audio {
        /// How many channels.
        channels: u16,
        /// Samples per second.
        sample_rate: u32,
    },
    /// Pictures.
    Video {
        /// How wide they are.
        width: u32,
        /// How high they are.
        height: u32,
    },
}

/// A stream of a plan.
#[derive(Clone, Copy, Debug, PartialEq, Eq)]
pub struct StreamPlan {
    /// Its number, from 0.
    pub index: u32,
    /// Seconds per tick of the times of its packets.
    pub time_base: TimeBase,
    /// What it carries.
    pub media: StreamMedia,
}

/// A track of a plan.
#[derive(Clone, Debug, PartialEq, Eq)]
pub struct TrackPlan {
    /// Its stream.
    pub stream: StreamPlan,
    /// Its packets, in order.
    pub packets: Vec<Packet>,
    /// Ticks per second of the times of its packets.
    pub ticks_per_sec: i64,
}

/// The value of a [`TrackPlan`].
#[verifier::ext_equal]
pub struct TrackPlanView {
    pub stream: StreamPlan,
    pub packets: Seq<PacketView>,
    pub ticks_per_sec: i64,
}

impl View for TrackPlan {
    type V = TrackPlanView;

    open spec fn view(&self) -> TrackPlanView {
        TrackPlanView {
            stream: self.stream,
            packets: packet_views(self.packets@),
            ticks_per_sec: self.ticks_per_sec,
        }
    }
}

/// The values of tracks.
pub open spec fn plan_views(t: Seq<TrackPlan>) -> Seq<TrackPlanView> {
    Seq::new(t.len(), |i: int| t[i]@)
}

/// The most packets of a track.
pub const MOST_PACKETS: usize = 6;

/// The latest that a packet of a plan is presented, in ticks.
pub const LATEST: i64 = 1_000_000;

/// A track that a plan can have as its number `i`: it has packets, and each
/// says when it is presented and decoded, which is the same, and how long it
/// lasts. No packet is presented before the one ahead of it.
pub open spec fn track_plan_wf(t: TrackPlanView, i: int) -> bool {
    &&& t.stream.index == i
    &&& t.ticks_per_sec > 0
    &&& 0 < t.packets.len() <= MOST_PACKETS
    &&& forall|k: int|
        0 <= k < t.packets.len() ==> packet_plan_wf(#[trigger] t.packets[k], i)
    &&& in_time(t.packets)
    &&& forall|k: int| 0 <= k < t.packets.len() - 1 ==> #[trigger] follows(t.packets, k)
    &&& clock_fits(t)
}

/// A packet is presented when the one before it ends.
pub open spec fn follows(p: Seq<PacketView>, k: int) -> bool {
    p[k + 1].pts->0 == p[k].pts->0 + p[k].duration->0
}

/// Ticks per second of the media clock that a track is written with.
pub open spec fn media_rate(t: TrackPlanView) -> u32 {
    match t.stream.media {
        StreamMedia::Audio { sample_rate, .. } => sample_rate,
        StreamMedia::Video { .. } => 1_000,
    }
}

/// The times of a track are whole ticks of its media clock, and every packet
/// lasts at least one: sound is counted in samples, pictures in multiples of
/// a millisecond.
pub open spec fn clock_fits(t: TrackPlanView) -> bool {
    &&& t.stream.time_base == (TimeBase { num: 1, den: t.ticks_per_sec })
    &&& match t.stream.media {
        StreamMedia::Audio { sample_rate, .. } => t.ticks_per_sec == sample_rate && sample_rate
            > 0,
        StreamMedia::Video { .. } => t.ticks_per_sec == 90_000,
    }
    &&& forall|k: int|
        0 <= k < t.packets.len() ==> whole_ticks(#[trigger] t.packets[k], t.ticks_per_sec, unit_of(
            t.stream.media,
        ))
}

/// How many ticks of its packets a track counts as one.
pub open spec fn unit_of(m: StreamMedia) -> int {
    match m {
        StreamMedia::Audio { .. } => 1,
        StreamMedia::Video { .. } => 90,
    }
}

/// The times of a packet are multiples of `unit`, and it lasts for some.
pub open spec fn whole_ticks(p: PacketView, ticks_per_sec: i64, unit: int) -> bool {
    &&& p.time_base == (TimeBase { num: 1, den: ticks_per_sec })
    &&& p.pts->0 as int % unit == 0
    &&& p.duration->0 as int % unit == 0
    &&& unit <= p.duration->0 <= 4_000
}

/// No packet is presented before the one ahead of it.
pub open spec fn in_time(p: Seq<PacketView>) -> bool {
    forall|j: int, k: int|
        0 <= j < k < p.len() ==> (#[trigger] p[j]).pts->0 <= (#[trigger] p[k]).pts->0
}

/// A packet that a plan can have on its track number `i`.
pub open spec fn packet_plan_wf(p: PacketView, i: int) -> bool {
    &&& p.stream_index == i
    &&& p.pts is Some
    &&& 0 <= p.pts->0 <= LATEST
    &&& p.dts == p.pts
    &&& p.duration is Some
}

/// A packet of a plan.
pub open spec fn plan_packet(
    index: u32,
    ticks_per_sec: i64,
    pts: int,
    duration: int,
    keyframe: bool,
    data: Seq<u8>,
) -> PacketView {
    PacketView {
        stream_index: index,
        time_base: TimeBase { num: 1, den: ticks_per_sec },
        pts: Some(pts as i64),
        dts: Some(pts as i64),
        duration: Some(duration as i64),
        keyframe,
        data,
    }
}

/// A packet of a plan.
fn build_packet(
    index: u32,
    ticks_per_sec: i64,
    pts: i64,
    duration: i64,
    keyframe: bool,
    data: Vec<u8>,
) -> (r: Packet)
    ensures
        r@ == plan_packet(index, ticks_per_sec, pts as int, duration as int, keyframe, data@),
{
    Packet {
        stream_index: index,
        time_base: TimeBase { num: 1, den: ticks_per_sec },
        pts: Some(pts),
        dts: Some(pts),
        duration: Some(duration),
        keyframe,
        data,
    }
}

/// Packets of track number `i` that follow each other without a gap, at
/// whole ticks of the media clock, and end at `pts`.
#[verifier::opaque]
spec fn packet_run(
    p: Seq<PacketView>,
    i: int,
    ticks_per_sec: i64,
    unit: int,
    pts: int,
) -> bool {
    &&& forall|j: int| 0 <= j < p.len() ==> packet_plan_wf(#[trigger] p[j], i)
    &&& forall|j: int| 0 <= j < p.len() ==> (#[trigger] p[j]).pts->0 <= pts
    &&& in_time(p)
    &&& forall|j: int| 0 <= j < p.len() - 1 ==> #[trigger] follows(p, j)
    &&& p.len() > 0 ==> p.last().pts->0 + p.last().duration->0 == pts
    &&& forall|j: int| 0 <= j < p.len() ==> whole_ticks(#[trigger] p[j], ticks_per_sec, unit)
}

/// No packets are a run.
proof fn lemma_no_run(i: int, ticks_per_sec: i64, unit: int, pts: int)
    ensures
        packet_run(Seq::empty(), i, ticks_per_sec, unit, pts),
{
    reveal(packet_run);
}

/// A run goes on with a packet at its end.
proof fn lemma_run_grows(
    p: Seq<PacketView>,
    next: PacketView,
    i: int,
    ticks_per_sec: i64,
    unit: int,
    pts: int,
)
    requires
        packet_run(p, i, ticks_per_sec, unit, pts),
        packet_plan_wf(next, i),
        whole_ticks(next, ticks_per_sec, unit),
        next.pts->0 == pts,
        unit > 0,
    ensures
        packet_run(p.push(next), i, ticks_per_sec, unit, pts + next.duration->0),
{
    reveal(packet_run);
    let all = p.push(next);
    assert forall|j: int| 0 <= j < all.len() - 1 implies #[trigger] follows(all, j) by {
        if j < p.len() - 1 {
            assert(follows(p, j));
        }
        assert(all[j] == p[j]);
    }
}

// ---------------------------------------------------------------------
// PCM
// ---------------------------------------------------------------------

/// The sample rate that a byte picks.
pub open spec fn rate_of(b: u8) -> u32 {
    if b % 4 == 0 {
        8_000
    } else if b % 4 == 1 {
        16_000
    } else if b % 4 == 2 {
        44_100
    } else {
        48_000
    }
}

/// How many frames a byte asks for.
pub open spec fn frames_of(b: u8) -> nat {
    (1 + b % 64) as nat
}

/// `n` packets of PCM from `s` on, the first presented at `pts`, and what is
/// left of `s`.
pub open spec fn pcm_packets(
    s: Seq<u8>,
    n: nat,
    index: u32,
    channels: u16,
    rate: u32,
    pts: int,
) -> (Seq<PacketView>, Seq<u8>)
    decreases n,
{
    if n == 0 {
        (Seq::empty(), s)
    } else {
        let frames = frames_of(byte_of(s));
        let len = frames * channels as nat * 2;
        let data = resized(chunk(past(s, 1), len), len, 0x5a);
        let first = plan_packet(index, rate as i64, pts, frames as int, true, data);
        let (more, end) = pcm_packets(
            past(s, 1 + len),
            (n - 1) as nat,
            index,
            channels,
            rate,
            pts + frames,
        );
        (seq![first] + more, end)
    }
}

/// A PCM track from `s` on, and what is left of `s`.
pub open spec fn pcm_track_of(s: Seq<u8>, index: u32, start_delay_ms: int) -> (
    TrackPlanView,
    Seq<u8>,
) {
    let channels = (1 + byte_of(s) % 2) as u16;
    let rate = rate_of(byte_of(past(s, 1)));
    let n = (1 + byte_of(past(s, 2)) % 6) as nat;
    let (packets, end) = pcm_packets(
        past(s, 3),
        n,
        index,
        channels,
        rate,
        start_delay_ms * rate / 1_000,
    );
    (
        TrackPlanView {
            stream: StreamPlan {
                index,
                time_base: TimeBase { num: 1, den: rate as i64 },
                media: StreamMedia::Audio { channels, sample_rate: rate },
            },
            packets,
            ticks_per_sec: rate as i64,
        },
        end,
    )
}

/// Read the packets of a PCM track.
fn read_pcm_packets(
    r: &mut Recipe,
    n: usize,
    index: u32,
    channels: u16,
    rate: u32,
    start: i64,
) -> (packets: Vec<Packet>)
    requires
        n <= MOST_PACKETS,
        1 <= channels <= 2,
        rate <= 48_000,
        0 <= start <= 100_000,
    ensures
        (packet_views(packets@), final(r)@) == pcm_packets(
            old(r)@,
            n as nat,
            index,
            channels,
            rate,
            start as int,
        ),
        packets@.len() == n,
        forall|k: int|
            0 <= k < n ==> packet_plan_wf(#[trigger] packet_views(packets@)[k], index as int),
        in_time(packet_views(packets@)),
        forall|k: int| 0 <= k < n - 1 ==> #[trigger] follows(packet_views(packets@), k),
        forall|k: int|
            0 <= k < n ==> whole_ticks(#[trigger] packet_views(packets@)[k], rate as i64, 1),
{
    let ghost all = pcm_packets(r@, n as nat, index, channels, rate, start as int);
    let mut packets: Vec<Packet> = Vec::new();
    let mut pts: i64 = start;
    let mut k: usize = 0;
    assert(all.0 =~= packet_views(packets@) + all.0);
    proof {
        lemma_no_run(index as int, rate as i64, 1, pts as int);
        assert(packet_views(packets@) =~= Seq::empty());
    }
    while k < n
        invariant
            k <= n <= MOST_PACKETS,
            1 <= channels <= 2,
            rate <= 48_000,
            packets@.len() == k,
            0 <= pts <= 100_000 + 64 * k,
            all.0 == packet_views(packets@) + pcm_packets(
                r@,
                (n - k) as nat,
                index,
                channels,
                rate,
                pts as int,
            ).0,
            all.1 == pcm_packets(r@, (n - k) as nat, index, channels, rate, pts as int).1,
            packet_run(packet_views(packets@), index as int, rate as i64, 1, pts as int),
        decreases n - k,
    {
        let ghost s = r@;
        let ghost before = packet_views(packets@);
        let frames: usize = 1 + (r.u8() % 64) as usize;
        assert(frames * channels <= 128) by (nonlinear_arith)
            requires
                1 <= frames <= 64,
                1 <= channels <= 2,
        ;
        let len: usize = frames * channels as usize * 2;
        let payload: Vec<u8> = resize(r.take(len), len, 0x5a);
        proof {
            lemma_past_past(s, 1, len as nat);
        }
        let p: Packet = build_packet(index, rate as i64, pts, frames as i64, true, payload);
        let ghost first = p@;
        packets.push(p);
        proof {
            let rest = pcm_packets(
                r@,
                (n - k - 1) as nat,
                index,
                channels,
                rate,
                pts + frames,
            ).0;
            let views = packet_views(packets@);
            assert(views =~= before.push(first));
            lemma_run_grows(before, first, index as int, rate as i64, 1, pts as int);
            assert(before + (seq![first] + rest) =~= packet_views(packets@) + rest);
        }
        pts = pts + frames as i64;
        k = k + 1;
    }
    assert(all.0 =~= packet_views(packets@));
    reveal(packet_run);
    packets
}

/// Read a PCM track. Its times are whole ticks of every rate that it can
/// have, since the delay is a multiple of ten milliseconds.
pub(crate) fn pcm_track(r: &mut Recipe, index: u32, start_delay_ms: i64) -> (t: TrackPlan)
    requires
        0 <= start_delay_ms <= 2_000,
    ensures
        (t@, final(r)@) == pcm_track_of(old(r)@, index, start_delay_ms as int),
        track_plan_wf(t@, index as int),
        start_delay_ms == 0 ==> t@.packets[0].pts == Some(0i64),
{
    let ghost s = r@;
    let channels: u16 = 1 + (r.u8() % 2) as u16;
    let b: u8 = r.u8();
    let rate: u32 = match b % 4 {
        0 => 8_000,
        1 => 16_000,
        2 => 44_100,
        _ => 48_000,
    };
    let n: usize = 1 + (r.u8() % 6) as usize;
    proof {
        lemma_past_past(s, 1, 1);
        lemma_past_past(s, 2, 1);
        assert(0 <= start_delay_ms * rate <= 2_000 * 48_000) by (nonlinear_arith)
            requires
                0 <= start_delay_ms <= 2_000,
                rate <= 48_000,
        ;
    }
    let start: i64 = start_delay_ms * rate as i64 / 1_000;
    let packets: Vec<Packet> = read_pcm_packets(r, n, index, channels, rate, start);
    TrackPlan {
        stream: StreamPlan {
            index,
            time_base: TimeBase { num: 1, den: rate as i64 },
            media: StreamMedia::Audio { channels, sample_rate: rate },
        },
        packets,
        ticks_per_sec: rate as i64,
    }
}

// ---------------------------------------------------------------------
// Pictures
// ---------------------------------------------------------------------

/// `n` pictures from `s` on, the first presented at `pts`, and what is left
/// of `s`. A picture that `opens` the track is a keyframe; the others say.
pub open spec fn mjpeg_packets(s: Seq<u8>, n: nat, index: u32, pts: int, opens: bool) -> (
    Seq<PacketView>,
    Seq<u8>,
)
    decreases n,
{
    if n == 0 {
        (Seq::empty(), s)
    } else {
        let len = (1 + word16_of(s) % 1024) as nat;
        let data = resized(chunk(past(s, 2), len), len, 0xd8);
        let tail = past(s, 2 + len);
        let duration = 90 * (30 + byte_of(tail) % 12);
        let said = past(tail, 1);
        let keyframe = opens || byte_of(said) % 2 == 1;
        let first = plan_packet(index, 90_000, pts, duration as int, keyframe, data);
        let (more, end) = mjpeg_packets(
            if opens {
                said
            } else {
                past(said, 1)
            },
            (n - 1) as nat,
            index,
            pts + duration,
            false,
        );
        (seq![first] + more, end)
    }
}

/// A track of pictures from `s` on, and what is left of `s`.
pub open spec fn mjpeg_track_of(s: Seq<u8>, index: u32, start_delay_ms: int) -> (
    TrackPlanView,
    Seq<u8>,
) {
    let width = (16 + byte_of(s) % 64) as u32;
    let height = (16 + byte_of(past(s, 1)) % 64) as u32;
    let n = (1 + byte_of(past(s, 2)) % 6) as nat;
    let (packets, end) = mjpeg_packets(past(s, 3), n, index, start_delay_ms * 90, true);
    (
        TrackPlanView {
            stream: StreamPlan {
                index,
                time_base: TimeBase { num: 1, den: 90_000 },
                media: StreamMedia::Video { width, height },
            },
            packets,
            ticks_per_sec: 90_000,
        },
        end,
    )
}

/// Read the packets of a track of pictures.
fn read_mjpeg_packets(r: &mut Recipe, n: usize, index: u32, start: i64) -> (packets: Vec<Packet>)
    requires
        n <= MOST_PACKETS,
        0 <= start <= 200_000,
        start % 90 == 0,
    ensures
        (packet_views(packets@), final(r)@) == mjpeg_packets(
            old(r)@,
            n as nat,
            index,
            start as int,
            true,
        ),
        packets@.len() == n,
        forall|k: int|
            0 <= k < n ==> packet_plan_wf(#[trigger] packet_views(packets@)[k], index as int),
        in_time(packet_views(packets@)),
        forall|k: int| 0 <= k < n - 1 ==> #[trigger] follows(packet_views(packets@), k),
        forall|k: int|
            0 <= k < n ==> whole_ticks(#[trigger] packet_views(packets@)[k], 90_000, 90),
{
    let ghost all = mjpeg_packets(r@, n as nat, index, start as int, true);
    let mut packets: Vec<Packet> = Vec::new();
    let mut pts: i64 = start;
    let mut k: usize = 0;
    assert(all.0 =~= packet_views(packets@) + all.0);
    proof {
        lemma_no_run(index as int, 90_000, 90, pts as int);
        assert(packet_views(packets@) =~= Seq::empty());
    }
    while k < n
        invariant
            k <= n <= MOST_PACKETS,
            packets@.len() == k,
            0 <= pts <= 200_000 + 4_000 * k,
            all.0 == packet_views(packets@) + mjpeg_packets(
                r@,
                (n - k) as nat,
                index,
                pts as int,
                k == 0,
            ).0,
            all.1 == mjpeg_packets(r@, (n - k) as nat, index, pts as int, k == 0).1,
            packet_run(packet_views(packets@), index as int, 90_000, 90, pts as int),
            pts % 90 == 0,
        decreases n - k,
    {
        let ghost s = r@;
        let ghost before = packet_views(packets@);
        let len: usize = 1 + (r.u16() % 1024) as usize;
        let payload: Vec<u8> = resize(r.take(len), len, 0xd8);
        proof {
            lemma_past_past(s, 2, len as nat);
        }
        let duration: i64 = 90 * (30 + (r.u8() % 12) as i64);
        let keyframe: bool = k == 0 || r.u8() % 2 == 1;
        let p: Packet = build_packet(index, 90_000, pts, duration, keyframe, payload);
        let ghost first = p@;
        packets.push(p);
        proof {
            let rest = mjpeg_packets(
                r@,
                (n - k - 1) as nat,
                index,
                pts + duration,
                false,
            ).0;
            let views = packet_views(packets@);
            assert(views =~= before.push(first));
            lemma_run_grows(before, first, index as int, 90_000, 90, pts as int);
            assert(before + (seq![first] + rest) =~= packet_views(packets@) + rest);
        }
        pts = pts + duration;
        k = k + 1;
    }
    assert(all.0 =~= packet_views(packets@));
    reveal(packet_run);
    packets
}

/// Read a track of pictures. Its times are whole milliseconds.
pub(crate) fn mjpeg_track(r: &mut Recipe, index: u32, start_delay_ms: i64) -> (t: TrackPlan)
    requires
        0 <= start_delay_ms <= 2_000,
    ensures
        (t@, final(r)@) == mjpeg_track_of(old(r)@, index, start_delay_ms as int),
        track_plan_wf(t@, index as int),
        start_delay_ms == 0 ==> t@.packets[0].pts == Some(0i64),
{
    let ghost s = r@;
    let width: u32 = 16 + (r.u8() % 64) as u32;
    let height: u32 = 16 + (r.u8() % 64) as u32;
    let n: usize = 1 + (r.u8() % 6) as usize;
    proof {
        lemma_past_past(s, 1, 1);
        lemma_past_past(s, 2, 1);
    }
    let start: i64 = start_delay_ms * 90;
    let packets: Vec<Packet> = read_mjpeg_packets(r, n, index, start);
    TrackPlan {
        stream: StreamPlan {
            index,
            time_base: TimeBase { num: 1, den: 90_000 },
            media: StreamMedia::Video { width, height },
        },
        packets,
        ticks_per_sec: 90_000,
    }
}

} // verus!
