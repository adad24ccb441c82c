//! What a recipe says about a plan, byte by byte.

use crate::emsg::EmsgTime;
use crate::mux_plan::order::{is_order, is_slot, micros, precedes, Slot};
use crate::mux_plan::plan::{event_of, frag_of, plan_of, tracks_of};
use crate::mux_plan::tracks::{
    frames_of, mjpeg_packets, mjpeg_track_of, pcm_packets, pcm_track_of, StreamMedia, TrackPlanView,
};
use crate::recipe::{
    byte_of, law_rest_goes_on, lemma_past_past, nth_byte, past, word16_of, word32_of,
};
use crate::time::TimeBase;
use vstd::prelude::*;

verus! {

/// The first byte of a plan picks the layout: plain, movie box in front,
/// fragments, fragments with indexes. The second picks the brands. A file
/// without fragments may start late, by 10 milliseconds times a byte below
/// 200; the tracks come next. Times can be compared unless there is empty
/// time.
pub proof fn law_plan_layout(s: Seq<u8>)
    ensures
        ({
            let p = plan_of(s).0;
            let layout = nth_byte(s, 0) % 4;
            &&& p.frag is Some <==> layout >= 2
            &&& p.faststart <==> layout == 1
            &&& p.frag matches Some(f) ==> (f.indexed <==> layout == 3)
            &&& p.check_pts <==> (p.frag matches Some(f) ==> f.gap is None)
            &&& nth_byte(s, 1) % 3 == 0 ==> p.brand is Mp4
            &&& nth_byte(s, 1) % 3 == 1 ==> p.brand is Mov
            &&& nth_byte(s, 1) % 3 == 2 ==> p.brand is Ismv
            &&& layout >= 2 ==> p.tracks == tracks_of(past(s, 2), 0).0
            &&& layout < 2 && nth_byte(s, 2) % 2 == 0 ==> p.tracks == tracks_of(past(s, 3), 0).0
            &&& layout < 2 && nth_byte(s, 2) % 2 == 1 ==> p.tracks == tracks_of(
                past(s, 4),
                10 * (nth_byte(s, 3) % 200),
            ).0
            &&& p.frag matches Some(f) ==> f == frag_of(
                tracks_of(past(s, 2), 0).1,
                layout == 3,
                p.tracks[0].packets.len(),
            ).0
        }),
{
    assert(past(s, 0) =~= s);
    law_rest_goes_on(s, 0, 0);
    law_rest_goes_on(s, 1, 0);
    law_rest_goes_on(s, 2, 0);
    law_rest_goes_on(s, 3, 0);
    lemma_past_past(s, 2, 1);
    lemma_past_past(s, 2, 2);
}

/// An odd byte before the tracks asks for a second one. The first is sound.
/// The second is led by a byte of its own, and is pictures where that is odd
/// and sound where it is even. Both start equally late.
pub proof fn law_tracks_layout(s: Seq<u8>, delay: int)
    ensures
        ({
            let tracks = tracks_of(s, delay).0;
            let (first, rest) = pcm_track_of(past(s, 1), 0, delay);
            &&& tracks.len() == 1 + nth_byte(s, 0) % 2
            &&& tracks[0] == first
            &&& nth_byte(s, 0) % 2 == 1 && nth_byte(rest, 0) % 2 == 1 ==> tracks[1]
                == mjpeg_track_of(past(rest, 1), 1, delay).0
            &&& nth_byte(s, 0) % 2 == 1 && nth_byte(rest, 0) % 2 == 0 ==> tracks[1]
                == pcm_track_of(past(rest, 1), 1, delay).0
        }),
{
}

/// The part about fragments: one to three packets a fragment by the first
/// byte; empty time, if the next byte is odd, behind one of the packets of
/// the first track and of 1 to 5000 ticks; and behind that an event.
pub proof fn law_fragments_layout(s: Seq<u8>, indexed: bool, packets: nat)
    requires
        packets > 0,
    ensures
        ({
            let f = frag_of(s, indexed, packets).0;
            &&& f.every == 1 + nth_byte(s, 0) % 3
            &&& f.indexed == indexed
            &&& f.gap is Some <==> nth_byte(s, 1) % 2 == 1
            &&& f.gap matches Some(g) ==> {
                &&& g.track == 0
                &&& g.after == nth_byte(s, 2) as int % packets as int
                &&& g.duration == 1 + (0x100 * nth_byte(s, 3) + nth_byte(s, 4)) % 5_000
            }
            &&& f.emsg == event_of(
                past(
                    s,
                    if nth_byte(s, 1) % 2 == 1 {
                        5
                    } else {
                        2
                    },
                ),
            ).0
        }),
{
    assert(past(s, 0) =~= s);
    law_rest_goes_on(s, 0, 0);
    law_rest_goes_on(s, 1, 0);
    law_rest_goes_on(s, 2, 0);
    law_rest_goes_on(s, 3, 0);
    law_rest_goes_on(s, 4, 0);
    lemma_past_past(s, 1, 1);
    lemma_past_past(s, 1, 2);
    lemma_past_past(s, 1, 4);
    lemma_past_past(s, 3, 1);
    let b = nth_byte(s, 2) as int;
    let n = packets as int;
    assert(0 <= b % n <= b) by (nonlinear_arith)
        requires
            b >= 0,
            n > 0,
    ;
}

/// An event is there if its first byte is odd. The second says whether its
/// time is one of its own or counted from its segment, and then follow the
/// time, the duration and the number in 32 bits each and up to 16 bytes of
/// message.
pub proof fn law_event_layout(s: Seq<u8>)
    ensures
        event_of(s).0 is Some <==> nth_byte(s, 0) % 2 == 1,
        event_of(s).0 matches Some(e) ==> {
            let when = word32_of(past(s, 2));
            &&& e.timescale == 1_000
            &&& nth_byte(s, 1) % 2 == 1 ==> e.presentation == EmsgTime::Absolute(when as u64)
            &&& nth_byte(s, 1) % 2 == 0 ==> e.presentation == EmsgTime::Delta(when)
            &&& e.event_duration == word32_of(past(s, 6))
            &&& e.id == word32_of(past(s, 10))
            &&& e.message_data.len() <= 16
            &&& forall|i: int|
                0 <= i < e.message_data.len() ==> #[trigger] e.message_data[i] == nth_byte(s, 14 + i)
            &&& s.len() >= 30 ==> e.message_data.len() == 16
        },
{
    assert(past(s, 0) =~= s);
    law_rest_goes_on(s, 0, 0);
    law_rest_goes_on(s, 1, 0);
}

/// The packets of a sound track follow each other: each lasts 1 to 64
/// samples, is a keyframe, and has two bytes for every sample of every
/// channel.
pub proof fn law_pcm_packets(
    s: Seq<u8>,
    n: nat,
    index: u32,
    channels: u16,
    rate: u32,
    pts: int,
    k: int,
)
    requires
        0 <= pts,
        pts + 64 * n <= i64::MAX,
        0 <= k < n,
    ensures
        ({
            let p = pcm_packets(s, n, index, channels, rate, pts).0;
            &&& p.len() == n
            &&& p[0].pts == Some(pts as i64)
            &&& k + 1 < n ==> p[k + 1].pts->0 == p[k].pts->0 + p[k].duration->0
            &&& p[k].pts is Some && p[k].dts == p[k].pts && p[k].duration is Some
            &&& 1 <= p[k].duration->0 <= 64
            &&& p[k].data.len() == 2 * channels * p[k].duration->0
            &&& p[k].keyframe
            &&& p[k].stream_index == index
            &&& p[k].time_base == (TimeBase { num: 1, den: rate as i64 })
        }),
    decreases n,
{
    let frames = frames_of(byte_of(s));
    let len = frames * channels as nat * 2;
    let (more, _end) = pcm_packets(
        past(s, 1 + len),
        (n - 1) as nat,
        index,
        channels,
        rate,
        pts + frames,
    );
    let p = pcm_packets(s, n, index, channels, rate, pts).0;
    assert(len == 2 * channels * frames) by (nonlinear_arith)
        requires
            len == frames * channels as nat * 2,
    ;
    if n > 1 {
        law_pcm_packets(
            past(s, 1 + len),
            (n - 1) as nat,
            index,
            channels,
            rate,
            pts + frames,
            if k > 0 {
                k - 1
            } else {
                0
            },
        );
        assert(p[1] == more[0]);
        if k > 0 {
            assert(p[k] == more[k - 1]);
            if k + 1 < n {
                assert(p[k + 1] == more[k]);
            }
        }
    }
}

/// A sound track: one or two channels by the first byte, the sample rate by
/// the second, one to six packets by the third, on a clock of that rate, and
/// from its start delay on, in whole samples.
pub proof fn law_pcm_track_layout(s: Seq<u8>, index: u32, delay: int)
    ensures
        ({
            let t = pcm_track_of(s, index, delay).0;
            let channels = 1 + nth_byte(s, 0) % 2;
            let rate = if nth_byte(s, 1) % 4 == 0 {
                8_000u32
            } else if nth_byte(s, 1) % 4 == 1 {
                16_000u32
            } else if nth_byte(s, 1) % 4 == 2 {
                44_100u32
            } else {
                48_000u32
            };
            &&& t.ticks_per_sec == rate
            &&& t.stream.index == index
            &&& t.stream.time_base == (TimeBase { num: 1, den: rate as i64 })
            &&& t.stream.media == (StreamMedia::Audio {
                channels: channels as u16,
                sample_rate: rate,
            })
            &&& t.packets == pcm_packets(
                past(s, 3),
                (1 + nth_byte(s, 2) % 6) as nat,
                index,
                channels as u16,
                rate,
                delay * rate / 1_000,
            ).0
        }),
{
    assert(past(s, 0) =~= s);
    law_rest_goes_on(s, 0, 0);
    law_rest_goes_on(s, 1, 0);
    law_rest_goes_on(s, 2, 0);
}

/// The packets of a picture track follow each other: each lasts 30 to 41
/// milliseconds on a clock of 90 000 ticks a second and has 1 to 1024 bytes,
/// and the first is a keyframe.
pub proof fn law_mjpeg_packets(s: Seq<u8>, n: nat, index: u32, pts: int, opens: bool, k: int)
    requires
        0 <= pts,
        pts + 4_000 * n <= i64::MAX,
        0 <= k < n,
    ensures
        ({
            let p = mjpeg_packets(s, n, index, pts, opens).0;
            &&& p.len() == n
            &&& p[0].pts == Some(pts as i64)
            &&& opens ==> p[0].keyframe
            &&& k + 1 < n ==> p[k + 1].pts->0 == p[k].pts->0 + p[k].duration->0
            &&& p[k].pts is Some && p[k].dts == p[k].pts && p[k].duration is Some
            &&& p[k].duration->0 as int % 90 == 0
            &&& 2_700 <= p[k].duration->0 <= 3_690
            &&& 1 <= p[k].data.len() <= 1_024
            &&& p[k].stream_index == index
            &&& p[k].time_base == (TimeBase { num: 1, den: 90_000 })
        }),
    decreases n,
{
    let len = (1 + word16_of(s) % 1024) as nat;
    let tail = past(s, 2 + len);
    let duration = 90 * (30 + byte_of(tail) % 12);
    let said = past(tail, 1);
    let rest = if opens {
        said
    } else {
        past(said, 1)
    };
    let more = mjpeg_packets(rest, (n - 1) as nat, index, pts + duration, false).0;
    let p = mjpeg_packets(s, n, index, pts, opens).0;
    if n > 1 {
        law_mjpeg_packets(
            rest,
            (n - 1) as nat,
            index,
            pts + duration,
            false,
            if k > 0 {
                k - 1
            } else {
                0
            },
        );
        assert(p[1] == more[0]);
        if k > 0 {
            assert(p[k] == more[k - 1]);
            if k + 1 < n {
                assert(p[k + 1] == more[k]);
            }
        }
    }
}

/// A picture track: 16 to 79 points wide and high by the first two bytes,
/// one to six pictures by the third, and from its start delay on.
pub proof fn law_mjpeg_track_layout(s: Seq<u8>, index: u32, delay: int)
    ensures
        ({
            let t = mjpeg_track_of(s, index, delay).0;
            &&& t.ticks_per_sec == 90_000
            &&& t.stream.index == index
            &&& t.stream.time_base == (TimeBase { num: 1, den: 90_000 })
            &&& t.stream.media == (StreamMedia::Video {
                width: (16 + nth_byte(s, 0) % 64) as u32,
                height: (16 + nth_byte(s, 1) % 64) as u32,
            })
            &&& t.packets == mjpeg_packets(
                past(s, 3),
                (1 + nth_byte(s, 2) % 6) as nat,
                index,
                90 * delay,
                true,
            ).0
        }),
{
    assert(past(s, 0) =~= s);
    law_rest_goes_on(s, 0, 0);
    law_rest_goes_on(s, 1, 0);
    law_rest_goes_on(s, 2, 0);
}

/// The packets of a plan are written in the order in which they are
/// presented, to the microsecond; those of the same microsecond in the order
/// of their tracks, and of one track in its order. Each is written once.
pub proof fn law_write_order(t: Seq<TrackPlanView>, o: Seq<Slot>, i: int, j: int)
    requires
        is_order(t, o),
        0 <= i < j < o.len(),
    ensures
        ({
            let a = t[o[i].track as int];
            let b = t[o[j].track as int];
            let first = a.packets[o[i].packet as int].pts->0 * 1_000_000 / (a.ticks_per_sec as int);
            let second = b.packets[o[j].packet as int].pts->0 * 1_000_000 / (b.ticks_per_sec as int);
            &&& o[i].track < t.len() && o[i].packet < a.packets.len()
            &&& o[i] != o[j]
            &&& first <= second
            &&& first == second ==> o[i].track <= o[j].track
            &&& first == second && o[i].track == o[j].track ==> o[i].packet < o[j].packet
        }),
        forall|s: Slot|
            s.track < t.len() && s.packet < t[s.track as int].packets.len() ==> #[trigger] o.contains(
                s,
            ),
{
    assert(o.contains(o[i]));
    assert(is_slot(t, o[i]));
    assert(precedes(t, o[i], o[j]));
    assert(micros(t, o[i]) <= micros(t, o[j]));
    assert forall|s: Slot|
        s.track < t.len() && s.packet < t[s.track as int].packets.len() implies #[trigger] o.contains(
        s,
    ) by {
        assert(is_slot(t, s));
    }
}

} // verus!
