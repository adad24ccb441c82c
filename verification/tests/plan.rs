//! Recipes and the plans that they hold.

use oxideav_mp4::frag::TrackSetup;
use oxideav_mp4::mux_plan::{
    Gap, MuxPlan, PlanBrand, Slot, StreamMedia, StreamPlan, MAX_PACKETS_PER_INPUT,
};
use oxideav_mp4::recipe::Recipe;
use oxideav_mp4::time::TimeBase;

#[test]
fn recipe_reads_high_bytes_first_and_zeros_at_the_end() {
    let data = [1u8, 2, 3, 4, 5, 6, 7, 8, 9];
    let mut r = Recipe::new(&data);
    assert_eq!(r.u8(), 1);
    assert_eq!(r.u16(), 0x0203);
    assert_eq!(r.u32(), 0x0405_0607);
    assert_eq!(r.rest(), &[8, 9]);
    assert_eq!(r.u64(), 0x0809_0000_0000_0000);
    assert_eq!(r.rest(), &[] as &[u8]);
    assert_eq!(r.u8(), 0);
    assert_eq!(r.u32(), 0);
}

#[test]
fn recipe_takes_what_is_there() {
    let data = [1u8, 2, 3, 4, 5];
    let mut r = Recipe::new(&data);
    assert_eq!(r.take(2), vec![1, 2]);
    assert_eq!(r.take_exact(2), vec![3, 4]);
    assert_eq!(r.take_exact(3), vec![5, 0, 0]);
    assert_eq!(r.take(7), Vec::<u8>::new());
    assert_eq!(Recipe::new(&data).take(usize::MAX), data.to_vec());
}

#[test]
fn trailing_zeros_change_nothing() {
    let short = MuxPlan::decode(&mut Recipe::new(&[2, 0, 1]));
    let long = MuxPlan::decode(&mut Recipe::new(&[2, 0, 1, 0, 0, 0, 0, 0, 0, 0, 0, 0]));
    assert_eq!(short.n_tracks(), long.n_tracks());
    assert_eq!(short.is_fragmented(), long.is_fragmented());
    assert_eq!(short.stream(1), long.stream(1));
}

#[test]
fn empty_recipe_is_a_plain_plan() {
    let plan = MuxPlan::decode(&mut Recipe::new(&[]));
    assert!(!plan.is_fragmented());
    assert_eq!(plan.n_tracks(), 1);
    assert!(!plan.is_video(0));
    assert_eq!(
        plan.stream(0),
        StreamPlan {
            index: 0,
            time_base: TimeBase { num: 1, den: 8_000 },
            media: StreamMedia::Audio { channels: 1, sample_rate: 8_000 },
        }
    );
    assert_eq!(MAX_PACKETS_PER_INPUT, 256);
}

fn setups() -> Vec<TrackSetup> {
    vec![
        TrackSetup { media_time_scale: 48_000, tkhd: Vec::new(), mdia: Vec::new() },
        TrackSetup { media_time_scale: 1_000, tkhd: Vec::new(), mdia: Vec::new() },
    ]
}

fn boxes(b: &[u8]) -> Vec<([u8; 4], Vec<u8>)> {
    let mut out = Vec::new();
    let mut at = 0;
    while at < b.len() {
        let size = u32::from_be_bytes([b[at], b[at + 1], b[at + 2], b[at + 3]]) as usize;
        out.push(([b[at + 4], b[at + 5], b[at + 6], b[at + 7]], b[at + 8..at + size].to_vec()));
        at += size;
    }
    out
}

fn two_track_recipe(tail: &[u8]) -> Vec<u8> {
    let head: &[u8] = &[
        2, 1, 1, // fragments, QuickTime brands, two tracks
        0, 3, 1, // mono, 48 kHz, two packets
        0, 10, 11, // one frame
        1, 20, 21, 22, 23, // two frames
        1, // pictures
        4, 5, 1, // 20 by 21, two of them
        0, 2, 30, 31, 32, 0, // three bytes, 30 ms
        0, 0, 40, 1, 0, // one byte, 31 ms, no keyframe
    ];
    [head, tail].concat()
}

#[test]
fn plan_becomes_the_file_that_it_says() {
    let data = two_track_recipe(&[0, 0, 0, 99]);
    let mut r = Recipe::new(&data);
    let plan = MuxPlan::decode(&mut r);
    assert_eq!(r.rest(), &[99]);
    assert!(plan.is_fragmented());
    assert_eq!(plan.n_tracks(), 2);
    assert!(plan.is_video(1));
    assert_eq!(plan.stream(1).media, StreamMedia::Video { width: 20, height: 21 });
    let built = plan.run(&setups());
    assert!(built.check_pts);
    assert_eq!(built.tracks[0].payloads, vec![vec![10, 11], vec![20, 21, 22, 23]]);
    assert_eq!(built.tracks[0].pts, vec![0, 1]);
    assert_eq!(built.tracks[0].tb_den, 48_000);
    assert_eq!(built.tracks[1].payloads, vec![vec![30, 31, 32], vec![40]]);
    assert_eq!(built.tracks[1].pts, vec![0, 2_700]);
    let top = boxes(&built.bytes);
    let kinds: Vec<[u8; 4]> = top.iter().map(|b| b.0).collect();
    assert_eq!(
        kinds,
        vec![
            *b"ftyp", *b"moov", *b"moof", *b"mdat", *b"moof", *b"mdat", *b"moof", *b"mdat"
        ]
    );
    assert_eq!(&top[0].1[..4], b"qt  ");
    // A fragment per packet of the first track, the second track between.
    assert_eq!(top[3].1, vec![10, 11]);
    assert_eq!(top[5].1, vec![20, 21, 22, 23, 30, 31, 32]);
    assert_eq!(top[7].1, vec![40]);
}

#[test]
fn gap_and_event_of_a_plan_are_written() {
    // Three packets per fragment, a gap of 100 ticks behind the second
    // packet, an event.
    let data = two_track_recipe(&[
        2, 1, 1, 0, 99, 1, 1, 0, 0, 0, 7, 0, 0, 0, 8, 0, 0, 0, 9, 0xAB,
    ]);
    let plan = MuxPlan::decode(&mut Recipe::new(&data));
    let built = plan.run(&setups());
    assert!(!built.check_pts);
    let top = boxes(&built.bytes);
    let kinds: Vec<[u8; 4]> = top.iter().map(|b| b.0).collect();
    assert_eq!(
        kinds,
        vec![
            *b"ftyp", *b"moov", *b"emsg", *b"moof", *b"mdat", *b"moof", *b"moof", *b"mdat"
        ]
    );
    let emsg = &top[2].1;
    assert_eq!(emsg[0], 1);
    assert!(emsg.windows(16).any(|w| w == b"urn:oxideav:fuzz"));
    assert_eq!(&emsg[emsg.len() - 1..], &[0xAB]);
    assert_eq!(top[4].1, vec![10, 11, 20, 21, 22, 23, 30, 31, 32]);
    // The gap is 100 ticks long.
    assert!(top[5].1.windows(12).any(|w| w == [0, 1, 0, 8, 0, 0, 0, 1, 0, 0, 0, 100]));
    assert_eq!(top[7].1, vec![40]);
}

#[test]
fn every_short_recipe_can_be_carried_out() {
    for a in 0u8..4 {
        for b in 0u8..40 {
            let data: Vec<u8> = (0..60u32).map(|i| (i * 37 + b as u32 * 11) as u8).collect();
            let mut recipe = vec![a];
            recipe.extend_from_slice(&data);
            let plan = MuxPlan::decode(&mut Recipe::new(&recipe));
            assert_eq!(plan.is_fragmented(), a >= 2);
            if plan.is_fragmented() {
                let mut s = setups();
                s.truncate(plan.n_tracks());
                let built = plan.run(&s);
                let written: usize = boxes(&built.bytes)
                    .iter()
                    .filter(|x| &x.0 == b"mdat")
                    .map(|x| x.1.len())
                    .sum();
                let planned: usize =
                    built.tracks.iter().flat_map(|t| t.payloads.iter()).map(|p| p.len()).sum();
                assert_eq!(written, planned);
            }
        }
    }
}

#[test]
fn plan_tells_what_it_holds() {
    let data = two_track_recipe(&[2, 1, 0, 0, 99, 0]);
    let plan = MuxPlan::decode(&mut Recipe::new(&data));
    assert_eq!(plan.brand(), PlanBrand::Mov);
    assert!(!plan.faststart());
    assert!(!plan.check_pts());
    assert_eq!(plan.tracks().len(), 2);
    assert_eq!(plan.tracks()[0].ticks_per_sec, 48_000);
    assert_eq!(plan.tracks()[1].packets[1].data, vec![40]);
    let frag = plan.frag().as_ref().unwrap();
    assert_eq!(frag.every, 3);
    assert!(!frag.indexed);
    assert_eq!(frag.gap, Some(Gap { track: 0, after: 0, duration: 100 }));
    assert_eq!(frag.emsg, None);
    let plain = MuxPlan::decode(&mut Recipe::new(&[1, 2]));
    assert_eq!(plain.brand(), PlanBrand::Ismv);
    assert!(plain.faststart());
    assert!(plain.check_pts());
    assert_eq!(*plain.frag(), None);
}

#[test]
fn packets_are_written_by_time() {
    let data = two_track_recipe(&[]);
    let plan = MuxPlan::decode(&mut Recipe::new(&data));
    let slot = |track: usize, packet: usize| Slot { track, packet };
    // Both tracks start at 0; the second frame of sound comes 20 us later,
    // the second picture 30 ms later.
    assert_eq!(plan.write_order(), vec![slot(0, 0), slot(1, 0), slot(0, 1), slot(1, 1)]);
    // The order is there for a file without fragments as well.
    let mut plain = data;
    plain[0] = 0;
    plain.insert(2, 0);
    let plan = MuxPlan::decode(&mut Recipe::new(&plain));
    assert!(!plan.is_fragmented());
    assert_eq!(plan.write_order(), vec![slot(0, 0), slot(1, 0), slot(0, 1), slot(1, 1)]);
}

fn u32_at(b: &[u8], i: usize) -> u32 {
    u32::from_be_bytes([b[i], b[i + 1], b[i + 2], b[i + 3]])
}

/// When each sample of a track is decoded, as the fragments of a file say.
fn decode_times(file: &[u8], track_id: u32) -> Vec<u64> {
    let mut times = Vec::new();
    for (_, moof) in boxes(file).iter().filter(|b| &b.0 == b"moof") {
        for (_, traf) in boxes(moof).iter().filter(|b| &b.0 == b"traf") {
            let inner = boxes(traf);
            let body = |code: &[u8; 4]| inner.iter().find(|b| &b.0 == code).map(|b| b.1.clone());
            let tfhd = body(b"tfhd").unwrap();
            if u32_at(&tfhd, 4) != track_id {
                continue;
            }
            let tfdt = body(b"tfdt").unwrap();
            assert_eq!(tfdt[0], 1);
            let mut at = ((u32_at(&tfdt, 4) as u64) << 32) | u32_at(&tfdt, 8) as u64;
            let Some(trun) = body(b"trun") else { continue };
            let flags = u32_at(&trun, 0);
            let width = 4 * (flags & 0xF00).count_ones() as usize;
            let first = 8 + 4 * (flags & 5).count_ones() as usize;
            for k in 0..u32_at(&trun, 4) as usize {
                times.push(at);
                at += if flags & 0x100 != 0 {
                    u32_at(&trun, first + k * width) as u64
                } else {
                    assert_eq!(u32_at(&tfhd, 0) & 0xB, 8);
                    u32_at(&tfhd, 8) as u64
                };
            }
        }
    }
    times
}

#[test]
fn times_come_back_from_the_file() {
    for every in 0..3u8 {
        let data = two_track_recipe(&[every, 0, 0]);
        let built = MuxPlan::decode(&mut Recipe::new(&data)).run(&setups());
        assert!(built.check_pts);
        assert_eq!(decode_times(&built.bytes, 1), vec![0, 1]);
        assert_eq!(decode_times(&built.bytes, 2), vec![0, 30]);
    }
}

#[test]
fn empty_time_puts_off_what_follows_it() {
    for every in 0..3u8 {
        // 100 ticks behind the first packet of the first track.
        let data = two_track_recipe(&[every, 1, 0, 0, 99, 0]);
        let built = MuxPlan::decode(&mut Recipe::new(&data)).run(&setups());
        assert!(!built.check_pts);
        assert_eq!(decode_times(&built.bytes, 1), vec![0, 101]);
        assert_eq!(decode_times(&built.bytes, 2), vec![0, 30]);
    }
}
