//! Producer reference times before fragments.

use oxideav_mp4::frag::{open_fragmented_typed, Packet, TrackSetup};
use oxideav_mp4::levels::SsixLevels;
use oxideav_mp4::time::TimeBase;
use oxideav_mp4::{BrandPreset, FragmentCadence, FragmentedOptions, Mp4MuxerOptions};

fn pcm_setup() -> TrackSetup {
    TrackSetup { media_time_scale: 48_000, tkhd: Vec::new(), mdia: Vec::new() }
}

fn make_pcm_packets(n: usize, frames: i64) -> Vec<Packet> {
    let mut out = Vec::with_capacity(n);
    for i in 0..n {
        let mut payload = Vec::with_capacity(frames as usize * 4);
        for j in 0..frames as usize {
            let l = ((i * 1024 + j) as i16).wrapping_mul(7);
            let r = ((i * 1024 + j) as i16).wrapping_mul(11);
            payload.extend_from_slice(&l.to_le_bytes());
            payload.extend_from_slice(&r.to_le_bytes());
        }
        out.push(Packet {
            stream_index: 0,
            time_base: TimeBase { num: 1, den: 48_000 },
            pts: Some((i as i64) * frames),
            dts: Some((i as i64) * frames),
            duration: Some(frames),
            keyframe: true,
            data: payload,
        });
    }
    out
}

fn frag_options(emit_indexes: bool, styp: bool) -> (Mp4MuxerOptions, FragmentedOptions) {
    let frag = FragmentedOptions {
        cadence: FragmentCadence::EveryNPackets(1),
        styp: if styp {
            Some(BrandPreset::Custom {
                major: *b"msdh",
                compatible: vec![*b"msdh", *b"msix"],
            })
        } else {
            None
        },
        emit_random_access_indexes: emit_indexes,
        levels: Vec::new(),
        emit_ssix: false,
        ssix_levels: SsixLevels { metadata: 1, media: 2 },
        treps: Vec::new(),
        write_mehd: false,
    };
    let opts = Mp4MuxerOptions {
        brand: BrandPreset::Custom {
            major: *b"iso6",
            compatible: vec![*b"iso6", *b"mp41", *b"dash"],
        },
        faststart: false,
        fragmented: Some(frag.clone()),
        write_edit_list: true,
        track_sample_groups: Vec::new(),
        large_mdat: false,
        ..Mp4MuxerOptions::default()
    };
    (opts, frag)
}

fn scan_boxes(bytes: &[u8], wanted: &[u8; 4]) -> Vec<Vec<u8>> {
    let mut out = Vec::new();
    let mut pos = 0usize;
    while pos + 8 <= bytes.len() {
        let size = u32::from_be_bytes([bytes[pos], bytes[pos + 1], bytes[pos + 2], bytes[pos + 3]])
            as usize;
        assert!(size >= 8 && pos + size <= bytes.len());
        if &bytes[pos + 4..pos + 8] == wanted {
            out.push(bytes[pos + 8..pos + size].to_vec());
        }
        pos += size;
    }
    out
}

fn be(b: &[u8]) -> u64 {
    b.iter().fold(0, |n, &x| (n << 8) | x as u64)
}

#[test]
fn prft_per_fragment_v0_roundtrips() {
    let packets = make_pcm_packets(3, 1024);
    let base_ntp_secs: u64 = 3_913_056_000;
    let mut expected: Vec<(u32, u64, u64)> = Vec::new();
    let (opts, frag) = frag_options(true, true);
    let mut mux = open_fragmented_typed(&vec![pcm_setup()], opts, frag).unwrap();
    let mut bytes = Vec::new();
    mux.write_header(&mut bytes).unwrap();
    for (i, p) in packets.iter().enumerate() {
        let ntp = (base_ntp_secs + i as u64) << 32;
        let media = (i as u64) * 1024;
        mux.set_next_segment_prft(1, ntp, media, 0);
        expected.push((1, ntp, media));
        let position = bytes.len() as u64;
        mux.write_packet(p, position, &mut bytes).unwrap();
    }
    let position = bytes.len() as u64;
    let trailer = mux.write_trailer(position, &mut bytes).unwrap();
    bytes.extend_from_slice(&trailer.mfra.unwrap());

    let prfts = scan_boxes(&bytes, b"prft");
    assert_eq!(prfts.len(), expected.len(), "one prft per fragment expected");
    for (raw, (rt, ntp, media)) in prfts.iter().zip(expected.iter()) {
        assert_eq!(raw.len(), 20, "small media_time -> version 0 (u32)");
        assert_eq!(raw[0], 0, "version 0");
        assert_eq!(be(&raw[1..4]), 0);
        assert_eq!(be(&raw[4..8]), *rt as u64);
        assert_eq!(be(&raw[8..16]), *ntp);
        assert_eq!(be(&raw[16..20]), *media);
    }
}

#[test]
fn prft_forced_v1_and_flags_roundtrip() {
    let packets = make_pcm_packets(2, 1024);
    let (opts, frag) = frag_options(false, false);
    let mut mux = open_fragmented_typed(&vec![pcm_setup()], opts, frag).unwrap();
    let mut bytes = Vec::new();
    mux.write_header(&mut bytes).unwrap();
    let ntp: u64 = 3_913_056_000u64 << 32;
    mux.set_next_segment_prft_v1(1, ntp, 0, 0x00_0004);
    let position = bytes.len() as u64;
    mux.write_packet(&packets[0], position, &mut bytes).unwrap();
    mux.set_next_segment_prft_v1(1, ntp, 1024, 0x00_0004);
    let position = bytes.len() as u64;
    mux.write_packet(&packets[1], position, &mut bytes).unwrap();
    let position = bytes.len() as u64;
    mux.write_trailer(position, &mut bytes).unwrap();

    let prfts = scan_boxes(&bytes, b"prft");
    assert_eq!(prfts.len(), 2);
    for raw in &prfts {
        assert_eq!(raw.len(), 24, "forced version 1 -> u64 media_time");
        assert_eq!(raw[0], 1, "version 1");
        assert_eq!(be(&raw[4..8]), 1);
        assert_eq!(be(&raw[8..16]), ntp);
        assert_eq!(be(&raw[1..4]), 0x00_0004);
    }
}

#[test]
fn long_media_time_needs_no_force() {
    let (opts, frag) = frag_options(false, false);
    let mut mux = open_fragmented_typed(&vec![pcm_setup()], opts, frag).unwrap();
    let mut bytes = Vec::new();
    mux.write_header(&mut bytes).unwrap();
    mux.set_next_segment_prft(2, 1, 0x1_0000_0000, 0);
    mux.write_packet(&make_pcm_packets(1, 4)[0], 0, &mut bytes).unwrap();
    let prfts = scan_boxes(&bytes, b"prft");
    assert_eq!(prfts.len(), 1);
    assert_eq!(prfts[0][0], 1);
    assert_eq!(be(&prfts[0][16..24]), 0x1_0000_0000);
}

/// A reference time before a fragment leaves the samples as they are.
#[test]
fn prft_does_not_disturb_sample_roundtrip() {
    let packets = make_pcm_packets(4, 1024);
    let (opts, frag) = frag_options(true, true);
    let mut mux = open_fragmented_typed(&vec![pcm_setup()], opts, frag).unwrap();
    let mut bytes = Vec::new();
    mux.write_header(&mut bytes).unwrap();
    let ntp: u64 = 3_913_056_000u64 << 32;
    for (i, p) in packets.iter().enumerate() {
        if i % 2 == 0 {
            mux.set_next_segment_prft(1, ntp + ((i as u64) << 32), (i as u64) * 1024, 0);
        }
        let position = bytes.len() as u64;
        mux.write_packet(p, position, &mut bytes).unwrap();
    }
    let position = bytes.len() as u64;
    let trailer = mux.write_trailer(position, &mut bytes).unwrap();
    bytes.extend_from_slice(&trailer.mfra.unwrap());

    assert_eq!(scan_boxes(&bytes, b"prft").len(), 2);

    // One sample per fragment.
    let got = scan_boxes(&bytes, b"mdat");
    assert_eq!(got.len(), packets.len(), "all samples recovered");
    for (a, b) in got.iter().zip(packets.iter()) {
        assert_eq!(a, &b.data, "sample payload byte-exact");
    }
    for moof in scan_boxes(&bytes, b"moof") {
        let traf = &scan_boxes(&moof, b"traf")[0];
        let trun = &scan_boxes(traf, b"trun")[0];
        assert_eq!(be(&trun[4..8]), 1);
        // The data starts behind the header of the media data box.
        assert_eq!(be(&trun[8..12]), moof.len() as u64 + 16);
    }
}
