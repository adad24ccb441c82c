//! Segment type boxes, by themselves and before fragments.

use oxideav_mp4::frag::{open_fragmented_typed, FragmentedMuxer, Packet, TrackSetup};
use oxideav_mp4::levels::SsixLevels;
use oxideav_mp4::styp;
use oxideav_mp4::time::TimeBase;
use oxideav_mp4::{BrandPreset, FragmentCadence, FragmentedOptions, Mp4MuxerOptions};

#[test]
fn build_styp_dash_init_segment_byte_layout() {
    let bytes = styp::build_styp(*b"iso5", &[*b"iso5", *b"dash", *b"msdh"]);
    let want: &[u8] = &[
        0x00, 0x00, 0x00, 0x1c, b's', b't', b'y', b'p', b'i', b's', b'o', b'5', 0x00, 0x00, 0x00,
        0x00, b'i', b's', b'o', b'5', b'd', b'a', b's', b'h', b'm', b's', b'd', b'h',
    ];
    assert_eq!(bytes, want);
}

#[test]
fn build_styp_with_minor_round_trip() {
    let major = *b"cmfs";
    let minor = 0x0102_0304;
    let compat = [*b"cmfc", *b"cmff"];
    let bytes = styp::build_styp_with_minor(major, minor, &compat);
    let size = u32::from_be_bytes([bytes[0], bytes[1], bytes[2], bytes[3]]);
    assert_eq!(size as usize, bytes.len());
    assert_eq!(&bytes[4..8], b"styp");
    assert_eq!(&bytes[8..12], &major);
    let parsed_minor = u32::from_be_bytes([bytes[12], bytes[13], bytes[14], bytes[15]]);
    assert_eq!(parsed_minor, minor);
    assert_eq!(&bytes[16..20], &compat[0]);
    assert_eq!(&bytes[20..24], &compat[1]);
}

#[test]
fn write_styp_streams_to_writer_matches_vec_builder() {
    let major = *b"iso6";
    let compat = [*b"iso6", *b"cmfs", *b"cmff"];
    let v = styp::build_styp(major, &compat);
    let mut sink = Vec::new();
    styp::write_styp(&mut sink, major, &compat);
    assert_eq!(sink, v);
}

fn pcm_setup() -> TrackSetup {
    TrackSetup {
        media_time_scale: 48_000,
        tkhd: vec![0, 0, 0, 8, b't', b'k', b'h', b'd'],
        mdia: vec![0, 0, 0, 8, b'm', b'd', b'i', b'a'],
    }
}

fn pcm_packet(i: i64, frames: i64) -> Packet {
    Packet {
        stream_index: 0,
        time_base: TimeBase { num: 1, den: 48_000 },
        pts: Some(i * frames),
        dts: Some(i * frames),
        duration: Some(frames),
        keyframe: true,
        data: vec![(i & 0xFF) as u8; (frames * 4) as usize],
    }
}

fn find_all(bytes: &[u8], needle: &[u8; 4]) -> Vec<usize> {
    let mut out = Vec::new();
    let mut i = 0;
    while i + 4 <= bytes.len() {
        if &bytes[i..i + 4] == needle {
            out.push(i);
        }
        i += 1;
    }
    out
}

fn muxer_options(compatible: Vec<[u8; 4]>) -> Mp4MuxerOptions {
    Mp4MuxerOptions {
        brand: BrandPreset::Custom { major: *b"iso6", compatible },
        faststart: false,
        fragmented: None,
        write_edit_list: true,
        track_sample_groups: Vec::new(),
        large_mdat: false,
        ..Mp4MuxerOptions::default()
    }
}

fn fragment_options(styp: Option<BrandPreset>) -> FragmentedOptions {
    FragmentedOptions {
        cadence: FragmentCadence::EveryNPackets(1),
        styp,
        emit_random_access_indexes: false,
        levels: Vec::new(),
        emit_ssix: false,
        ssix_levels: SsixLevels { metadata: 1, media: 2 },
        treps: Vec::new(),
        write_mehd: false,
    }
}

fn open(opts: Mp4MuxerOptions, frag_opts: FragmentedOptions) -> (FragmentedMuxer, Vec<u8>) {
    let mut mux = open_fragmented_typed(&vec![pcm_setup()], opts, frag_opts).unwrap();
    let mut out = Vec::new();
    mux.write_header(&mut out).unwrap();
    (mux, out)
}

fn write(mux: &mut FragmentedMuxer, p: &Packet, out: &mut Vec<u8>) {
    assert!(mux.accepts(p));
    let position = out.len() as u64;
    mux.write_packet(p, position, out).unwrap();
}

fn finish(mux: &mut FragmentedMuxer, out: &mut Vec<u8>) {
    let position = out.len() as u64;
    let trailer = mux.write_trailer(position, out).unwrap();
    assert_eq!(trailer.mfra, None);
    assert_eq!(trailer.mehd, None);
}

#[test]
fn write_fragmented_segment_with_styp_overrides_one_segment() {
    let (mut mux, mut buf) = open(
        muxer_options(vec![*b"iso6", *b"dash"]),
        fragment_options(Some(BrandPreset::Custom {
            major: *b"msdh",
            compatible: vec![*b"msdh", *b"msix"],
        })),
    );
    write(&mut mux, &pcm_packet(0, 256), &mut buf);
    mux.write_fragmented_segment_with_styp(*b"cmfs", &[*b"cmfs", *b"cmff"]);
    write(&mut mux, &pcm_packet(1, 256), &mut buf);
    write(&mut mux, &pcm_packet(2, 256), &mut buf);
    finish(&mut mux, &mut buf);

    let styp_positions = find_all(&buf, b"styp");
    assert_eq!(
        styp_positions.len(),
        3,
        "expected 3 styp boxes, got {} (positions: {:?})",
        styp_positions.len(),
        styp_positions
    );
    let read_styp = |type_pos: usize| -> &[u8] {
        let size_off = type_pos - 4;
        let size = u32::from_be_bytes([
            buf[size_off],
            buf[size_off + 1],
            buf[size_off + 2],
            buf[size_off + 3],
        ]) as usize;
        &buf[size_off..size_off + size]
    };
    let default_styp_bytes = styp::build_styp(*b"msdh", &[*b"msdh", *b"msix"]);
    let override_styp_bytes = styp::build_styp(*b"cmfs", &[*b"cmfs", *b"cmff"]);
    assert_eq!(read_styp(styp_positions[0]), default_styp_bytes.as_slice());
    assert_eq!(read_styp(styp_positions[1]), override_styp_bytes.as_slice());
    assert_eq!(read_styp(styp_positions[2]), default_styp_bytes.as_slice());
}

#[test]
fn write_fragmented_segment_with_styp_emits_styp_when_preset_is_none() {
    let (mut mux, mut buf) =
        open(muxer_options(vec![*b"iso6", *b"dash"]), fragment_options(None));
    mux.write_fragmented_segment_with_styp(*b"msix", &[*b"msdh", *b"msix"]);
    write(&mut mux, &pcm_packet(0, 256), &mut buf);
    write(&mut mux, &pcm_packet(1, 256), &mut buf);
    finish(&mut mux, &mut buf);

    let styp_positions = find_all(&buf, b"styp");
    assert_eq!(
        styp_positions.len(),
        1,
        "expected exactly 1 styp (override on segment 1), got {}",
        styp_positions.len()
    );
    let size = u32::from_be_bytes([
        buf[styp_positions[0] - 4],
        buf[styp_positions[0] - 3],
        buf[styp_positions[0] - 2],
        buf[styp_positions[0] - 1],
    ]) as usize;
    let want = styp::build_styp(*b"msix", &[*b"msdh", *b"msix"]);
    let start = styp_positions[0] - 4;
    assert_eq!(&buf[start..start + size], want.as_slice());
}

#[test]
fn write_fragmented_segment_with_styp_precedes_moof() {
    let (mut mux, mut buf) =
        open(muxer_options(vec![*b"iso6", *b"dash"]), fragment_options(None));
    mux.write_fragmented_segment_with_styp(*b"cmfs", &[*b"cmfs"]);
    write(&mut mux, &pcm_packet(0, 256), &mut buf);
    finish(&mut mux, &mut buf);

    let styp_pos = find_all(&buf, b"styp");
    let moof_pos = find_all(&buf, b"moof");
    assert_eq!(styp_pos.len(), 1);
    assert_eq!(moof_pos.len(), 1);
    let styp_start = styp_pos[0] - 4;
    let moof_start = moof_pos[0] - 4;
    assert!(
        styp_start < moof_start,
        "styp box (start {styp_start}) must precede moof box (start {moof_start})"
    );
    let styp_size = u32::from_be_bytes([
        buf[styp_start],
        buf[styp_start + 1],
        buf[styp_start + 2],
        buf[styp_start + 3],
    ]) as usize;
    assert_eq!(styp_start + styp_size, moof_start, "styp end must touch moof start");
}

#[test]
fn write_fragmented_segment_with_styp_empty_compat_emits_sixteen_bytes() {
    let (mut mux, mut buf) = open(muxer_options(vec![*b"iso6"]), fragment_options(None));
    mux.write_fragmented_segment_with_styp(*b"msdh", &[]);
    write(&mut mux, &pcm_packet(0, 256), &mut buf);
    finish(&mut mux, &mut buf);

    let styp_pos = find_all(&buf, b"styp");
    assert_eq!(styp_pos.len(), 1);
    let start = styp_pos[0] - 4;
    let size = u32::from_be_bytes([buf[start], buf[start + 1], buf[start + 2], buf[start + 3]]);
    assert_eq!(size, 16);
}
