//! The fragmented muxer, by the bytes that it writes.

use oxideav_mp4::cenc::{
    build_seig_entry, parse_senc, PsshBox, SeigEntry, SencSample, SubsampleEntry, TencBox,
};
use oxideav_mp4::edits::{EditListEntry, EditListError};
use oxideav_mp4::emsg::{EmsgBox, EmsgTime};
use oxideav_mp4::frag::protect::{append_traf_cenc_boxes, append_traf_seig_groups};
use oxideav_mp4::frag::{
    open_fragmented_typed, FragmentedMuxer, MehdPatch, MuxError, Packet, TrackSetup,
};
use oxideav_mp4::levels::{LevaEntry, SsixLevels};
use oxideav_mp4::time::TimeBase;
use oxideav_mp4::tracks::{TrepChild, TrepRecord};
use oxideav_mp4::{
    BrandPreset, FragmentCadence, FragmentedOptions, Mp4MuxerOptions, TrackEditList,
    TrackProtection,
};

fn u32_at(b: &[u8], i: usize) -> u32 {
    u32::from_be_bytes([b[i], b[i + 1], b[i + 2], b[i + 3]])
}

fn u64_at(b: &[u8], i: usize) -> u64 {
    ((u32_at(b, i) as u64) << 32) | u32_at(b, i + 4) as u64
}

/// The boxes side by side in `b`: where each starts, its type, its body.
fn boxes(b: &[u8]) -> Vec<(usize, [u8; 4], Vec<u8>)> {
    let mut out = Vec::new();
    let mut at = 0;
    while at < b.len() {
        let size = u32_at(b, at) as usize;
        assert!(size >= 8 && at + size <= b.len(), "box at {at} of size {size}");
        let code = [b[at + 4], b[at + 5], b[at + 6], b[at + 7]];
        out.push((at, code, b[at + 8..at + size].to_vec()));
        at += size;
    }
    out
}

fn codes(b: &[u8]) -> Vec<[u8; 4]> {
    boxes(b).iter().map(|x| x.1).collect()
}

/// The body of the first box of a type, down a path.
fn find(b: &[u8], path: &[&[u8; 4]]) -> Vec<u8> {
    let (_, _, body) = boxes(b)
        .into_iter()
        .find(|x| &x.1 == path[0])
        .expect("box is there");
    if path.len() == 1 {
        body
    } else {
        find(&body, &path[1..])
    }
}

fn setup(rate: u32) -> TrackSetup {
    TrackSetup {
        media_time_scale: rate,
        tkhd: vec![0, 0, 0, 9, b't', b'k', b'h', b'd', 7],
        mdia: vec![0, 0, 0, 9, b'm', b'd', b'i', b'a', 8],
    }
}

fn packet(stream: u32, pts: i64, duration: i64, data: &[u8]) -> Packet {
    Packet {
        stream_index: stream,
        time_base: TimeBase { num: 1, den: 1000 },
        pts: Some(pts),
        dts: Some(pts),
        duration: Some(duration),
        keyframe: true,
        data: data.to_vec(),
    }
}

fn plain_frag(cadence: FragmentCadence) -> FragmentedOptions {
    FragmentedOptions {
        cadence,
        styp: None,
        emit_random_access_indexes: false,
        levels: Vec::new(),
        emit_ssix: false,
        ssix_levels: SsixLevels { metadata: 1, media: 2 },
        treps: Vec::new(),
        write_mehd: false,
    }
}

struct File {
    mux: FragmentedMuxer,
    bytes: Vec<u8>,
}

impl File {
    fn open(setups: Vec<TrackSetup>, o: Mp4MuxerOptions, f: FragmentedOptions) -> File {
        let mut mux = open_fragmented_typed(&setups, o, f).unwrap();
        let mut bytes = Vec::new();
        mux.write_header(&mut bytes).unwrap();
        File { mux, bytes }
    }

    fn write(&mut self, p: &Packet) -> Result<(), MuxError> {
        assert!(self.mux.accepts(p));
        let at = self.bytes.len() as u64;
        self.mux.write_packet(p, at, &mut self.bytes)
    }

    fn protect(&mut self, p: &Packet, s: SencSample) -> Result<(), MuxError> {
        let at = self.bytes.len() as u64;
        self.mux.write_protected_packet(p, s, at, &mut self.bytes)
    }

    fn gap(&mut self, stream: usize, duration: u32) -> Result<(), MuxError> {
        let at = self.bytes.len() as u64;
        self.mux.insert_empty_time(stream, duration, at, &mut self.bytes)
    }

    fn finish(&mut self) {
        let at = self.bytes.len() as u64;
        let t = self.mux.write_trailer(at, &mut self.bytes).unwrap();
        if let Some(b) = t.mfra {
            self.bytes.extend_from_slice(&b);
        }
        if let Some(p) = t.mehd {
            let at = p.position as usize;
            self.bytes[at..at + 8].copy_from_slice(&p.duration.to_be_bytes());
        }
    }
}

fn plain_file(cadence: FragmentCadence) -> File {
    File::open(vec![setup(1000)], Mp4MuxerOptions::default(), plain_frag(cadence))
}

#[test]
fn header_is_brands_and_movie() {
    let f = plain_file(FragmentCadence::EveryNPackets(1));
    assert_eq!(codes(&f.bytes), vec![*b"ftyp", *b"moov"]);
    assert_eq!(find(&f.bytes, &[b"ftyp"]), b"mp42\0\0\x02\0isommp42mp41iso2");
    let moov = find(&f.bytes, &[b"moov"]);
    assert_eq!(codes(&moov), vec![*b"mvhd", *b"trak", *b"mvex"]);
    let mvhd = find(&moov, &[b"mvhd"]);
    assert_eq!(mvhd.len(), 100);
    assert_eq!(u32_at(&mvhd, 12), 1000);
    assert_eq!(u32_at(&mvhd, 96), 2);
    let trak = find(&moov, &[b"trak"]);
    assert_eq!(trak, [setup(1000).tkhd, setup(1000).mdia].concat());
    assert_eq!(
        find(&moov, &[b"mvex", b"trex"]),
        [[0; 4], [0, 0, 0, 1], [0, 0, 0, 1], [0; 4], [0; 4], [0; 4]].concat()
    );
}

#[test]
fn one_fragment_byte_for_byte() {
    let mut f = plain_file(FragmentCadence::EveryNPackets(1));
    let start = f.bytes.len();
    f.write(&packet(0, 5, 40, &[1, 2, 3])).unwrap();
    let want: Vec<u8> = [
        &[0, 0, 0, 100, b'm', b'o', b'o', b'f'][..],
        &[0, 0, 0, 16, b'm', b'f', b'h', b'd', 0, 0, 0, 0, 0, 0, 0, 1],
        &[0, 0, 0, 76, b't', b'r', b'a', b'f'],
        &[0, 0, 0, 28, b't', b'f', b'h', b'd', 0, 2, 0, 0x38, 0, 0, 0, 1],
        &[0, 0, 0, 40, 0, 0, 0, 3, 2, 0, 0, 0],
        &[0, 0, 0, 20, b't', b'f', b'd', b't', 1, 0, 0, 0, 0, 0, 0, 0, 0, 0, 0, 0],
        &[0, 0, 0, 20, b't', b'r', b'u', b'n', 1, 0, 0, 1, 0, 0, 0, 1, 0, 0, 0, 108],
        &[0, 0, 0, 11, b'm', b'd', b'a', b't', 1, 2, 3],
    ]
    .concat();
    assert_eq!(&f.bytes[start..], want.as_slice());
}

#[test]
fn times_are_rescaled_to_the_media_clock() {
    // 90 kHz packets on a 1 kHz track; 45 ticks are half a millisecond.
    let mut f = plain_file(FragmentCadence::EveryNPackets(2));
    let base = TimeBase { num: 1, den: 90_000 };
    let start = f.bytes.len();
    let mut p = packet(0, 0, 3003, &[1]);
    p.time_base = base;
    f.write(&p).unwrap();
    p.pts = Some(3003);
    p.dts = Some(2958);
    p.duration = Some(45);
    f.write(&p).unwrap();
    let trun = find(&f.bytes[start..], &[b"moof", b"traf", b"trun"]);
    // Durations 33 and 1; the second is presented 33 - 33 = 0 ticks late.
    assert_eq!(u32_at(&trun, 12), 33);
    assert_eq!(u32_at(&trun, 16), 1);
    f.write(&p).unwrap();
    f.finish();
    let last = boxes(&f.bytes).into_iter().rev().find(|b| &b.1 == b"moof").unwrap();
    assert_eq!(u64_at(&find(&last.2, &[b"traf", b"tfdt"]), 4), 34);
}

#[test]
fn missing_duration_comes_from_the_packet_before() {
    let mut f = plain_file(FragmentCadence::EveryNPackets(3));
    let start = f.bytes.len();
    for pts in [0, 25, 20] {
        let mut p = packet(0, pts, 0, &[1]);
        p.duration = None;
        f.write(&p).unwrap();
    }
    let trun = find(&f.bytes[start..], &[b"moof", b"traf", b"trun"]);
    assert_eq!([u32_at(&trun, 12), u32_at(&trun, 16), u32_at(&trun, 20)], [1, 25, 1]);
}

#[test]
fn keyframe_cadence_keeps_the_keyframe_for_the_next_fragment() {
    let mut f = plain_file(FragmentCadence::EveryKeyframe);
    for (i, key) in [true, false, true, true].iter().enumerate() {
        let mut p = packet(0, 10 * i as i64, 10, &[i as u8; 2]);
        p.keyframe = *key;
        f.write(&p).unwrap();
    }
    f.finish();
    let mdats: Vec<Vec<u8>> = boxes(&f.bytes)
        .into_iter()
        .filter(|b| &b.1 == b"mdat")
        .map(|b| b.2)
        .collect();
    assert_eq!(mdats, vec![vec![0, 0, 1, 1], vec![2, 2], vec![3, 3]]);
    let times: Vec<u64> = boxes(&f.bytes)
        .into_iter()
        .filter(|b| &b.1 == b"moof")
        .map(|b| u64_at(&find(&b.2, &[b"traf", b"tfdt"]), 4))
        .collect();
    assert_eq!(times, vec![0, 20, 30]);
}

#[test]
fn time_cadence_counts_ticks_of_the_first_track() {
    let mut f = plain_file(FragmentCadence::EverySeconds(Some(100)));
    let start = f.bytes.len();
    f.write(&packet(0, 0, 60, &[1])).unwrap();
    assert_eq!(f.bytes.len(), start);
    f.write(&packet(0, 60, 40, &[2])).unwrap();
    assert_eq!(codes(&f.bytes[start..]), vec![*b"moof", *b"mdat"]);
    let mut never = plain_file(FragmentCadence::EverySeconds(None));
    let start = never.bytes.len();
    never.write(&packet(0, 0, 1_000_000, &[1])).unwrap();
    assert_eq!(never.bytes.len(), start);
    let default = FragmentedOptions::default_for(48_000);
    assert_eq!(default.cadence, FragmentCadence::EverySeconds(Some(96_000)));
}

#[test]
fn sample_data_stands_where_the_run_says() {
    let mut f = File::open(
        vec![setup(1000), setup(500)],
        Mp4MuxerOptions::default(),
        plain_frag(FragmentCadence::EverySeconds(None)),
    );
    let start = f.bytes.len();
    f.write(&packet(1, 0, 10, &[9, 9])).unwrap();
    f.write(&packet(0, 0, 10, &[1])).unwrap();
    f.write(&packet(0, 10, 10, &[2, 3])).unwrap();
    f.write(&packet(1, 10, 10, &[8])).unwrap();
    f.finish();
    let moof = find(&f.bytes[start..], &[b"moof"]);
    let mut data = Vec::new();
    for (_, code, traf) in boxes(&moof) {
        if &code == b"traf" {
            let trun = find(&traf, &[b"trun"]);
            let offset = u32_at(&trun, 8) as usize;
            data.push(f.bytes[start + offset..start + offset + 3].to_vec());
        }
    }
    assert_eq!(data, vec![vec![1, 2, 3], vec![9, 9, 8]]);
}

#[test]
fn indexes_measure_and_locate_the_fragment() {
    let mut o = plain_frag(FragmentCadence::EveryNPackets(2));
    o.emit_random_access_indexes = true;
    o.emit_ssix = true;
    o.styp = Some(BrandPreset::Custom { major: *b"msdh", compatible: vec![*b"msdh"] });
    let mut f = File::open(vec![setup(1000)], Mp4MuxerOptions::default(), o);
    let start = f.bytes.len();
    let mut p = packet(0, 0, 10, &[1; 5]);
    f.write(&p).unwrap();
    p.keyframe = false;
    f.write(&p).unwrap();
    let end = f.bytes.len();
    f.finish();
    let top = boxes(&f.bytes[start..end]);
    let kinds: Vec<[u8; 4]> = top.iter().map(|x| x.1).collect();
    assert_eq!(kinds, vec![*b"sidx", *b"ssix", *b"styp", *b"moof", *b"mdat"]);
    let sidx = &top[0].2;
    assert_eq!(u32_at(sidx, 4), 1);
    assert_eq!(u32_at(sidx, 8), 1000);
    assert_eq!(u32_at(sidx, 32) as usize, end - start - top[2].0);
    assert_eq!(u32_at(sidx, 36), 20);
    assert_eq!(u32_at(sidx, 40), 0x9000_0000);
    let ssix = &top[1].2;
    let meta = u32_at(ssix, 12);
    let media = u32_at(ssix, 16);
    assert_eq!(meta >> 24, 1);
    assert_eq!(media >> 24, 2);
    assert_eq!((meta & 0xFF_FFFF) as usize, top[4].0 - top[2].0);
    assert_eq!((media & 0xFF_FFFF) as usize, end - start - top[4].0);
    // One sync sample: one row, which leads to the movie fragment.
    let mfra = find(&f.bytes[end..], &[b"mfra"]);
    let tfra = find(&mfra, &[b"tfra"]);
    assert_eq!(u32_at(&tfra, 12), 1);
    assert_eq!(u64_at(&tfra, 16), 0);
    assert_eq!(u64_at(&tfra, 24) as usize, start + top[3].0);
    assert_eq!(&tfra[32..], &[1, 1, 1]);
    assert_eq!(u32_at(&f.bytes, f.bytes.len() - 4) as usize, f.bytes.len() - end);
}

#[test]
fn subsegments_too_long_for_their_index_are_refused() {
    let mut o = plain_frag(FragmentCadence::EveryNPackets(1));
    o.emit_random_access_indexes = true;
    o.emit_ssix = true;
    let mut f = File::open(vec![setup(1000)], Mp4MuxerOptions::default(), o);
    let r = f.write(&packet(0, 0, 10, &vec![0u8; 0x100_0000]));
    assert_eq!(r, Err(MuxError::SubsegmentLevelRange));
}

#[test]
fn movie_length_is_patched_in_at_the_end() {
    let mut o = plain_frag(FragmentCadence::EveryNPackets(1));
    o.write_mehd = true;
    let mut f = File::open(vec![setup(90_000), setup(300)], Mp4MuxerOptions::default(), o);
    let mut p = packet(0, 0, 0, &[1]);
    p.time_base = TimeBase { num: 1, den: 90_000 };
    p.duration = Some(90_001);
    f.write(&p).unwrap();
    assert_eq!(u64_at(&find(&f.bytes, &[b"moov", b"mvex", b"mehd"]), 4), 0);
    f.finish();
    assert_eq!(u64_at(&find(&f.bytes, &[b"moov", b"mvex", b"mehd"]), 4), 1001);
    let again = f.mux.write_trailer(0, &mut f.bytes).unwrap();
    assert_eq!(again.mehd, None::<MehdPatch>);
    assert_eq!(again.mfra, None);
}

#[test]
fn requests_precede_one_fragment_in_order() {
    let mut o = plain_frag(FragmentCadence::EveryNPackets(1));
    o.styp = Some(BrandPreset::Mov);
    let mut f = File::open(vec![setup(1000)], Mp4MuxerOptions::default(), o);
    f.mux.set_next_segment_prft(1, 0x0102_0304_0506_0708, 9, 24);
    f.mux.set_next_segment_emsg(vec![EmsgBox {
        scheme_id_uri: "urn:x".to_string(),
        value: "v".to_string(),
        timescale: 10,
        presentation: EmsgTime::Delta(3),
        event_duration: 4,
        id: 5,
        message_data: vec![6],
    }]);
    f.mux.set_next_segment_pssh(vec![PsshBox {
        version: 0,
        system_id: [0x33; 16],
        kids: Vec::new(),
        data: vec![1],
    }]);
    let start = f.bytes.len();
    f.write(&packet(0, 0, 10, &[1])).unwrap();
    let middle = f.bytes.len();
    f.write(&packet(0, 10, 10, &[1])).unwrap();
    let first = &f.bytes[start..middle];
    assert_eq!(codes(first), vec![*b"styp", *b"emsg", *b"prft", *b"moof", *b"mdat"]);
    assert_eq!(codes(&find(first, &[b"moof"])), vec![*b"mfhd", *b"pssh", *b"traf"]);
    assert_eq!(
        find(first, &[b"emsg"]),
        b"\0\0\0\0urn:x\0v\0\0\0\0\x0a\0\0\0\x03\0\0\0\x04\0\0\0\x05\x06"
    );
    assert_eq!(find(first, &[b"prft"]), b"\0\0\0\x18\0\0\0\x01\x01\x02\x03\x04\x05\x06\x07\x08\0\0\0\x09");
    assert_eq!(codes(&f.bytes[middle..]), vec![*b"styp", *b"moof", *b"mdat"]);
}

#[test]
fn event_with_a_terminator_in_its_text_is_refused() {
    let mut f = plain_file(FragmentCadence::EveryNPackets(1));
    f.mux.set_next_segment_emsg(vec![EmsgBox {
        scheme_id_uri: "a\0b".to_string(),
        value: String::new(),
        timescale: 1,
        presentation: EmsgTime::Absolute(1),
        event_duration: 0,
        id: 0,
        message_data: Vec::new(),
    }]);
    assert_eq!(f.write(&packet(0, 0, 1, &[1])), Err(MuxError::EventString));
}

#[test]
fn empty_time_is_a_fragment_without_samples() {
    let mut f = plain_file(FragmentCadence::EverySeconds(None));
    f.write(&packet(0, 0, 10, &[1])).unwrap();
    let start = f.bytes.len();
    f.gap(0, 0).unwrap();
    assert_eq!(f.bytes.len(), start);
    f.gap(0, 500).unwrap();
    let top = boxes(&f.bytes[start..]);
    assert_eq!(top.len(), 3);
    let empty = &top[2].2;
    assert_eq!(&find(empty, &[b"traf", b"tfhd"]), &[0, 1, 0, 8, 0, 0, 0, 1, 0, 0, 1, 0xF4]);
    assert_eq!(u64_at(&find(empty, &[b"traf", b"tfdt"]), 4), 10);
    f.write(&packet(0, 510, 10, &[1])).unwrap();
    f.finish();
    let last = boxes(&f.bytes).into_iter().rev().find(|b| &b.1 == b"moof").unwrap();
    assert_eq!(u64_at(&find(&last.2, &[b"traf", b"tfdt"]), 4), 510);
    assert_eq!(u32_at(&find(&last.2, &[b"mfhd"]), 4), 3);
}

#[test]
fn empty_time_refusals() {
    let mut mux = open_fragmented_typed(
        &vec![setup(1000)],
        Mp4MuxerOptions::default(),
        plain_frag(FragmentCadence::EveryNPackets(1)),
    )
    .unwrap();
    let mut out = Vec::new();
    let e = mux.insert_empty_time(0, 1, 0, &mut out).unwrap_err();
    assert_eq!(e, MuxError::EmptyTimeBeforeHeader);
    assert_eq!(e.message(), "mp4 muxer: insert_empty_time before write_header");
    assert_eq!(mux.write_trailer(0, &mut out).unwrap_err(), MuxError::TrailerBeforeHeader);
    assert!(out.is_empty());
    let mut f = plain_file(FragmentCadence::EveryNPackets(1));
    let e = f.gap(3, 1).unwrap_err();
    assert_eq!(e, MuxError::EmptyTimeStream { stream_index: 3, streams: 1 });
    assert_eq!(
        e.message(),
        "mp4 muxer: insert_empty_time stream_index 3 out of range (1 streams)"
    );
    f.finish();
    assert_eq!(f.gap(0, 1).unwrap_err(), MuxError::EmptyTimeAfterTrailer);
    let mut o = Mp4MuxerOptions::default();
    o.track_edit_lists = vec![TrackEditList { stream_index: 0, entries: vec![one_edit()] }];
    let mut g = File::open(vec![setup(1000)], o, plain_frag(FragmentCadence::EveryNPackets(1)));
    let e = g.gap(0, 1).unwrap_err();
    assert_eq!(e, MuxError::EmptyTimeWithEdits);
    assert_eq!(
        e.message(),
        "mp4 muxer: §8.8.7.1 forbids combining empty-duration fragments with edit lists in the \
         Movie Box (track_edit_lists is set)"
    );
}

fn one_edit() -> EditListEntry {
    EditListEntry {
        segment_duration: 0,
        media_time: 1024,
        media_rate_integer: 1,
        media_rate_fraction: 0,
    }
}

#[test]
fn edit_lists_stand_in_the_track() {
    let mut o = Mp4MuxerOptions::default();
    o.track_edit_lists = vec![TrackEditList { stream_index: 0, entries: vec![one_edit()] }];
    let f = File::open(vec![setup(1000)], o, plain_frag(FragmentCadence::EveryNPackets(1)));
    let trak = find(&f.bytes, &[b"moov", b"trak"]);
    assert_eq!(codes(&trak), vec![*b"tkhd", *b"edts", *b"mdia"]);
    let elst = find(&trak, &[b"edts", b"elst"]);
    assert_eq!(u32_at(&elst, 4), 1);
    assert_eq!(&elst[elst.len() - 8..], &[0, 0, 4, 0, 0, 1, 0, 0]);
}

#[test]
fn edit_lists_that_cannot_be_written_are_refused() {
    let open = |stream_index: usize, entries: Vec<EditListEntry>| {
        let mut o = Mp4MuxerOptions::default();
        o.track_edit_lists = vec![TrackEditList { stream_index, entries }];
        open_fragmented_typed(
            &vec![setup(1000)],
            o,
            plain_frag(FragmentCadence::EveryNPackets(1)),
        )
        .err()
    };
    assert_eq!(open(0, vec![one_edit()]), None);
    let far = open(4, vec![one_edit()]).unwrap();
    assert_eq!(far, MuxError::EditListStream { stream_index: 4, streams: 1 });
    assert_eq!(
        far.message(),
        "mp4 muxer: track_edit_lists stream_index 4 out of range (1 streams)"
    );
    assert_eq!(open(0, vec![]), Some(MuxError::EditList(EditListError::Empty)));
    let mut e = one_edit();
    e.media_rate_integer = 2;
    assert_eq!(open(0, vec![e]), Some(MuxError::EditList(EditListError::Rate)));
    let mut e = one_edit();
    e.media_time = -2;
    assert_eq!(open(0, vec![e]), Some(MuxError::EditList(EditListError::MediaTime)));
    let mut e = one_edit();
    e.media_time = -1;
    let why = open(0, vec![one_edit(), e]).unwrap();
    assert_eq!(why, MuxError::EditList(EditListError::TrailingEmptyEdit));
    assert_eq!(why.message(), "MP4 elst build: the last edit is empty");
}

#[test]
fn levels_and_track_properties_stand_in_the_movie() {
    let mut o = plain_frag(FragmentCadence::EveryNPackets(1));
    o.levels = vec![LevaEntry {
        track_id: 1,
        padding_flag: true,
        assignment_type: 0,
        grouping_type: 0x7465_6c65,
        grouping_type_parameter: 0,
        sub_track_id: 0,
    }];
    o.treps = vec![TrepRecord {
        track_id: 1,
        children: vec![TrepChild { fourcc: *b"assp", payload: vec![5, 6] }],
    }];
    let f = File::open(vec![setup(1000)], Mp4MuxerOptions::default(), o);
    let mvex = find(&f.bytes, &[b"moov", b"mvex"]);
    assert_eq!(codes(&mvex), vec![*b"trex", *b"leva", *b"trep"]);
    assert_eq!(find(&mvex, &[b"leva"]), b"\0\0\0\0\x01\0\0\0\x01\x80tele");
    assert_eq!(find(&mvex, &[b"trep"]), b"\0\0\0\0\0\0\0\x01\0\0\0\x0aassp\x05\x06");
    let mut many = plain_frag(FragmentCadence::EveryNPackets(1));
    many.levels = vec![
        LevaEntry {
            track_id: 1,
            padding_flag: false,
            assignment_type: 2,
            grouping_type: 0,
            grouping_type_parameter: 0,
            sub_track_id: 0,
        };
        256
    ];
    let mut mux =
        open_fragmented_typed(&vec![setup(1)], Mp4MuxerOptions::default(), many).unwrap();
    assert_eq!(mux.write_header(&mut Vec::new()), Err(MuxError::TooManyLevels));
}

#[test]
fn calls_out_of_order_are_refused() {
    let none = open_fragmented_typed(
        &Vec::new(),
        Mp4MuxerOptions::default(),
        plain_frag(FragmentCadence::EveryNPackets(1)),
    );
    assert_eq!(none.err().unwrap(), MuxError::NoStreams);
    assert_eq!(MuxError::NoStreams.message(), "mp4 muxer: need at least one stream");
    let mut mux = open_fragmented_typed(
        &vec![setup(1000)],
        Mp4MuxerOptions::default(),
        plain_frag(FragmentCadence::EveryNPackets(1)),
    )
    .unwrap();
    let mut out = Vec::new();
    assert_eq!(mux.write_packet(&packet(0, 0, 1, &[1]), 0, &mut out), Err(MuxError::NoHeader));
    mux.write_header(&mut out).unwrap();
    let len = out.len();
    assert_eq!(mux.write_header(&mut out), Err(MuxError::HeaderTwice));
    assert_eq!(out.len(), len);
    let e = mux.write_packet(&packet(2, 0, 1, &[1]), 0, &mut out).unwrap_err();
    assert_eq!(e, MuxError::UnknownStream { stream_index: 2 });
    assert_eq!(e.message(), "mp4 muxer: unknown stream index 2");
    assert_eq!(mux.format_name(), "mp4");
}

// ----------------------------------------------------------------------
// Protection
// ----------------------------------------------------------------------

fn protected(iv_size: u8, constant: Option<Vec<u8>>, is_protected: u8) -> File {
    protected_by(FragmentCadence::EveryNPackets(2), iv_size, constant, is_protected)
}

fn protected_by(
    cadence: FragmentCadence,
    iv_size: u8,
    constant: Option<Vec<u8>>,
    is_protected: u8,
) -> File {
    let mut o = Mp4MuxerOptions::default();
    o.track_protection = vec![TrackProtection {
        stream_index: 0,
        scheme_type: *b"cenc",
        scheme_version: 0x1_0000,
        tenc: TencBox {
            version: 0,
            default_is_protected: is_protected,
            default_per_sample_iv_size: iv_size,
            default_kid: [9; 16],
            default_crypt_byte_block: 0,
            default_skip_byte_block: 0,
            default_constant_iv: constant,
        },
    }];
    File::open(vec![setup(1000), setup(1000)], o, plain_frag(cadence))
}

fn senc(iv: Vec<u8>, subs: &[(u16, u32)]) -> SencSample {
    SencSample {
        initialization_vector: iv,
        subsamples: subs
            .iter()
            .map(|s| SubsampleEntry { bytes_of_clear_data: s.0, bytes_of_protected_data: s.1 })
            .collect(),
    }
}

#[test]
fn aux_info_stands_where_its_offset_says() {
    let mut f = protected(8, None, 1);
    let start = f.bytes.len();
    f.protect(&packet(0, 0, 10, &[1; 20]), senc(vec![4; 8], &[(4, 16)])).unwrap();
    f.protect(&packet(0, 10, 10, &[2; 32]), senc(vec![5; 8], &[(0, 16), (8, 8)])).unwrap();
    let moof = find(&f.bytes[start..], &[b"moof"]);
    let traf = find(&moof, &[b"traf"]);
    assert_eq!(
        codes(&traf),
        vec![*b"tfhd", *b"tfdt", *b"senc", *b"saiz", *b"saio", *b"trun"]
    );
    let table = parse_senc(&find(&traf, &[b"senc"]), 8).unwrap();
    assert_eq!(table.flags, 2);
    assert_eq!(table.samples.len(), 2);
    assert_eq!(table.samples[1].initialization_vector, vec![5; 8]);
    let saiz = find(&traf, &[b"saiz"]);
    assert_eq!(saiz[4], 0);
    assert_eq!(u32_at(&saiz, 5), 2);
    assert_eq!(&saiz[9..], &[16, 22]);
    let saio = find(&traf, &[b"saio"]);
    let offset = u32_at(&saio, 8) as usize;
    assert_eq!(&f.bytes[start + offset..start + offset + 8], &[4; 8]);
    assert_eq!(&f.bytes[start + offset + 16..start + offset + 24], &[5; 8]);
}

#[test]
fn protected_packets_are_checked() {
    let e = protected(8, None, 1)
        .protect(&packet(1, 0, 1, &[1]), senc(vec![0; 8], &[]))
        .unwrap_err();
    assert_eq!(e, MuxError::NotProtected { stream_index: 1 });
    assert_eq!(
        e.message(),
        "mp4 muxer: write_protected_packet on stream 1 without a track_protection directive"
    );
    let e = protected(8, None, 1)
        .protect(&packet(0, 0, 1, &[1]), senc(vec![0; 16], &[]))
        .unwrap_err();
    assert_eq!(e, MuxError::IvLength { stream_index: 0, iv_len: 16, iv_size: 8 });
    assert_eq!(
        e.message(),
        "mp4 muxer: stream 0 per-sample IV is 16 bytes but tenc.default_Per_Sample_IV_Size is 8 \
         (§9.2)"
    );
    let e = protected(0, Some(vec![1; 16]), 1)
        .protect(&packet(0, 0, 1, &[1]), senc(vec![0; 8], &[]))
        .unwrap_err();
    assert_eq!(e, MuxError::IvOnConstant { stream_index: 0 });
    assert_eq!(
        e.message(),
        "mp4 muxer: stream 0 uses a constant IV — senc entries must not carry per-sample IV bytes \
         (§9.2)"
    );
    let e = protected(0, None, 0)
        .protect(&packet(0, 0, 1, &[1]), senc(vec![], &[]))
        .unwrap_err();
    assert_eq!(e, MuxError::ClearByDefault { stream_index: 0 });
    assert_eq!(
        e.message(),
        "mp4 muxer: stream 0 tenc default is unprotected (isProtected == 0) — \
         write_protected_packet has no IV context"
    );
    let e = protected(8, None, 1)
        .protect(&packet(0, 0, 1, &[1; 9]), senc(vec![0; 8], &[(1, 2)]))
        .unwrap_err();
    assert_eq!(e, MuxError::SubsampleCover { stream_index: 0, total: 3, sample_len: 9 });
    assert_eq!(
        e.message(),
        "mp4 muxer: stream 0 subsample map covers 3 bytes but the sample is 9 bytes (§9.5.1)"
    );
}

#[test]
fn reserved_protection_value_takes_stored_ivs() {
    let mut f = protected(8, None, 2);
    let start = f.bytes.len();
    let e = f.protect(&packet(0, 0, 10, &[1; 4]), senc(vec![], &[])).unwrap_err();
    assert_eq!(e, MuxError::IvLength { stream_index: 0, iv_len: 0, iv_size: 8 });
    f.protect(&packet(0, 0, 10, &[1; 4]), senc(vec![4; 8], &[])).unwrap();
    f.protect(&packet(0, 10, 10, &[2; 4]), senc(vec![5; 8], &[])).unwrap();
    let traf = find(&f.bytes[start..], &[b"moof", b"traf"]);
    let table = parse_senc(&find(&traf, &[b"senc"]), 8).unwrap();
    let ivs: Vec<Vec<u8>> =
        table.samples.iter().map(|s| s.initialization_vector.clone()).collect();
    assert_eq!(ivs, vec![vec![4; 8], vec![5; 8]]);
    let mut f = protected(0, None, 2);
    f.protect(&packet(0, 0, 10, &[1; 4]), senc(vec![], &[])).unwrap();
}

#[test]
fn plain_and_protected_packets_do_not_share_a_fragment() {
    let mut f = protected_by(FragmentCadence::EveryNPackets(2), 8, None, 1);
    f.write(&packet(0, 0, 1, &[1])).unwrap();
    let len = f.bytes.len();
    let e = f.protect(&packet(0, 1, 1, &[1]), senc(vec![0; 8], &[])).unwrap_err();
    assert_eq!(e, MuxError::ProtectedAfterPlain { stream_index: 0 });
    assert_eq!(
        e.message(),
        "mp4 muxer: stream 0 mixes write_protected_packet with plain write_packet within one \
         fragment (senc covers all samples or none, ISO/IEC 23001-7 §7.2.3)"
    );
    assert_eq!(f.bytes.len(), len);
    f.write(&packet(0, 1, 1, &[1])).unwrap();
    f.protect(&packet(0, 2, 1, &[1]), senc(vec![0; 8], &[])).unwrap();
    let e = f.write(&packet(0, 3, 1, &[1])).unwrap_err();
    assert_eq!(e, MuxError::PlainAfterProtected { stream_index: 0 });
    assert_eq!(
        e.message(),
        "mp4 muxer: stream 0 mixes plain write_packet with write_protected_packet within one \
         fragment (senc covers all samples or none, ISO/IEC 23001-7 §7.2.3)"
    );
}

#[test]
fn long_aux_info_is_refused() {
    let mut f = protected_by(FragmentCadence::EveryNPackets(1), 8, None, 1);
    let subs = vec![(1u16, 0u32); 42];
    let r = f.protect(&packet(0, 0, 1, &[1; 42]), senc(vec![0; 8], &subs));
    assert_eq!(r, Err(MuxError::AuxInfoSize { sample: 0, info_len: 262 }));
    assert_eq!(
        r.unwrap_err().message(),
        "MP4: sample 0 CENC auxiliary info is 262 bytes — exceeds the 8-bit saiz sample_info_size \
         field (§8.7.8.3)"
    );
}

#[test]
fn overrides_become_sample_groups() {
    let entry = SeigEntry {
        crypt_byte_block: 0,
        skip_byte_block: 0,
        is_protected: 1,
        per_sample_iv_size: 8,
        kid: [0x55; 16],
        constant_iv: None,
    };
    let mut f = protected_by(FragmentCadence::EveryNPackets(4), 8, None, 1);
    let start = f.bytes.len();
    for i in 0..4i64 {
        let seig = if i == 1 || i == 2 { Some(entry.clone()) } else { None };
        let at = f.bytes.len() as u64;
        f.mux
            .write_protected_packet_grouped(
                &packet(0, i, 1, &[1]),
                senc(vec![i as u8; 8], &[]),
                seig,
                at,
                &mut f.bytes,
            )
            .unwrap();
    }
    let traf = find(&f.bytes[start..], &[b"moof", b"traf"]);
    let sgpd = find(&traf, &[b"sgpd"]);
    assert_eq!(&sgpd[4..8], b"seig");
    let body = build_seig_entry(&entry).unwrap();
    assert_eq!(&sgpd[sgpd.len() - body.len()..], body.as_slice());
    let sbgp = find(&traf, &[b"sbgp"]);
    assert_eq!(&sbgp[4..8], b"seig");
    let rows: Vec<u32> = (0..6).map(|k| u32_at(&sbgp, 12 + 4 * k)).collect();
    assert_eq!(rows, vec![1, 0, 2, 0x1_0001, 1, 0]);
    let mut other = entry;
    other.per_sample_iv_size = 16;
    let e = f
        .mux
        .write_protected_packet_grouped(
            &packet(0, 9, 1, &[1]),
            senc(vec![0; 8], &[]),
            Some(other),
            0,
            &mut Vec::new(),
        )
        .unwrap_err();
    assert_eq!(
        e,
        MuxError::OverrideIvSize { stream_index: 0, default_size: 8, override_size: 16 }
    );
    assert_eq!(
        e.message(),
        "mp4 muxer: stream 0 seig override changes Per_Sample_IV_Size from 8 to 16 — the \
         fragment's senc stores one IV width for all samples (§7.2.3)"
    );
}

#[test]
fn protection_that_does_not_hold_is_refused() {
    let mut o = Mp4MuxerOptions::default();
    o.track_protection = vec![TrackProtection {
        stream_index: 0,
        scheme_type: *b"cbcs",
        scheme_version: 0x1_0000,
        tenc: TencBox {
            version: 0,
            default_is_protected: 1,
            default_per_sample_iv_size: 8,
            default_kid: [9; 16],
            default_crypt_byte_block: 0,
            default_skip_byte_block: 0,
            default_constant_iv: None,
        },
    }];
    let e = open_fragmented_typed(
        &vec![setup(1)],
        o,
        plain_frag(FragmentCadence::EveryNPackets(1)),
    )
    .err()
    .unwrap();
    assert_eq!(
        e.message(),
        "CENC scheme decision: scheme cbcs requires tenc version 1 but tenc.version = 0"
    );
}

#[test]
fn movie_headers_that_cannot_be_written_are_refused() {
    let mut o = Mp4MuxerOptions::default();
    o.pssh = vec![PsshBox {
        version: 0,
        system_id: [1; 16],
        kids: vec![[2; 16]],
        data: Vec::new(),
    }];
    let mut mux = open_fragmented_typed(
        &vec![setup(1)],
        o,
        plain_frag(FragmentCadence::EveryNPackets(1)),
    )
    .unwrap();
    let mut out = Vec::new();
    let e = mux.write_header(&mut out).unwrap_err();
    assert_eq!(e.message(), "MP4 pssh build: KID list requires version >= 1");
    assert_eq!(codes(&out), vec![*b"ftyp"]);
}

// ----------------------------------------------------------------------
// Levels and track properties
// ----------------------------------------------------------------------

/// The file of two packets of sound.
fn mux_fragmented_pcm(levels: Vec<LevaEntry>, treps: Vec<TrepRecord>) -> Vec<u8> {
    let mut frag = plain_frag(FragmentCadence::EveryNPackets(1));
    frag.levels = levels;
    frag.treps = treps;
    let mut o = Mp4MuxerOptions::default();
    o.brand = BrandPreset::Custom {
        major: *b"iso6",
        compatible: vec![*b"iso6", *b"mp41", *b"dash"],
    };
    let mut payload = Vec::new();
    for i in 0..512 {
        payload.extend_from_slice(&(i as i16).wrapping_mul(3).to_le_bytes());
        payload.extend_from_slice(&(i as i16).wrapping_mul(5).to_le_bytes());
    }
    let mut f = File::open(vec![setup(48_000)], o, frag);
    for i in 0..2 {
        let p = Packet {
            stream_index: 0,
            time_base: TimeBase { num: 1, den: 48_000 },
            pts: Some(i * 512),
            dts: None,
            duration: Some(512),
            keyframe: true,
            data: payload.clone(),
        };
        f.write(&p).unwrap();
    }
    f.finish();
    f.bytes
}

#[test]
fn muxer_emitted_leva_reads_back_via_metadata() {
    let level = |padding_flag: bool, assignment_type: u8, grouping_type: u32| LevaEntry {
        track_id: 1,
        padding_flag,
        assignment_type,
        grouping_type,
        grouping_type_parameter: 0,
        sub_track_id: 0,
    };
    let bytes = mux_fragmented_pcm(
        vec![
            level(false, 2, 0),
            level(true, 2, 0),
            level(false, 0, u32::from_be_bytes(*b"roll")),
        ],
        Vec::new(),
    );
    let leva = find(&bytes, &[b"moov", b"mvex", b"leva"]);
    assert_eq!(&leva[..4], &[0; 4]);
    assert_eq!(leva[4], 3, "three levels");
    // Track, then the padding flag over the assignment type.
    assert_eq!((u32_at(&leva, 5), leva[9] >> 7, leva[9] & 0x7F), (1, 0, 2));
    assert_eq!((u32_at(&leva, 10), leva[14] >> 7, leva[14] & 0x7F), (1, 1, 2));
    assert_eq!((u32_at(&leva, 15), leva[19] >> 7, leva[19] & 0x7F), (1, 0, 0));
    assert_eq!(u32_at(&leva, 20), u32::from_be_bytes(*b"roll"));
    assert_eq!(leva.len(), 24);
}

#[test]
fn muxer_without_levels_emits_no_leva() {
    let bytes = mux_fragmented_pcm(Vec::new(), Vec::new());
    assert!(!codes(&find(&bytes, &[b"moov", b"mvex"])).contains(b"leva"));
}

#[test]
fn fragmented_muxer_emits_trep_with_assp_round_trip() {
    let mut payload = vec![0; 4];
    payload.extend_from_slice(&(-4i32).to_be_bytes());
    let bytes = mux_fragmented_pcm(
        Vec::new(),
        vec![TrepRecord {
            track_id: 1,
            children: vec![TrepChild { fourcc: *b"assp", payload }],
        }],
    );
    let mvex = find(&bytes, &[b"moov", b"mvex"]);
    let treps = codes(&mvex).iter().filter(|c| *c == b"trep").count();
    assert_eq!(treps, 1, "exactly one trep");
    let trep = find(&mvex, &[b"trep"]);
    assert_eq!(u32_at(&trep, 4), 1);
    assert_eq!(codes(&trep[8..]), vec![*b"assp"]);
    let assp = find(&trep[8..], &[b"assp"]);
    assert_eq!(assp[0], 0);
    assert_eq!(u32_at(&assp, 4) as i32, -4);
}

#[test]
fn fragmented_muxer_no_treps_emits_no_trep_keys() {
    let bytes = mux_fragmented_pcm(Vec::new(), Vec::new());
    assert!(!codes(&find(&bytes, &[b"moov", b"mvex"])).contains(b"trep"));
}

// ----------------------------------------------------------------------
// Refusals
// ----------------------------------------------------------------------

#[test]
fn refused_aux_info_leaves_the_body_alone() {
    let start = vec![1, 2, 3];
    let entries = vec![senc(vec![4; 8], &[]), senc(vec![5; 16], &[])];
    let mut body = start.clone();
    let r = append_traf_cenc_boxes(&mut body, &entries, 1, 0);
    assert_eq!(r, Err(MuxError::SencOutOfStep));
    assert_eq!(body, start);
    // The vectors differ in width.
    let r = append_traf_cenc_boxes(&mut body, &entries, 2, 0);
    assert!(matches!(r, Err(MuxError::Cenc(_))));
    assert_eq!(body, start);
    let long = vec![senc(vec![4; 8], &[(1, 0); 42])];
    let r = append_traf_cenc_boxes(&mut body, &long, 1, 0);
    assert_eq!(r, Err(MuxError::AuxInfoSize { sample: 0, info_len: 262 }));
    assert_eq!(body, start);
    append_traf_cenc_boxes(&mut body, &entries[..1].to_vec(), 1, 0).unwrap();
    assert_eq!(codes(&body[3..]), vec![*b"senc", *b"saiz", *b"saio"]);
}

#[test]
fn refused_overrides_leave_the_body_alone() {
    let mut entry = SeigEntry {
        crypt_byte_block: 0,
        skip_byte_block: 0,
        is_protected: 1,
        per_sample_iv_size: 8,
        kid: [0x55; 16],
        constant_iv: None,
    };
    let start = vec![1, 2, 3];
    let mut body = start.clone();
    let r = append_traf_seig_groups(&mut body, &vec![Some(entry.clone())], 2);
    assert_eq!(r, Err(MuxError::SeigOutOfStep));
    assert_eq!(body, start);
    append_traf_seig_groups(&mut body, &vec![Some(entry.clone())], 1).unwrap();
    assert_eq!(codes(&body[3..]), vec![*b"sgpd", *b"sbgp"]);
    entry.per_sample_iv_size = 4;
    let mut body = start.clone();
    let r = append_traf_seig_groups(&mut body, &vec![None, Some(entry)], 2);
    assert!(matches!(r, Err(MuxError::Cenc(_))));
    assert_eq!(body, start);
}

#[test]
fn files_that_are_over_or_not_begun_can_be_finished() {
    let setups = vec![setup(1000)];
    let frag = plain_frag(FragmentCadence::EveryNPackets(2));
    let mux = open_fragmented_typed(&setups, Mp4MuxerOptions::default(), frag).unwrap();
    assert!(mux.can_finish());
    let mut f = plain_file(FragmentCadence::EveryNPackets(2));
    f.write(&packet(0, 0, 10, &[1])).unwrap();
    assert!(f.mux.can_finish());
    f.finish();
    assert!(f.mux.can_finish());
}

#[test]
fn packet_is_accepted_by_its_times() {
    for cadence in [
        FragmentCadence::EveryNPackets(1),
        FragmentCadence::EveryNPackets(2),
        FragmentCadence::EveryKeyframe,
        FragmentCadence::EverySeconds(Some(10)),
        FragmentCadence::EverySeconds(None),
    ] {
        let mut f = plain_file(cadence);
        f.write(&packet(0, 0, 10, &[1])).unwrap();
        assert!(f.mux.accepts(&packet(0, 10, 10, &[2])));
        let mut p = packet(0, i64::MIN, 10, &[2]);
        p.dts = Some(i64::MAX);
        assert!(!f.mux.accepts(&p));
        // A stream that is not there is refused, whatever its times.
        p.stream_index = 7;
        assert!(f.mux.accepts(&p));
    }
}
