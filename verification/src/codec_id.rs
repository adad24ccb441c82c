//! From the four-character code of a sample entry to a codec name.

use crate::boxes::{code_text, type_text};
use crate::bytes::same_code;
use crate::text::push_text;
use oxideav_core::CodecId;
use vstd::prelude::*;

verus! {

// ---------------------------------------------------------------------
// Calls into `oxideav_core`
// ---------------------------------------------------------------------

/// `oxideav_core::CodecId`: a codec name in a type of its own.
#[verifier::external_type_specification]
pub struct ExCodecId(oxideav_core::CodecId);

/// `oxideav_core::CodecId::new`: the identifier holds the name.
#[verifier::external_body]
fn codec_id(name: &str) -> (r: CodecId)
    ensures
        r.0@ == name@,
{
    CodecId::new(name)
}

// ---------------------------------------------------------------------
// Sample entries
// ---------------------------------------------------------------------

/// `mp4a`: MPEG-4 audio.
pub const MP4A: [u8; 4] = [0x6d, 0x70, 0x34, 0x61];

/// `alac`: Apple Lossless.
pub const ALAC: [u8; 4] = [0x61, 0x6c, 0x61, 0x63];

/// `fLaC`: FLAC.
pub const FLAC_MIXED: [u8; 4] = [0x66, 0x4c, 0x61, 0x43];

/// `flac`: FLAC.
pub const FLAC: [u8; 4] = [0x66, 0x6c, 0x61, 0x63];

/// `Opus`: Opus.
pub const OPUS_MIXED: [u8; 4] = [0x4f, 0x70, 0x75, 0x73];

/// `opus`: Opus.
pub const OPUS: [u8; 4] = [0x6f, 0x70, 0x75, 0x73];

/// `ac-3`: AC-3.
pub const AC_3: [u8; 4] = [0x61, 0x63, 0x2d, 0x33];

/// `AC-3`: AC-3.
pub const AC_3_CAPS: [u8; 4] = [0x41, 0x43, 0x2d, 0x33];

/// `ec-3`: E-AC-3.
pub const EC_3: [u8; 4] = [0x65, 0x63, 0x2d, 0x33];

/// `EC-3`: E-AC-3.
pub const EC_3_CAPS: [u8; 4] = [0x45, 0x43, 0x2d, 0x33];

/// `dtsc`: DTS.
pub const DTSC: [u8; 4] = [0x64, 0x74, 0x73, 0x63];

/// `dtsh`: DTS.
pub const DTSH: [u8; 4] = [0x64, 0x74, 0x73, 0x68];

/// `dtsl`: DTS.
pub const DTSL: [u8; 4] = [0x64, 0x74, 0x73, 0x6c];

/// `dtse`: DTS.
pub const DTSE: [u8; 4] = [0x64, 0x74, 0x73, 0x65];

/// `ulaw`: G.711 mu-law.
pub const ULAW: [u8; 4] = [0x75, 0x6c, 0x61, 0x77];

/// `alaw`: G.711 A-law.
pub const ALAW: [u8; 4] = [0x61, 0x6c, 0x61, 0x77];

/// `avc1`: AVC.
pub const AVC1: [u8; 4] = [0x61, 0x76, 0x63, 0x31];

/// `avc3`: AVC.
pub const AVC3: [u8; 4] = [0x61, 0x76, 0x63, 0x33];

/// `hvc1`: HEVC.
pub const HVC1: [u8; 4] = [0x68, 0x76, 0x63, 0x31];

/// `hev1`: HEVC.
pub const HEV1: [u8; 4] = [0x68, 0x65, 0x76, 0x31];

/// `vp08`: VP8.
pub const VP08: [u8; 4] = [0x76, 0x70, 0x30, 0x38];

/// `vp09`: VP9.
pub const VP09: [u8; 4] = [0x76, 0x70, 0x30, 0x39];

/// `av01`: AV1.
pub const AV01: [u8; 4] = [0x61, 0x76, 0x30, 0x31];

/// `jpeg`: Motion JPEG.
pub const JPEG: [u8; 4] = [0x6a, 0x70, 0x65, 0x67];

/// `mjpa`: Motion JPEG.
pub const MJPA: [u8; 4] = [0x6d, 0x6a, 0x70, 0x61];

/// `mjpb`: Motion JPEG.
pub const MJPB: [u8; 4] = [0x6d, 0x6a, 0x70, 0x62];

/// `apco`: ProRes.
pub const APCO: [u8; 4] = [0x61, 0x70, 0x63, 0x6f];

/// `APCO`: ProRes.
pub const APCO_CAPS: [u8; 4] = [0x41, 0x50, 0x43, 0x4f];

/// `apcs`: ProRes.
pub const APCS: [u8; 4] = [0x61, 0x70, 0x63, 0x73];

/// `APCS`: ProRes.
pub const APCS_CAPS: [u8; 4] = [0x41, 0x50, 0x43, 0x53];

/// `apcn`: ProRes.
pub const APCN: [u8; 4] = [0x61, 0x70, 0x63, 0x6e];

/// `APCN`: ProRes.
pub const APCN_CAPS: [u8; 4] = [0x41, 0x50, 0x43, 0x4e];

/// `apch`: ProRes.
pub const APCH: [u8; 4] = [0x61, 0x70, 0x63, 0x68];

/// `APCH`: ProRes.
pub const APCH_CAPS: [u8; 4] = [0x41, 0x50, 0x43, 0x48];

/// `ap4h`: ProRes.
pub const AP4H: [u8; 4] = [0x61, 0x70, 0x34, 0x68];

/// `AP4H`: ProRes.
pub const AP4H_CAPS: [u8; 4] = [0x41, 0x50, 0x34, 0x48];

/// `ap4x`: ProRes.
pub const AP4X: [u8; 4] = [0x61, 0x70, 0x34, 0x78];

/// `AP4X`: ProRes.
pub const AP4X_CAPS: [u8; 4] = [0x41, 0x50, 0x34, 0x58];

/// `mp4v`: MPEG-4 visual.
pub const MP4V: [u8; 4] = [0x6d, 0x70, 0x34, 0x76];

/// `s263`: H.263.
pub const S263: [u8; 4] = [0x73, 0x32, 0x36, 0x33];

/// `h263`: H.263.
pub const H263: [u8; 4] = [0x68, 0x32, 0x36, 0x33];

/// `lpcm`: plain PCM.
pub const LPCM: [u8; 4] = [0x6c, 0x70, 0x63, 0x6d];

/// `sowt`: plain PCM.
pub const SOWT: [u8; 4] = [0x73, 0x6f, 0x77, 0x74];

/// `twos`: plain PCM.
pub const TWOS: [u8; 4] = [0x74, 0x77, 0x6f, 0x73];

/// `tx3g`: timed text.
pub const TX3G: [u8; 4] = [0x74, 0x78, 0x33, 0x67];

/// `text`: QuickTime text.
pub const TEXT: [u8; 4] = [0x74, 0x65, 0x78, 0x74];

/// `wvtt`: WebVTT.
pub const WVTT: [u8; 4] = [0x77, 0x76, 0x74, 0x74];

/// `stpp`: XML subtitles.
pub const STPP: [u8; 4] = [0x73, 0x74, 0x70, 0x70];

/// `sbtt`: text subtitles.
pub const SBTT: [u8; 4] = [0x73, 0x62, 0x74, 0x74];

/// `stxt`: simple text.
pub const STXT: [u8; 4] = [0x73, 0x74, 0x78, 0x74];

/// `c608`: CEA-608 captions.
pub const C608: [u8; 4] = [0x63, 0x36, 0x30, 0x38];

/// `c708`: CEA-708 captions.
pub const C708: [u8; 4] = [0x63, 0x37, 0x30, 0x38];

/// The codec of a sample entry whose code alone names one.
pub open spec fn known_codec(code: [u8; 4]) -> Option<Seq<char>> {
    if code == MP4A {
        Some("aac"@)
    } else if code == ALAC {
        Some("alac"@)
    } else if code == FLAC_MIXED || code == FLAC {
        Some("flac"@)
    } else if code == OPUS_MIXED || code == OPUS {
        Some("opus"@)
    } else if code == AC_3 || code == AC_3_CAPS {
        Some("ac3"@)
    } else if code == EC_3 || code == EC_3_CAPS {
        Some("eac3"@)
    } else if code == DTSC || code == DTSH || code == DTSL || code == DTSE {
        Some("dts"@)
    } else if code == ULAW {
        Some("pcm_mulaw"@)
    } else if code == ALAW {
        Some("pcm_alaw"@)
    } else if code == AVC1 || code == AVC3 {
        Some("h264"@)
    } else if code == HVC1 || code == HEV1 {
        Some("h265"@)
    } else if code == VP08 {
        Some("vp8"@)
    } else if code == VP09 {
        Some("vp9"@)
    } else if code == AV01 {
        Some("av1"@)
    } else if code == JPEG || code == MJPA || code == MJPB {
        Some("mjpeg"@)
    } else if code == APCO || code == APCO_CAPS || code == APCS || code == APCS_CAPS
        || code == APCN || code == APCN_CAPS || code == APCH || code == APCH_CAPS || code == AP4H
        || code == AP4H_CAPS || code == AP4X || code == AP4X_CAPS
    {
        Some("prores"@)
    } else if code == MP4V {
        Some("mpeg4video"@)
    } else if code == S263 || code == H263 {
        Some("h263"@)
    } else if code == LPCM || code == SOWT || code == TWOS {
        Some("pcm_s16le"@)
    } else if code == TX3G {
        Some("mov_text"@)
    } else if code == TEXT {
        Some("text"@)
    } else if code == WVTT {
        Some("webvtt"@)
    } else if code == STPP {
        Some("ttml"@)
    } else if code == SBTT {
        Some("sbtt"@)
    } else if code == STXT {
        Some("stxt"@)
    } else if code == C608 {
        Some("eia_608"@)
    } else if code == C708 {
        Some("eia_708"@)
    } else {
        None
    }
}

/// The codec of a sample entry; one without a codec of its own is named
/// after its code.
pub open spec fn codec_name(code: [u8; 4]) -> Seq<char> {
    match known_codec(code) {
        Some(name) => name,
        None => "mp4:"@ + type_text(code@),
    }
}

/// The codec of an `mp4a` or `mp4v` entry with an object type indication,
/// and of other entries without regard to it.
pub open spec fn codec_name_with_oti(code: [u8; 4], oti: u8) -> Seq<char> {
    if code == MP4A {
        if oti == 0x69 || oti == 0x6B {
            "mp3"@
        } else if oti == 0xA5 {
            "ac3"@
        } else if oti == 0xA6 {
            "eac3"@
        } else if oti == 0xA9 {
            "dts"@
        } else {
            "aac"@
        }
    } else if code == MP4V {
        if oti == 0x6A {
            "mpeg1video"@
        } else if 0x60 <= oti <= 0x65 {
            "mpeg2video"@
        } else if oti == 0x21 {
            "h264"@
        } else if oti == 0x23 {
            "h265"@
        } else if oti == 0x6C {
            "mjpeg"@
        } else {
            "mpeg4video"@
        }
    } else {
        codec_name(code)
    }
}

/// An object type indication counts on `mp4a` and `mp4v` entries alone.
pub proof fn law_oti_is_ignored_elsewhere(code: [u8; 4], oti: u8)
    requires
        code != MP4A,
        code != MP4V,
    ensures
        codec_name_with_oti(code, oti) == codec_name(code),
{
}

/// An object type indication that selects no other codec leaves the codec
/// that the code alone names.
pub proof fn law_other_oti_keeps_the_default(oti: u8)
    ensures
        !(oti == 0x69 || oti == 0x6B || oti == 0xA5 || oti == 0xA6 || oti == 0xA9)
            ==> codec_name_with_oti(MP4A, oti) == codec_name(MP4A),
        !(oti == 0x6A || 0x60 <= oti <= 0x65 || oti == 0x21 || oti == 0x23 || oti == 0x6C)
            ==> codec_name_with_oti(MP4V, oti) == codec_name(MP4V),
{
    assert(MP4V@[0] == 0x6d && MP4V@[1] == 0x70 && MP4V@[2] == 0x34 && MP4V@[3] == 0x76);
    assert(known_codec(MP4V) == Some("mpeg4video"@));
}

/// The codec of a sample entry whose code alone names one.
fn lookup(fourcc: &[u8; 4]) -> (r: Option<&'static str>)
    ensures
        match r {
            Some(name) => known_codec(*fourcc) == Some(name@),
            None => known_codec(*fourcc) is None,
        },
{
    if same_code(fourcc, &MP4A) {
        Some("aac")
    } else if same_code(fourcc, &ALAC) {
        Some("alac")
    } else if same_code(fourcc, &FLAC_MIXED) || same_code(fourcc, &FLAC) {
        Some("flac")
    } else if same_code(fourcc, &OPUS_MIXED) || same_code(fourcc, &OPUS) {
        Some("opus")
    } else if same_code(fourcc, &AC_3) || same_code(fourcc, &AC_3_CAPS) {
        Some("ac3")
    } else if same_code(fourcc, &EC_3) || same_code(fourcc, &EC_3_CAPS) {
        Some("eac3")
    } else if same_code(fourcc, &DTSC) || same_code(fourcc, &DTSH) || same_code(fourcc, &DTSL)
        || same_code(fourcc, &DTSE)
    {
        Some("dts")
    } else if same_code(fourcc, &ULAW) {
        Some("pcm_mulaw")
    } else if same_code(fourcc, &ALAW) {
        Some("pcm_alaw")
    } else if same_code(fourcc, &AVC1) || same_code(fourcc, &AVC3) {
        Some("h264")
    } else if same_code(fourcc, &HVC1) || same_code(fourcc, &HEV1) {
        Some("h265")
    } else if same_code(fourcc, &VP08) {
        Some("vp8")
    } else if same_code(fourcc, &VP09) {
        Some("vp9")
    } else if same_code(fourcc, &AV01) {
        Some("av1")
    } else if same_code(fourcc, &JPEG) || same_code(fourcc, &MJPA) || same_code(fourcc, &MJPB) {
        Some("mjpeg")
    } else if same_code(fourcc, &APCO) || same_code(fourcc, &APCO_CAPS)
        || same_code(fourcc, &APCS) || same_code(fourcc, &APCS_CAPS) || same_code(fourcc, &APCN)
        || same_code(fourcc, &APCN_CAPS) || same_code(fourcc, &APCH)
        || same_code(fourcc, &APCH_CAPS) || same_code(fourcc, &AP4H)
        || same_code(fourcc, &AP4H_CAPS) || same_code(fourcc, &AP4X)
        || same_code(fourcc, &AP4X_CAPS)
    {
        Some("prores")
    } else if same_code(fourcc, &MP4V) {
        Some("mpeg4video")
    } else if same_code(fourcc, &S263) || same_code(fourcc, &H263) {
        Some("h263")
    } else if same_code(fourcc, &LPCM) || same_code(fourcc, &SOWT) || same_code(fourcc, &TWOS) {
        Some("pcm_s16le")
    } else if same_code(fourcc, &TX3G) {
        Some("mov_text")
    } else if same_code(fourcc, &TEXT) {
        Some("text")
    } else if same_code(fourcc, &WVTT) {
        Some("webvtt")
    } else if same_code(fourcc, &STPP) {
        Some("ttml")
    } else if same_code(fourcc, &SBTT) {
        Some("sbtt")
    } else if same_code(fourcc, &STXT) {
        Some("stxt")
    } else if same_code(fourcc, &C608) {
        Some("eia_608")
    } else if same_code(fourcc, &C708) {
        Some("eia_708")
    } else {
        None
    }
}

/// The codec of a sample entry, by its code.
pub fn from_sample_entry(fourcc: &[u8; 4]) -> (r: CodecId)
    ensures
        r.0@ == codec_name(*fourcc),
{
    match lookup(fourcc) {
        Some(name) => codec_id(name),
        None => {
            let mut s: String = String::new();
            push_text(&mut s, "mp4:");
            push_text(&mut s, code_text(fourcc));
            assert(s@ =~= "mp4:"@ + type_text(fourcc@));
            codec_id(s.as_str())
        },
    }
}

/// The codec of a sample entry, by its code and the object type indication
/// of its elementary stream descriptor.
pub fn from_sample_entry_with_oti(fourcc: &[u8; 4], oti: u8) -> (r: CodecId)
    ensures
        r.0@ == codec_name_with_oti(*fourcc, oti),
{
    if same_code(fourcc, &MP4A) {
        codec_id(
            match oti {
                0x69 | 0x6B => "mp3",
                0xA5 => "ac3",
                0xA6 => "eac3",
                0xA9 => "dts",
                _ => "aac",
            },
        )
    } else if same_code(fourcc, &MP4V) {
        codec_id(
            match oti {
                0x6A => "mpeg1video",
                0x60 | 0x61 | 0x62 | 0x63 | 0x64 | 0x65 => "mpeg2video",
                0x21 => "h264",
                0x23 => "h265",
                0x6C => "mjpeg",
                _ => "mpeg4video",
            },
        )
    } else {
        from_sample_entry(fourcc)
    }
}

/// A code is another one if and only if their bytes are the same.
proof fn lemma_same(a: [u8; 4], b: [u8; 4])
    ensures
        a == b <==> a@[0] == b@[0] && a@[1] == b@[1] && a@[2] == b@[2] && a@[3] == b@[3],
{
    if a@[0] == b@[0] && a@[1] == b@[1] && a@[2] == b@[2] && a@[3] == b@[3] {
        assert(a =~= b);
    }
}

/// A code is made of these four characters.
pub open spec fn spells(code: [u8; 4], a: char, b: char, c: char, d: char) -> bool {
    code@[0] == a as u8 && code@[1] == b as u8 && code@[2] == c as u8 && code@[3] == d as u8
}

/// The codecs of the sample entries with sound, by the characters of their
/// codes.
pub proof fn law_audio_codecs(code: [u8; 4])
    ensures
        spells(code, 'm', 'p', '4', 'a') ==> codec_name(code) == "aac"@,
        spells(code, 'a', 'l', 'a', 'c') ==> codec_name(code) == "alac"@,
        (spells(code, 'f', 'L', 'a', 'C')
            || spells(code, 'f', 'l', 'a', 'c')) ==> codec_name(code) == "flac"@,
        (spells(code, 'O', 'p', 'u', 's')
            || spells(code, 'o', 'p', 'u', 's')) ==> codec_name(code) == "opus"@,
        (spells(code, 'a', 'c', '-', '3')
            || spells(code, 'A', 'C', '-', '3')) ==> codec_name(code) == "ac3"@,
        (spells(code, 'e', 'c', '-', '3')
            || spells(code, 'E', 'C', '-', '3')) ==> codec_name(code) == "eac3"@,
        (spells(code, 'd', 't', 's', 'c')
            || spells(code, 'd', 't', 's', 'h')
            || spells(code, 'd', 't', 's', 'l')
            || spells(code, 'd', 't', 's', 'e')) ==> codec_name(code) == "dts"@,
        spells(code, 'u', 'l', 'a', 'w') ==> codec_name(code) == "pcm_mulaw"@,
        spells(code, 'a', 'l', 'a', 'w') ==> codec_name(code) == "pcm_alaw"@,
        (spells(code, 'l', 'p', 'c', 'm')
            || spells(code, 's', 'o', 'w', 't')
            || spells(code, 't', 'w', 'o', 's')) ==> codec_name(code) == "pcm_s16le"@,
{
    lemma_same(code, MP4A);
    lemma_same(code, ALAC);
    lemma_same(code, FLAC_MIXED);
    lemma_same(code, FLAC);
    lemma_same(code, OPUS_MIXED);
    lemma_same(code, OPUS);
    lemma_same(code, AC_3);
    lemma_same(code, AC_3_CAPS);
    lemma_same(code, EC_3);
    lemma_same(code, EC_3_CAPS);
    lemma_same(code, DTSC);
    lemma_same(code, DTSH);
    lemma_same(code, DTSL);
    lemma_same(code, DTSE);
    lemma_same(code, ULAW);
    lemma_same(code, ALAW);
    lemma_same(code, AVC1);
    lemma_same(code, AVC3);
    lemma_same(code, HVC1);
    lemma_same(code, HEV1);
    lemma_same(code, VP08);
    lemma_same(code, VP09);
    lemma_same(code, AV01);
    lemma_same(code, JPEG);
    lemma_same(code, MJPA);
    lemma_same(code, MJPB);
    lemma_same(code, APCO);
    lemma_same(code, APCO_CAPS);
    lemma_same(code, APCS);
    lemma_same(code, APCS_CAPS);
    lemma_same(code, APCN);
    lemma_same(code, APCN_CAPS);
    lemma_same(code, APCH);
    lemma_same(code, APCH_CAPS);
    lemma_same(code, AP4H);
    lemma_same(code, AP4H_CAPS);
    lemma_same(code, AP4X);
    lemma_same(code, AP4X_CAPS);
    lemma_same(code, MP4V);
    lemma_same(code, S263);
    lemma_same(code, H263);
    lemma_same(code, LPCM);
    lemma_same(code, SOWT);
    lemma_same(code, TWOS);
    lemma_same(code, TX3G);
    lemma_same(code, TEXT);
    lemma_same(code, WVTT);
    lemma_same(code, STPP);
    lemma_same(code, SBTT);
    lemma_same(code, STXT);
    lemma_same(code, C608);
    lemma_same(code, C708);
}

/// The codecs of the sample entries with pictures, by the characters of their
/// codes.
pub proof fn law_video_codecs(code: [u8; 4])
    ensures
        (spells(code, 'a', 'v', 'c', '1')
            || spells(code, 'a', 'v', 'c', '3')) ==> codec_name(code) == "h264"@,
        (spells(code, 'h', 'v', 'c', '1')
            || spells(code, 'h', 'e', 'v', '1')) ==> codec_name(code) == "h265"@,
        spells(code, 'v', 'p', '0', '8') ==> codec_name(code) == "vp8"@,
        spells(code, 'v', 'p', '0', '9') ==> codec_name(code) == "vp9"@,
        spells(code, 'a', 'v', '0', '1') ==> codec_name(code) == "av1"@,
        (spells(code, 'j', 'p', 'e', 'g')
            || spells(code, 'm', 'j', 'p', 'a')
            || spells(code, 'm', 'j', 'p', 'b')) ==> codec_name(code) == "mjpeg"@,
        (spells(code, 'a', 'p', 'c', 'o')
            || spells(code, 'A', 'P', 'C', 'O')
            || spells(code, 'a', 'p', 'c', 's')
            || spells(code, 'A', 'P', 'C', 'S')
            || spells(code, 'a', 'p', 'c', 'n')
            || spells(code, 'A', 'P', 'C', 'N')
            || spells(code, 'a', 'p', 'c', 'h')
            || spells(code, 'A', 'P', 'C', 'H')
            || spells(code, 'a', 'p', '4', 'h')
            || spells(code, 'A', 'P', '4', 'H')
            || spells(code, 'a', 'p', '4', 'x')
            || spells(code, 'A', 'P', '4', 'X')) ==> codec_name(code) == "prores"@,
        spells(code, 'm', 'p', '4', 'v') ==> codec_name(code) == "mpeg4video"@,
        (spells(code, 's', '2', '6', '3')
            || spells(code, 'h', '2', '6', '3')) ==> codec_name(code) == "h263"@,
{
    lemma_same(code, MP4A);
    lemma_same(code, ALAC);
    lemma_same(code, FLAC_MIXED);
    lemma_same(code, FLAC);
    lemma_same(code, OPUS_MIXED);
    lemma_same(code, OPUS);
    lemma_same(code, AC_3);
    lemma_same(code, AC_3_CAPS);
    lemma_same(code, EC_3);
    lemma_same(code, EC_3_CAPS);
    lemma_same(code, DTSC);
    lemma_same(code, DTSH);
    lemma_same(code, DTSL);
    lemma_same(code, DTSE);
    lemma_same(code, ULAW);
    lemma_same(code, ALAW);
    lemma_same(code, AVC1);
    lemma_same(code, AVC3);
    lemma_same(code, HVC1);
    lemma_same(code, HEV1);
    lemma_same(code, VP08);
    lemma_same(code, VP09);
    lemma_same(code, AV01);
    lemma_same(code, JPEG);
    lemma_same(code, MJPA);
    lemma_same(code, MJPB);
    lemma_same(code, APCO);
    lemma_same(code, APCO_CAPS);
    lemma_same(code, APCS);
    lemma_same(code, APCS_CAPS);
    lemma_same(code, APCN);
    lemma_same(code, APCN_CAPS);
    lemma_same(code, APCH);
    lemma_same(code, APCH_CAPS);
    lemma_same(code, AP4H);
    lemma_same(code, AP4H_CAPS);
    lemma_same(code, AP4X);
    lemma_same(code, AP4X_CAPS);
    lemma_same(code, MP4V);
    lemma_same(code, S263);
    lemma_same(code, H263);
    lemma_same(code, LPCM);
    lemma_same(code, SOWT);
    lemma_same(code, TWOS);
    lemma_same(code, TX3G);
    lemma_same(code, TEXT);
    lemma_same(code, WVTT);
    lemma_same(code, STPP);
    lemma_same(code, SBTT);
    lemma_same(code, STXT);
    lemma_same(code, C608);
    lemma_same(code, C708);
}

/// The codecs of the sample entries with text, by the characters of their
/// codes.
pub proof fn law_text_codecs(code: [u8; 4])
    ensures
        spells(code, 't', 'x', '3', 'g') ==> codec_name(code) == "mov_text"@,
        spells(code, 't', 'e', 'x', 't') ==> codec_name(code) == "text"@,
        spells(code, 'w', 'v', 't', 't') ==> codec_name(code) == "webvtt"@,
        spells(code, 's', 't', 'p', 'p') ==> codec_name(code) == "ttml"@,
        spells(code, 's', 'b', 't', 't') ==> codec_name(code) == "sbtt"@,
        spells(code, 's', 't', 'x', 't') ==> codec_name(code) == "stxt"@,
        spells(code, 'c', '6', '0', '8') ==> codec_name(code) == "eia_608"@,
        spells(code, 'c', '7', '0', '8') ==> codec_name(code) == "eia_708"@,
{
    lemma_same(code, MP4A);
    lemma_same(code, ALAC);
    lemma_same(code, FLAC_MIXED);
    lemma_same(code, FLAC);
    lemma_same(code, OPUS_MIXED);
    lemma_same(code, OPUS);
    lemma_same(code, AC_3);
    lemma_same(code, AC_3_CAPS);
    lemma_same(code, EC_3);
    lemma_same(code, EC_3_CAPS);
    lemma_same(code, DTSC);
    lemma_same(code, DTSH);
    lemma_same(code, DTSL);
    lemma_same(code, DTSE);
    lemma_same(code, ULAW);
    lemma_same(code, ALAW);
    lemma_same(code, AVC1);
    lemma_same(code, AVC3);
    lemma_same(code, HVC1);
    lemma_same(code, HEV1);
    lemma_same(code, VP08);
    lemma_same(code, VP09);
    lemma_same(code, AV01);
    lemma_same(code, JPEG);
    lemma_same(code, MJPA);
    lemma_same(code, MJPB);
    lemma_same(code, APCO);
    lemma_same(code, APCO_CAPS);
    lemma_same(code, APCS);
    lemma_same(code, APCS_CAPS);
    lemma_same(code, APCN);
    lemma_same(code, APCN_CAPS);
    lemma_same(code, APCH);
    lemma_same(code, APCH_CAPS);
    lemma_same(code, AP4H);
    lemma_same(code, AP4H_CAPS);
    lemma_same(code, AP4X);
    lemma_same(code, AP4X_CAPS);
    lemma_same(code, MP4V);
    lemma_same(code, S263);
    lemma_same(code, H263);
    lemma_same(code, LPCM);
    lemma_same(code, SOWT);
    lemma_same(code, TWOS);
    lemma_same(code, TX3G);
    lemma_same(code, TEXT);
    lemma_same(code, WVTT);
    lemma_same(code, STPP);
    lemma_same(code, SBTT);
    lemma_same(code, STXT);
    lemma_same(code, C608);
    lemma_same(code, C708);
}

/// What an object type indication says of `mp4a` and `mp4v` entries.
pub proof fn law_oti_codecs(oti: u8)
    ensures
        (oti == 0x69 || oti == 0x6B) ==> codec_name_with_oti(MP4A, oti) == "mp3"@,
        oti == 0xA5 ==> codec_name_with_oti(MP4A, oti) == "ac3"@,
        oti == 0xA6 ==> codec_name_with_oti(MP4A, oti) == "eac3"@,
        oti == 0xA9 ==> codec_name_with_oti(MP4A, oti) == "dts"@,
        oti == 0x6A ==> codec_name_with_oti(MP4V, oti) == "mpeg1video"@,
        0x60 <= oti <= 0x65 ==> codec_name_with_oti(MP4V, oti) == "mpeg2video"@,
        oti == 0x21 ==> codec_name_with_oti(MP4V, oti) == "h264"@,
        oti == 0x23 ==> codec_name_with_oti(MP4V, oti) == "h265"@,
        oti == 0x6C ==> codec_name_with_oti(MP4V, oti) == "mjpeg"@,
{
    lemma_same(MP4V, MP4A);
}

} // verus!
