//! Codec names of sample entries.

use oxideav_core::CodecId;
use oxideav_mp4::codec_id::{from_sample_entry, from_sample_entry_with_oti};

#[test]
fn mp4a_default_is_aac() {
    assert_eq!(from_sample_entry(b"mp4a"), CodecId::new("aac"));
}

#[test]
fn mp4a_with_aac_oti_is_aac() {
    assert_eq!(
        from_sample_entry_with_oti(b"mp4a", 0x40),
        CodecId::new("aac")
    );
}

#[test]
fn mp4a_with_mpeg1_audio_oti_is_mp3() {
    assert_eq!(
        from_sample_entry_with_oti(b"mp4a", 0x6B),
        CodecId::new("mp3")
    );
}

#[test]
fn mp4a_with_mpeg2_audio_oti_is_mp3() {
    assert_eq!(
        from_sample_entry_with_oti(b"mp4a", 0x69),
        CodecId::new("mp3")
    );
}

#[test]
fn mp4v_default_is_mpeg4video() {
    assert_eq!(from_sample_entry(b"mp4v"), CodecId::new("mpeg4video"));
}

#[test]
fn mp4v_with_mpeg1_oti_is_mpeg1video() {
    assert_eq!(
        from_sample_entry_with_oti(b"mp4v", 0x6A),
        CodecId::new("mpeg1video")
    );
}

#[test]
fn mp4v_with_mpeg2_oti_is_mpeg2video() {
    assert_eq!(
        from_sample_entry_with_oti(b"mp4v", 0x61),
        CodecId::new("mpeg2video")
    );
}

#[test]
fn mp4v_with_part2_oti_is_mpeg4video() {
    assert_eq!(
        from_sample_entry_with_oti(b"mp4v", 0x20),
        CodecId::new("mpeg4video")
    );
}

#[test]
fn oti_is_ignored_for_non_mp4_fourccs() {
    assert_eq!(
        from_sample_entry_with_oti(b"avc1", 0x6A),
        CodecId::new("h264")
    );
}

#[test]
fn unknown_fourcc_preserves_fallback() {
    let id = from_sample_entry(b"xyzw");
    assert_eq!(id.as_str(), "mp4:xyzw");
}

#[test]
fn prores_fourccs_map_to_prores() {
    for fc in [b"apco", b"apcs", b"apcn", b"apch", b"ap4h", b"ap4x"] {
        assert_eq!(
            from_sample_entry(fc),
            CodecId::new("prores"),
            "lower-case fourcc {fc:?}",
        );
    }
    for fc in [b"APCO", b"APCS", b"APCN", b"APCH", b"AP4H", b"AP4X"] {
        assert_eq!(
            from_sample_entry(fc),
            CodecId::new("prores"),
            "upper-case fourcc {fc:?}",
        );
    }
}

#[test]
fn prores_fourccs_with_oti_still_map_to_prores() {
    assert_eq!(
        from_sample_entry_with_oti(b"ap4h", 0x42),
        CodecId::new("prores")
    );
}

#[test]
fn ac3_eac3_fourccs_map_to_dolby_codec_ids() {
    assert_eq!(from_sample_entry(b"ac-3"), CodecId::new("ac3"));
    assert_eq!(from_sample_entry(b"AC-3"), CodecId::new("ac3"));
    assert_eq!(from_sample_entry(b"ec-3"), CodecId::new("eac3"));
    assert_eq!(from_sample_entry(b"EC-3"), CodecId::new("eac3"));
}

#[test]
fn dts_fourcc_variants_all_map_to_dts() {
    for fc in [b"dtsc", b"dtsh", b"dtsl", b"dtse"] {
        assert_eq!(from_sample_entry(fc), CodecId::new("dts"), "fourcc {fc:?}",);
    }
}

#[test]
fn g711_fourccs_map_to_canonical_pcm_aliases() {
    assert_eq!(from_sample_entry(b"ulaw"), CodecId::new("pcm_mulaw"));
    assert_eq!(from_sample_entry(b"alaw"), CodecId::new("pcm_alaw"));
}

#[test]
fn subtitle_fourccs_map_to_named_codecs() {
    assert_eq!(from_sample_entry(b"tx3g"), CodecId::new("mov_text"));
    assert_eq!(from_sample_entry(b"text"), CodecId::new("text"));
    assert_eq!(from_sample_entry(b"wvtt"), CodecId::new("webvtt"));
    assert_eq!(from_sample_entry(b"stpp"), CodecId::new("ttml"));
    assert_eq!(from_sample_entry(b"sbtt"), CodecId::new("sbtt"));
    assert_eq!(from_sample_entry(b"stxt"), CodecId::new("stxt"));
    assert_eq!(from_sample_entry(b"c608"), CodecId::new("eia_608"));
    assert_eq!(from_sample_entry(b"c708"), CodecId::new("eia_708"));
}

#[test]
fn mp4a_with_dolby_dts_oti_resolves_correctly() {
    assert_eq!(
        from_sample_entry_with_oti(b"mp4a", 0xA5),
        CodecId::new("ac3")
    );
    assert_eq!(
        from_sample_entry_with_oti(b"mp4a", 0xA6),
        CodecId::new("eac3")
    );
    assert_eq!(
        from_sample_entry_with_oti(b"mp4a", 0xA9),
        CodecId::new("dts")
    );
}
