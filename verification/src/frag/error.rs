//! Why a muxer refuses.

use crate::cenc::error::{cenc_error_text, CencError};
use crate::edits::{edit_list_error_text, EditListError};
use crate::text::{counted, decimal, plain, push_decimal, push_text};
use vstd::prelude::*;

verus! {

/// Why a muxer refuses.
#[derive(Clone, Copy, Debug, PartialEq, Eq)]
pub enum MuxError {
    /// There is no stream to write.
    NoStreams,
    /// An edit list for a stream that there is not.
    EditListStream { stream_index: usize, streams: usize },
    /// An edit list that cannot be written.
    EditList(EditListError),
    /// More levels than their count can name.
    TooManyLevels,
    /// A protection record that does not hold.
    Cenc(CencError),
    /// The header is there already.
    HeaderTwice,
    /// Packets before the header.
    NoHeader,
    /// The trailer before the header.
    TrailerBeforeHeader,
    /// A packet of a stream that there is not.
    UnknownStream { stream_index: usize },
    /// A protected packet of a track without protection.
    NotProtected { stream_index: usize },
    /// A protected packet after a plain one in the same fragment.
    ProtectedAfterPlain { stream_index: usize },
    /// A plain packet after a protected one in the same fragment.
    PlainAfterProtected { stream_index: usize },
    /// An initialization vector of another size than the track's.
    IvLength { stream_index: usize, iv_len: usize, iv_size: u8 },
    /// An initialization vector on a track with a constant one.
    IvOnConstant { stream_index: usize },
    /// A protected packet of a track that is clear by default.
    ClearByDefault { stream_index: usize },
    /// Subsamples that do not cover the sample.
    SubsampleCover { stream_index: usize, total: u64, sample_len: usize },
    /// An override with another size of initialization vectors.
    OverrideIvSize { stream_index: usize, default_size: u8, override_size: u8 },
    /// Encryption entries that do not match the pending samples.
    SencOutOfStep,
    /// Group overrides that do not match the pending samples.
    SeigOutOfStep,
    /// Auxiliary information that is longer than its size can say.
    AuxInfoSize { sample: usize, info_len: u64 },
    /// Auxiliary information too far into the fragment.
    AuxInfoOffset,
    /// An event with a string that holds its own terminator.
    EventString,
    /// A part of a subsegment that 32 bits cannot measure.
    SubsegmentRange,
    /// A part of a subsegment that 24 bits cannot measure.
    SubsegmentLevelRange,
    /// Empty time before the header.
    EmptyTimeBeforeHeader,
    /// Empty time after the trailer.
    EmptyTimeAfterTrailer,
    /// Empty time for a stream that there is not.
    EmptyTimeStream { stream_index: usize, streams: usize },
    /// Empty time together with edit lists.
    EmptyTimeWithEdits,
}

/// The message that stands for an error.
pub open spec fn mux_error_text(e: MuxError) -> Seq<char> {
    match e {
        MuxError::NoStreams => "mp4 muxer: need at least one stream"@,
        MuxError::EditListStream { stream_index, streams } =>
            "mp4 muxer: track_edit_lists stream_index "@
            + decimal(stream_index as nat) + " out of range ("@ + decimal(streams as nat)
            + " streams)"@,
        MuxError::EditList(e) => edit_list_error_text(e),
        MuxError::TooManyLevels => "MP4: leva holds more levels than its count can name"@,
        MuxError::Cenc(e) => cenc_error_text(e),
        MuxError::HeaderTwice => "mp4 muxer: write_header called twice"@,
        MuxError::NoHeader => "mp4 muxer: write_header not called"@,
        MuxError::TrailerBeforeHeader => "mp4 muxer: write_trailer before write_header"@,
        MuxError::UnknownStream { stream_index } => {
            "mp4 muxer: unknown stream index "@ + decimal(stream_index as nat)
        },
        MuxError::NotProtected { stream_index } => "mp4 muxer: write_protected_packet on stream "@
            + decimal(stream_index as nat) + " without a track_protection directive"@,
        MuxError::ProtectedAfterPlain { stream_index } => "mp4 muxer: stream "@
            + decimal(stream_index as nat)
            + " mixes write_protected_packet with plain write_packet within one fragment (senc covers all samples or none, ISO/IEC 23001-7 §7.2.3)"@,
        MuxError::PlainAfterProtected { stream_index } => "mp4 muxer: stream "@
            + decimal(stream_index as nat)
            + " mixes plain write_packet with write_protected_packet within one fragment (senc covers all samples or none, ISO/IEC 23001-7 §7.2.3)"@,
        MuxError::IvLength { stream_index, iv_len, iv_size } => "mp4 muxer: stream "@
            + decimal(stream_index as nat) + " per-sample IV is "@ + decimal(iv_len as nat)
            + " bytes but tenc.default_Per_Sample_IV_Size is "@ + decimal(iv_size as nat)
            + " (§9.2)"@,
        MuxError::IvOnConstant { stream_index } => "mp4 muxer: stream "@
            + decimal(stream_index as nat)
            + " uses a constant IV — senc entries must not carry per-sample IV bytes (§9.2)"@,
        MuxError::ClearByDefault { stream_index } => "mp4 muxer: stream "@
            + decimal(stream_index as nat)
            + " tenc default is unprotected (isProtected == 0) — write_protected_packet has no IV context"@,
        MuxError::SubsampleCover { stream_index, total, sample_len } => "mp4 muxer: stream "@
            + decimal(stream_index as nat) + " subsample map covers "@ + decimal(total as nat)
            + " bytes but the sample is "@ + decimal(sample_len as nat) + " bytes (§9.5.1)"@,
        MuxError::OverrideIvSize { stream_index, default_size, override_size } =>
            "mp4 muxer: stream "@
            + decimal(stream_index as nat) + " seig override changes Per_Sample_IV_Size from "@
            + decimal(default_size as nat) + " to "@ + decimal(override_size as nat)
            + " — the fragment's senc stores one IV width for all samples (§7.2.3)"@,
        MuxError::SencOutOfStep => "MP4: pending senc entries out of step with pending samples"@,
        MuxError::SeigOutOfStep => "MP4: pending seig overrides out of step with pending samples"@,
        MuxError::AuxInfoSize { sample, info_len } => "MP4: sample "@
            + decimal(sample as nat) + " CENC auxiliary info is "@ + decimal(info_len as nat)
            + " bytes — exceeds the 8-bit saiz sample_info_size field (§8.7.8.3)"@,
        MuxError::AuxInfoOffset => "MP4: saio offset exceeds u32 (moof too large for v0 saio)"@,
        MuxError::EventString => "MP4: emsg string holds a NUL byte"@,
        MuxError::SubsegmentRange => "MP4: ssix subsegment range exceeds 32 bits"@,
        MuxError::SubsegmentLevelRange => "MP4: ssix level range exceeds its 24-bit field"@,
        MuxError::EmptyTimeBeforeHeader => "mp4 muxer: insert_empty_time before write_header"@,
        MuxError::EmptyTimeAfterTrailer => "mp4 muxer: insert_empty_time after write_trailer"@,
        MuxError::EmptyTimeStream { stream_index, streams } =>
            "mp4 muxer: insert_empty_time stream_index "@
            + decimal(stream_index as nat) + " out of range ("@ + decimal(streams as nat)
            + " streams)"@,
        MuxError::EmptyTimeWithEdits =>
            "mp4 muxer: §8.8.7.1 forbids combining empty-duration fragments with edit lists in the Movie Box (track_edit_lists is set)"@,
    }
}

impl MuxError {
    /// The message that stands for the error.
    pub fn message(&self) -> (r: String)
        ensures
            r@ == mux_error_text(*self),
    {
        match *self {
            MuxError::NoStreams => plain("mp4 muxer: need at least one stream"),
            MuxError::EditListStream { stream_index, streams } => {
                let mut s: String = String::new();
                push_text(&mut s, "mp4 muxer: track_edit_lists stream_index ");
                push_decimal(&mut s, stream_index as u64);
                push_text(&mut s, " out of range (");
                push_decimal(&mut s, streams as u64);
                push_text(&mut s, " streams)");
                assert(s@ =~= mux_error_text(*self));
                s
            },
            MuxError::EditList(e) => e.message(),
            MuxError::TooManyLevels => plain("MP4: leva holds more levels than its count can name"),
            MuxError::Cenc(e) => e.message(),
            MuxError::HeaderTwice => plain("mp4 muxer: write_header called twice"),
            MuxError::NoHeader => plain("mp4 muxer: write_header not called"),
            MuxError::TrailerBeforeHeader => plain("mp4 muxer: write_trailer before write_header"),
            MuxError::UnknownStream { stream_index } => {
                let mut s: String = plain("mp4 muxer: unknown stream index ");
                push_decimal(&mut s, stream_index as u64);
                s
            },
            MuxError::NotProtected { stream_index } => counted(
                "mp4 muxer: write_protected_packet on stream ",
                stream_index as u64,
                " without a track_protection directive",
            ),
            MuxError::ProtectedAfterPlain { stream_index } => counted(
                "mp4 muxer: stream ",
                stream_index as u64,
                " mixes write_protected_packet with plain write_packet within one fragment (senc covers all samples or none, ISO/IEC 23001-7 §7.2.3)",
            ),
            MuxError::PlainAfterProtected { stream_index } => counted(
                "mp4 muxer: stream ",
                stream_index as u64,
                " mixes plain write_packet with write_protected_packet within one fragment (senc covers all samples or none, ISO/IEC 23001-7 §7.2.3)",
            ),
            MuxError::IvLength { stream_index, iv_len, iv_size } => {
                let mut s: String = String::new();
                push_text(&mut s, "mp4 muxer: stream ");
                push_decimal(&mut s, stream_index as u64);
                push_text(&mut s, " per-sample IV is ");
                push_decimal(&mut s, iv_len as u64);
                push_text(&mut s, " bytes but tenc.default_Per_Sample_IV_Size is ");
                push_decimal(&mut s, iv_size as u64);
                push_text(&mut s, " (§9.2)");
                assert(s@ =~= mux_error_text(*self));
                s
            },
            MuxError::IvOnConstant { stream_index } => counted(
                "mp4 muxer: stream ",
                stream_index as u64,
                " uses a constant IV — senc entries must not carry per-sample IV bytes (§9.2)",
            ),
            MuxError::ClearByDefault { stream_index } => counted(
                "mp4 muxer: stream ",
                stream_index as u64,
                " tenc default is unprotected (isProtected == 0) — write_protected_packet has no IV context",
            ),
            MuxError::SubsampleCover { stream_index, total, sample_len } => {
                let mut s: String = String::new();
                push_text(&mut s, "mp4 muxer: stream ");
                push_decimal(&mut s, stream_index as u64);
                push_text(&mut s, " subsample map covers ");
                push_decimal(&mut s, total as u64);
                push_text(&mut s, " bytes but the sample is ");
                push_decimal(&mut s, sample_len as u64);
                push_text(&mut s, " bytes (§9.5.1)");
                assert(s@ =~= mux_error_text(*self));
                s
            },
            MuxError::OverrideIvSize { stream_index, default_size, override_size } => {
                let mut s: String = String::new();
                push_text(&mut s, "mp4 muxer: stream ");
                push_decimal(&mut s, stream_index as u64);
                push_text(&mut s, " seig override changes Per_Sample_IV_Size from ");
                push_decimal(&mut s, default_size as u64);
                push_text(&mut s, " to ");
                push_decimal(&mut s, override_size as u64);
                push_text(&mut s, " — the fragment's senc stores one IV width for all samples (§7.2.3)");
                assert(s@ =~= mux_error_text(*self));
                s
            },
            MuxError::SencOutOfStep => {
                plain("MP4: pending senc entries out of step with pending samples")
            },
            MuxError::SeigOutOfStep => {
                plain("MP4: pending seig overrides out of step with pending samples")
            },
            MuxError::AuxInfoSize { sample, info_len } => {
                let mut s: String = String::new();
                push_text(&mut s, "MP4: sample ");
                push_decimal(&mut s, sample as u64);
                push_text(&mut s, " CENC auxiliary info is ");
                push_decimal(&mut s, info_len as u64);
                push_text(&mut s, " bytes — exceeds the 8-bit saiz sample_info_size field (§8.7.8.3)");
                assert(s@ =~= mux_error_text(*self));
                s
            },
            MuxError::AuxInfoOffset => {
                plain("MP4: saio offset exceeds u32 (moof too large for v0 saio)")
            },
            MuxError::EventString => plain("MP4: emsg string holds a NUL byte"),
            MuxError::SubsegmentRange => plain("MP4: ssix subsegment range exceeds 32 bits"),
            MuxError::SubsegmentLevelRange => {
                plain("MP4: ssix level range exceeds its 24-bit field")
            },
            MuxError::EmptyTimeBeforeHeader => {
                plain("mp4 muxer: insert_empty_time before write_header")
            },
            MuxError::EmptyTimeAfterTrailer => {
                plain("mp4 muxer: insert_empty_time after write_trailer")
            },
            MuxError::EmptyTimeStream { stream_index, streams } => {
                let mut s: String = String::new();
                push_text(&mut s, "mp4 muxer: insert_empty_time stream_index ");
                push_decimal(&mut s, stream_index as u64);
                push_text(&mut s, " out of range (");
                push_decimal(&mut s, streams as u64);
                push_text(&mut s, " streams)");
                assert(s@ =~= mux_error_text(*self));
                s
            },
            MuxError::EmptyTimeWithEdits => plain(
                "mp4 muxer: §8.8.7.1 forbids combining empty-duration fragments with edit lists in the Movie Box (track_edit_lists is set)",
            ),
        }
    }
}

} // verus!
