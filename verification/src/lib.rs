//! The ISO base media file format: boxes, common encryption, file delivery
//! items and fragmented output.

pub mod aux_info;
pub mod body;
pub mod boxes;
pub mod buffer;
pub mod bytes;
pub mod cenc;
pub mod codec_id;
pub mod edits;
pub mod emsg;
pub mod fd;
pub mod frag;
pub mod levels;
pub mod mutate;
pub mod mux_plan;
pub mod options;
pub mod probe;
pub mod reads;
pub mod recipe;
pub mod sample_groups;
pub mod seqs;
pub mod styp;
pub mod text;
pub mod time;
pub mod tracks;

pub use options::{
    BrandPreset, FragmentCadence, FragmentedOptions, Mp4MuxerOptions, TrackEditList,
    TrackProtection, TrackSampleGroups,
};
