//! Fragmented files: an initialization segment, then one movie fragment
//! with its media data after another.

pub mod error;
pub mod field_laws;
pub mod fields;
pub mod file_laws;
pub mod init;
pub mod model;
pub mod moof;
pub mod moof_laws;
pub mod mux_laws;
pub mod muxer;
pub mod open;
pub mod plain_laws;
pub mod protect;
pub mod protect_laws;
pub mod queue;
pub mod run;
pub mod run_laws;
pub mod sample_laws;
pub mod track;
pub mod wire_laws;

pub use error::MuxError;
pub use fields::PrftRequest;
pub use muxer::{FragmentedMuxer, MehdPatch, Trailer};
pub use open::open_fragmented_typed;
pub use track::{Packet, TrackSetup};
