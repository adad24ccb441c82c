//! Muxing plans that are valid by construction: a recipe of bytes becomes a
//! file with known contents.

pub mod order;
pub mod payload_laws;
pub mod plan;
pub mod plan_laws;
pub mod run;
pub mod steps;
pub mod time_laws;
pub mod tracks;

pub use order::Slot;
pub use plan::{FragPlan, Gap, MuxPlan, PlanBrand, MAX_PACKETS_PER_INPUT};
pub use run::{Built, TrackExpect};
pub use tracks::{StreamMedia, StreamPlan, TrackPlan};
