//! File delivery item information: how source files are partitioned into
//! blocks and reservoirs for transmission.

pub mod feci;
pub mod fiin;
pub mod fpar;
pub mod layout_laws;
pub mod names;
pub mod partition;
pub mod reservoir;
pub mod session;
pub mod wire;

pub use feci::{build_feci_box, parse_feci_box, FeciBox};
pub use fiin::{build_fiin_box, parse_fiin_box, FiinBox};
pub use fpar::{build_fpar_box, parse_fpar_box, FparBox, FparEntry};
pub use names::{build_gitn_box, parse_gitn_box, GitnBox, GroupName};
pub use partition::{build_paen_box, parse_paen_box, PartitionEntry};
pub use reservoir::{build_reservoir_box, parse_reservoir_box, ReservoirBox, ReservoirEntry};
pub use session::{build_segr_box, parse_segr_box, SegrBox, SessionGroup};
pub use wire::{
    each_child, rd_cstr, rd_fullbox, rd_id, rd_u16, rd_u32, rd_u8, wr_fullbox, wr_id, Child,
};
