//! Common Encryption (CENC) records: track defaults, sample tables, group
//! overrides, protection system headers, and the per-sample cipher plan.

pub mod case;
pub mod case_laws;
pub mod error;
pub mod layout_laws;
pub mod piff;
pub mod plan;
pub mod plan_laws;
pub mod pssh;
pub mod scheme;
pub mod senc;
pub mod sinf;
pub mod tenc;
pub mod types;

pub use case::CipherCase;
pub use error::{Carrier, CencError};
pub use piff::{
    build_piff_pssh_box, build_piff_senc_box, build_piff_tenc_box, parse_piff_pssh,
    parse_piff_senc, parse_piff_tenc, PiffSencBox, PiffSencOverride, PiffTencBox,
    PIFF_ALGORITHM_AES_CBC, PIFF_ALGORITHM_AES_CTR, PIFF_ALGORITHM_NONE, PIFF_PSSH_USERTYPE,
    PIFF_SENC_USERTYPE, PIFF_TENC_USERTYPE,
};
pub use plan::{plan_sample_cipher, CipherStep, CipherStepKind};
pub use pssh::{build_pssh_box, parse_pssh};
pub use scheme::{CencSchemeDecision, SCHEME_CBC1, SCHEME_CBCS, SCHEME_CENC, SCHEME_CENS};
pub use senc::{build_senc_box, parse_senc};
pub use sinf::build_sinf_box;
pub use tenc::{build_seig_entry, build_tenc_box, parse_seig, parse_tenc};
pub use types::{
    CencScheme, CipherMode, IvSupply, PsshBox, SeigEntry, SencBox, SencSample, SubsampleEntry,
    TencBox,
};
