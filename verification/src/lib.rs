//! Geometric compression of planar point sets by translational equivalence
//! classes (SIA, SIATEC, COSIATEC and RecurSIA), with the conversions between
//! note events and points used for Note Block Studio music.

pub mod sort;
pub mod geometry;
pub mod sia;
pub mod tec;
pub mod siatec;
pub mod cosiatec;
pub mod recursia;
pub mod notes;
pub mod utils;
pub mod laws;

pub use tec::TranslationalEquivalence;
pub use sia::find_mtps;
pub use siatec::build_tecs_from_mtps;
pub use cosiatec::cosiatec_compress;
pub use recursia::recursive_cosiatec_compress;
