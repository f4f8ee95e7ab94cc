//! A copy-on-write block overlay for a single file: the base file stays
//! untouched, overwritten blocks go to a diff sidecar and bytes past the
//! base's full blocks go to an extra sidecar.

pub mod blocks;
pub mod layout;
pub mod engine;
pub mod memory;
pub mod laws;
pub mod mount;
