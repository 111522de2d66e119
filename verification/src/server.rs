//! What the HTTP API answers. Everything the UI needs is derived from the live
//! tree, so the same answers work during and after a scan.

pub mod answers;
pub mod guard;
pub mod laws;
pub mod query;
