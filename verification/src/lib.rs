//! Classify newline-delimited log records by their JSON `type` field and
//! aggregate per-type statistics: how many records carry each type, and how
//! many raw bytes those records take up. Lines that cannot be decoded are
//! collected, in input order, as exclusion records instead of aborting the
//! pass.

pub mod decode;
pub mod laws;
pub mod table;
