//! The link to the receiver: line framing, checksum validation and the
//! decisions of one read cycle.
pub mod gps;
