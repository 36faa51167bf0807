//! Decoding of the NMEA 0183 sentences that a GPS receiver sends over a serial
//! line: framing of the byte stream into lines, checksum validation, splitting
//! into fields and decoding of each sentence type into a typed record.
//!
//! The library decides; the caller does the reading. [`LineReader`] gathers
//! the bytes of one line from the events of a read loop, [`decode_line`] turns
//! a line into a record, and [`GsvReport::add_line`] takes in the further lines
//! of a satellites-in-view report.
pub mod nmea;
pub mod numeral;
pub mod open_gps;
pub mod text;

pub use nmea::gga::{GgaData, SatFix};
pub use nmea::gll::GllData;
pub use nmea::gsa::{DimensionFix, GsaData};
pub use nmea::gsv::Satellites;
pub use nmea::rmc::RmcData;
pub use nmea::vtg::VtgData;
pub use nmea::DecodeError;
pub use numeral::Decimal;
pub use open_gps::gps::{
    decode_line, is_valid_checksum, GpsSentence, GsvReport, LineReader, PortConnection,
    ReadEvent, UpdateStep,
};
