//! NMEA 0183 sentences: `$` and a header such as `GPGGA` (a two-letter talker
//! and a three-letter sentence type), comma-separated fields, `*` and a
//! two-digit hexadecimal checksum.
//!
//! - GGA: time, position, fix quality, satellites used, HDOP, altitude, geoidal
//!   separation, age of differential correction.
//! - GSA: selection mode, 2D or 3D fix, the satellites used, PDOP, HDOP, VDOP.
//! - GSV: satellites in view (id, elevation, azimuth, SNR), over several lines.
//! - RMC: time, fix status, position, speed, course, date, magnetic variation.
//! - VTG: true and magnetic course, speed in knots and in km/h, mode.
//! - GLL: position, time and validity.
//!
//! Numbers that the receiver writes with a fractional part are held exactly, as
//! a [`Decimal`](crate::numeral::Decimal).
use vstd::prelude::*;

use crate::text::views;

pub mod parse_nmea;
pub mod gga;
pub mod gsa;
pub mod gsv;
pub mod rmc;
pub mod vtg;
pub mod gll;

verus! {

/// Why a sentence that was routed to a decoder could not be decoded.
#[derive(Clone, Copy, Debug, PartialEq, Eq, Structural)]
pub enum DecodeError {
    /// The header names another sentence type than the decoder's.
    HeaderMismatch,
    /// A field that the sentence type always has is missing.
    MissingField,
    /// A field that must hold a number holds none, or one out of range.
    InvalidNumeral,
    /// A coordinate's hemisphere is none of `N`, `S`, `E`, `W`.
    InvalidHemisphere,
}

/// Decoding depends on the text of the fields alone: decoding the same field
/// sequence twice, or two sequences that hold the same text, gives equal
/// records, or the same fault, for every sentence type.
pub proof fn lemma_decoding_repeats(a: Seq<&str>, b: Seq<&str>)
    requires
        views(a) == views(b),
    ensures
        gga::spec_parse_gga(views(a)) == gga::spec_parse_gga(views(b)),
        gsa::spec_parse_gsa(views(a)) == gsa::spec_parse_gsa(views(b)),
        gsv::spec_parse_gsv(views(a)) == gsv::spec_parse_gsv(views(b)),
        rmc::spec_parse_rmc(views(a)) == rmc::spec_parse_rmc(views(b)),
        vtg::spec_parse_vtg(views(a)) == vtg::spec_parse_vtg(views(b)),
        gll::spec_parse_gll(views(a)) == gll::spec_parse_gll(views(b)),
{
}

} // verus!
