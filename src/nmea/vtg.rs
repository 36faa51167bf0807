//! VTG: course and speed over the ground.
use vstd::prelude::*;

use crate::nmea::parse_nmea::{has_type, header_type_is, is_code};
use crate::nmea::DecodeError;
use crate::numeral::{parse_decimal, spec_decimal, Decimal};
use crate::text::views;

verus! {

/// How the receiver computed the data.
#[derive(Clone, Copy, Debug, PartialEq, Eq, Structural)]
pub enum Mode {
    Autonomous,
    Differential,
    Estimated,
    Unknown,
}

/// A decoded VTG sentence: courses in degrees against true and magnetic
/// north, speed in knots and in kilometres per hour.
#[derive(Clone, Copy, Debug, PartialEq, Eq, Structural)]
pub struct VtgData {
    pub true_course: Option<Decimal>,
    pub magnetic_course: Option<Decimal>,
    pub speed_knots: Option<Decimal>,
    pub speed_kph: Option<Decimal>,
    pub mode: Mode,
}

/// `A` autonomous, `D` differential, `E` estimated, anything else unknown.
pub open spec fn spec_vtg_mode(code: Seq<char>) -> Mode {
    if code == seq!['A'] {
        Mode::Autonomous
    } else if code == seq!['D'] {
        Mode::Differential
    } else if code == seq!['E'] {
        Mode::Estimated
    } else {
        Mode::Unknown
    }
}

/// `$xxVTG, course, T, course, M, speed, N, speed, K, mode`; the mode may be
/// missing.
pub open spec fn spec_parse_vtg(a: Seq<Seq<char>>) -> Result<VtgData, DecodeError> {
    if a.len() == 0 || !has_type(a[0], 'V', 'T', 'G') {
        Err(DecodeError::HeaderMismatch)
    } else if a.len() < 8 {
        Err(DecodeError::MissingField)
    } else {
        Ok(
            VtgData {
                true_course: spec_decimal(a[1]),
                magnetic_course: spec_decimal(a[3]),
                speed_knots: spec_decimal(a[5]),
                speed_kph: spec_decimal(a[7]),
                mode: if a.len() > 9 {
                    spec_vtg_mode(a[9])
                } else {
                    Mode::Unknown
                },
            },
        )
    }
}

/// Decodes the fields of a VTG sentence, header first.
pub fn parse_vtg(args: Vec<&str>) -> (r: Result<VtgData, DecodeError>)
    ensures
        r == spec_parse_vtg(views(args@)),
{
    proof {
        assert(forall|i: int| 0 <= i < args@.len() ==> views(args@)[i] == args@[i]@);
    }
    if args.len() == 0 || !header_type_is(args[0], 'V', 'T', 'G') {
        return Err(DecodeError::HeaderMismatch);
    }
    if args.len() < 8 {
        return Err(DecodeError::MissingField);
    }
    let mode = if args.len() <= 9 {
        Mode::Unknown
    } else if is_code(args[9], 'A') {
        Mode::Autonomous
    } else if is_code(args[9], 'D') {
        Mode::Differential
    } else if is_code(args[9], 'E') {
        Mode::Estimated
    } else {
        Mode::Unknown
    };
    Ok(
        VtgData {
            true_course: parse_decimal(args[1]),
            magnetic_course: parse_decimal(args[3]),
            speed_knots: parse_decimal(args[5]),
            speed_kph: parse_decimal(args[7]),
            mode,
        },
    )
}

} // verus!
