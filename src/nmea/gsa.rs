//! GSA: the satellites used for the fix, and the dilutions of precision.
use vstd::prelude::*;

use crate::nmea::parse_nmea::is_code;
use crate::nmea::DecodeError;
use crate::numeral::{parse_decimal, parse_i32, spec_decimal, spec_i32, Decimal};
use crate::text::views;

verus! {

/// Whether the receiver was forced into 2D or 3D or switches by itself.
#[derive(Clone, Copy, Debug, PartialEq, Eq, Structural)]
pub enum Mode {
    Manual,
    Automatic,
}

/// The dimension of the fix.
#[derive(Clone, Copy, Debug, PartialEq, Eq, Structural)]
pub enum DimensionFix {
    /// No fix.
    NotAvailable,
    /// Fewer than four satellites used.
    Dimension2d,
    /// Four or more satellites used.
    Dimension3d,
}

/// A decoded GSA sentence: up to twelve satellite ids, and the positional,
/// horizontal and vertical dilutions of precision.
#[derive(Clone, Copy, Debug, PartialEq, Eq, Structural)]
pub struct GsaData {
    pub mode: Mode,
    pub dimension_fix: DimensionFix,
    pub sat1: Option<i32>,
    pub sat2: Option<i32>,
    pub sat3: Option<i32>,
    pub sat4: Option<i32>,
    pub sat5: Option<i32>,
    pub sat6: Option<i32>,
    pub sat7: Option<i32>,
    pub sat8: Option<i32>,
    pub sat9: Option<i32>,
    pub sat10: Option<i32>,
    pub sat11: Option<i32>,
    pub sat12: Option<i32>,
    pub pdop: Option<Decimal>,
    pub hdop: Option<Decimal>,
    pub vdop: Option<Decimal>,
}

/// `A` automatic; `M` and anything else manual.
pub open spec fn spec_mode(code: Seq<char>) -> Mode {
    if code == seq!['A'] {
        Mode::Automatic
    } else {
        Mode::Manual
    }
}

/// `2` a 2D fix, `3` a 3D fix; `1` and anything else none.
pub open spec fn spec_dimension_fix(code: Seq<char>) -> DimensionFix {
    if code == seq!['2'] {
        DimensionFix::Dimension2d
    } else if code == seq!['3'] {
        DimensionFix::Dimension3d
    } else {
        DimensionFix::NotAvailable
    }
}

pub open spec fn is_gsa_header(h: Seq<char>) -> bool {
    h.len() >= 6 && h[3] == 'G' && h[4] == 'S' && h[5] == 'A'
}

/// `$xxGSA, mode, dimension, twelve satellite ids, PDOP, HDOP, VDOP`.
pub open spec fn spec_parse_gsa(a: Seq<Seq<char>>) -> Result<GsaData, DecodeError> {
    if a.len() == 0 || !is_gsa_header(a[0]) {
        Err(DecodeError::HeaderMismatch)
    } else if a.len() < 18 {
        Err(DecodeError::MissingField)
    } else {
        Ok(
            GsaData {
                mode: spec_mode(a[1]),
                dimension_fix: spec_dimension_fix(a[2]),
                sat1: spec_i32(a[3]),
                sat2: spec_i32(a[4]),
                sat3: spec_i32(a[5]),
                sat4: spec_i32(a[6]),
                sat5: spec_i32(a[7]),
                sat6: spec_i32(a[8]),
                sat7: spec_i32(a[9]),
                sat8: spec_i32(a[10]),
                sat9: spec_i32(a[11]),
                sat10: spec_i32(a[12]),
                sat11: spec_i32(a[13]),
                sat12: spec_i32(a[14]),
                pdop: spec_decimal(a[15]),
                hdop: spec_decimal(a[16]),
                vdop: spec_decimal(a[17]),
            },
        )
    }
}

/// Decodes the fields of a GSA sentence, header first.
pub fn parse_gsa(args: Vec<&str>) -> (r: Result<GsaData, DecodeError>)
    ensures
        r == spec_parse_gsa(views(args@)),
{
    proof {
        assert(forall|i: int| 0 <= i < args@.len() ==> views(args@)[i] == args@[i]@);
    }
    if args.len() == 0 {
        return Err(DecodeError::HeaderMismatch);
    }
    let header = args[0];
    if !(header.unicode_len() >= 6 && header.get_char(3) == 'G' && header.get_char(4) == 'S'
        && header.get_char(5) == 'A') {
        return Err(DecodeError::HeaderMismatch);
    }
    if args.len() < 18 {
        return Err(DecodeError::MissingField);
    }
    let mode = if is_code(args[1], 'A') {
        Mode::Automatic
    } else {
        Mode::Manual
    };
    let dimension_fix = if is_code(args[2], '2') {
        DimensionFix::Dimension2d
    } else if is_code(args[2], '3') {
        DimensionFix::Dimension3d
    } else {
        DimensionFix::NotAvailable
    };
    Ok(
        GsaData {
            mode,
            dimension_fix,
            sat1: parse_i32(args[3]),
            sat2: parse_i32(args[4]),
            sat3: parse_i32(args[5]),
            sat4: parse_i32(args[6]),
            sat5: parse_i32(args[7]),
            sat6: parse_i32(args[8]),
            sat7: parse_i32(args[9]),
            sat8: parse_i32(args[10]),
            sat9: parse_i32(args[11]),
            sat10: parse_i32(args[12]),
            sat11: parse_i32(args[13]),
            sat12: parse_i32(args[14]),
            pdop: parse_decimal(args[15]),
            hdop: parse_decimal(args[16]),
            vdop: parse_decimal(args[17]),
        },
    )
}

} // verus!
