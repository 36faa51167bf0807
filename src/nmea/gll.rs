//! GLL: latitude and longitude only, with the time and a validity flag.
use vstd::prelude::*;

use crate::nmea::parse_nmea::{
    _parse_degrees, has_type, header_type_is, is_code, spec_parse_degrees,
};
use crate::nmea::DecodeError;
use crate::numeral::{parse_decimal, spec_decimal, Decimal};
use crate::text::views;

verus! {

/// A decoded GLL sentence.
#[derive(Clone, Copy, Debug, PartialEq, Eq, Structural)]
pub struct GllData {
    pub latitude: Option<Decimal>,
    pub longitude: Option<Decimal>,
    pub utc: Option<Decimal>,
    pub is_valid: bool,
}

/// `$xxGLL, lat, N/S, long, E/W, time, status`; a missing time counts as
/// midnight, a missing status as invalid.
pub open spec fn spec_parse_gll(a: Seq<Seq<char>>) -> Result<GllData, DecodeError> {
    if a.len() == 0 || !has_type(a[0], 'G', 'L', 'L') {
        Err(DecodeError::HeaderMismatch)
    } else if a.len() < 5 {
        Err(DecodeError::MissingField)
    } else {
        match spec_parse_degrees(a[1], a[2]) {
            Err(e) => Err(e),
            Ok(latitude) => match spec_parse_degrees(a[3], a[4]) {
                Err(e) => Err(e),
                Ok(longitude) => Ok(
                    GllData {
                        latitude,
                        longitude,
                        utc: if a.len() > 5 {
                            spec_decimal(a[5])
                        } else {
                            Some(Decimal { mantissa: 0, scale: 0 })
                        },
                        is_valid: a.len() > 6 && a[6] == seq!['A'],
                    },
                ),
            },
        }
    }
}

/// Decodes the fields of a GLL sentence, header first.
pub fn parse_gll(args: Vec<&str>) -> (r: Result<GllData, DecodeError>)
    ensures
        r == spec_parse_gll(views(args@)),
{
    proof {
        assert(forall|i: int| 0 <= i < args@.len() ==> views(args@)[i] == args@[i]@);
    }
    if args.len() == 0 || !header_type_is(args[0], 'G', 'L', 'L') {
        return Err(DecodeError::HeaderMismatch);
    }
    if args.len() < 5 {
        return Err(DecodeError::MissingField);
    }
    let latitude = match _parse_degrees(args[1], args[2]) {
        Ok(v) => v,
        Err(e) => {
            return Err(e);
        },
    };
    let longitude = match _parse_degrees(args[3], args[4]) {
        Ok(v) => v,
        Err(e) => {
            return Err(e);
        },
    };
    let utc = if args.len() > 5 {
        parse_decimal(args[5])
    } else {
        Some(Decimal { mantissa: 0, scale: 0 })
    };
    let is_valid = args.len() > 6 && is_code(args[6], 'A');
    Ok(GllData { latitude, longitude, utc, is_valid })
}

} // verus!
