//! GGA: time, latitude, longitude, fix quality, satellites used, HDOP, altitude
//! above mean sea level, geoidal separation, age of differential correction.
use vstd::prelude::*;

use crate::nmea::parse_nmea::{_parse_degrees, spec_parse_degrees};
use crate::nmea::DecodeError;
use crate::numeral::{parse_decimal, parse_i32, spec_decimal, spec_i32, Decimal};
use crate::text::views;

verus! {

/// The kind of satellite fix.
#[derive(Clone, Copy, Debug, PartialEq, Eq, Structural)]
pub enum SatFix {
    /// No satellites received.
    NoFix,
    /// A fix from the satellites.
    GpsFix,
    /// A differential fix, corrected by ground stations.
    DgpsFix,
}

/// A decoded GGA sentence. Coordinates are signed decimal degrees; altitudes
/// and separation are in metres; the age of the correction is in seconds.
#[derive(Clone, Copy, Debug, PartialEq, Eq, Structural)]
pub struct GgaData {
    pub utc: Decimal,
    pub lat: Option<Decimal>,
    pub long: Option<Decimal>,
    pub sat_fix: SatFix,
    pub satellites_used: i32,
    pub hdop: Option<Decimal>,
    pub msl_alt: Option<Decimal>,
    pub geoidal_sep: Option<Decimal>,
    pub age_diff_corr: Option<Decimal>,
}

/// The fix quality code: `1` a fix, `2` a differential fix, anything else none.
pub open spec fn spec_sat_fix(code: Seq<char>) -> SatFix {
    if code == seq!['1'] {
        SatFix::GpsFix
    } else if code == seq!['2'] {
        SatFix::DgpsFix
    } else {
        SatFix::NoFix
    }
}

/// The header's sentence type begins with `GG`.
pub open spec fn is_gga_header(h: Seq<char>) -> bool {
    h.len() >= 5 && h[3] == 'G' && h[4] == 'G'
}

/// `$xxGGA, utc, lat, N/S, long, E/W, fix quality, satellites used, HDOP,
/// altitude, M, geoidal separation, M, age of correction`.
pub open spec fn spec_parse_gga(a: Seq<Seq<char>>) -> Result<GgaData, DecodeError> {
    if a.len() == 0 || !is_gga_header(a[0]) {
        Err(DecodeError::HeaderMismatch)
    } else if a.len() < 14 {
        Err(DecodeError::MissingField)
    } else {
        match spec_decimal(a[1]) {
            None => Err(DecodeError::InvalidNumeral),
            Some(utc) => match spec_parse_degrees(a[2], a[3]) {
                Err(e) => Err(e),
                Ok(lat) => match spec_parse_degrees(a[4], a[5]) {
                    Err(e) => Err(e),
                    Ok(long) => match spec_i32(a[7]) {
                        None => Err(DecodeError::InvalidNumeral),
                        Some(satellites_used) => Ok(
                            GgaData {
                                utc,
                                lat,
                                long,
                                sat_fix: spec_sat_fix(a[6]),
                                satellites_used,
                                hdop: spec_decimal(a[8]),
                                msl_alt: spec_decimal(a[9]),
                                geoidal_sep: spec_decimal(a[11]),
                                age_diff_corr: spec_decimal(a[13]),
                            },
                        ),
                    },
                },
            },
        }
    }
}

fn sat_fix_of(code: &str) -> (r: SatFix)
    ensures
        r == spec_sat_fix(code@),
{
    if crate::nmea::parse_nmea::is_code(code, '1') {
        SatFix::GpsFix
    } else if crate::nmea::parse_nmea::is_code(code, '2') {
        SatFix::DgpsFix
    } else {
        SatFix::NoFix
    }
}

/// Decodes the fields of a GGA sentence, header first.
pub fn parse_gga(args: Vec<&str>) -> (r: Result<GgaData, DecodeError>)
    ensures
        r == spec_parse_gga(views(args@)),
{
    proof {
        assert(forall|i: int| 0 <= i < args@.len() ==> views(args@)[i] == args@[i]@);
    }
    if args.len() == 0 {
        return Err(DecodeError::HeaderMismatch);
    }
    let header = args[0];
    if !(header.unicode_len() >= 5 && header.get_char(3) == 'G' && header.get_char(4) == 'G') {
        return Err(DecodeError::HeaderMismatch);
    }
    if args.len() < 14 {
        return Err(DecodeError::MissingField);
    }
    let utc = match parse_decimal(args[1]) {
        Some(u) => u,
        None => {
            return Err(DecodeError::InvalidNumeral);
        },
    };
    let lat = match _parse_degrees(args[2], args[3]) {
        Ok(v) => v,
        Err(e) => {
            return Err(e);
        },
    };
    let long = match _parse_degrees(args[4], args[5]) {
        Ok(v) => v,
        Err(e) => {
            return Err(e);
        },
    };
    let satellites_used = match parse_i32(args[7]) {
        Some(n) => n,
        None => {
            return Err(DecodeError::InvalidNumeral);
        },
    };
    Ok(
        GgaData {
            utc,
            lat,
            long,
            sat_fix: sat_fix_of(args[6]),
            satellites_used,
            hdop: parse_decimal(args[8]),
            msl_alt: parse_decimal(args[9]),
            geoidal_sep: parse_decimal(args[11]),
            age_diff_corr: parse_decimal(args[13]),
        },
    )
}

} // verus!
