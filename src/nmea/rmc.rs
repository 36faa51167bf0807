//! RMC: the recommended minimum data: time, fix status, position, speed,
//! course, date and magnetic variation.
use vstd::prelude::*;

use crate::nmea::parse_nmea::{
    _parse_degrees, has_type, header_type_is, is_code, lemma_decimal_bounds, spec_parse_degrees,
};
use crate::nmea::DecodeError;
use crate::numeral::{parse_decimal, spec_decimal, Decimal};
use crate::text::views;

verus! {

/// A decoded RMC sentence. Speed is in knots, course in degrees against
/// true north, the date is the `ddmmyy` field as written, and the magnetic
/// variation is positive to the east and negative to the west.
#[derive(Clone, Debug, PartialEq, Eq)]
pub struct RmcData {
    pub utc: Decimal,
    pub fix_status: bool,
    pub latitude: Option<Decimal>,
    pub longitude: Option<Decimal>,
    pub speed: Option<Decimal>,
    pub course: Option<Decimal>,
    pub date: String,
    pub mag_var: Option<Decimal>,
}

/// What an `RmcData` holds, with the date as characters.
pub struct RmcView {
    pub utc: Decimal,
    pub fix_status: bool,
    pub latitude: Option<Decimal>,
    pub longitude: Option<Decimal>,
    pub speed: Option<Decimal>,
    pub course: Option<Decimal>,
    pub date: Seq<char>,
    pub mag_var: Option<Decimal>,
}

impl View for RmcData {
    type V = RmcView;

    open spec fn view(&self) -> RmcView {
        RmcView {
            utc: self.utc,
            fix_status: self.fix_status,
            latitude: self.latitude,
            longitude: self.longitude,
            speed: self.speed,
            course: self.course,
            date: self.date@,
            mag_var: self.mag_var,
        }
    }
}

/// The magnetic variation: the value in field 10, signed by the direction in
/// field 11, negative to the west. Absent without a direction letter or where
/// the value is no numeral.
pub open spec fn spec_mag_var(a: Seq<Seq<char>>) -> Option<Decimal> {
    let dir = if a.len() > 11 { a[11] } else { Seq::<char>::empty() };
    if dir == seq!['E'] {
        spec_decimal(a[10])
    } else if dir == seq!['W'] {
        match spec_decimal(a[10]) {
            Some(v) => Some(Decimal { mantissa: -v.mantissa as i64, scale: v.scale }),
            None => None,
        }
    } else {
        None
    }
}

fn mag_var_of(args: &Vec<&str>) -> (r: Option<Decimal>)
    ensures
        r == spec_mag_var(views(args@)),
{
    proof {
        assert(forall|i: int| 0 <= i < args@.len() ==> views(args@)[i] == args@[i]@);
    }
    if args.len() > 11 && is_code(args[11], 'E') {
        parse_decimal(args[10])
    } else if args.len() > 11 && is_code(args[11], 'W') {
        proof {
            lemma_decimal_bounds(args@[10]@);
            reveal_with_fuel(crate::numeral::pow10, 19);
        }
        match parse_decimal(args[10]) {
            Some(v) => Some(Decimal { mantissa: -v.mantissa, scale: v.scale }),
            None => None,
        }
    } else {
        proof {
            if args@.len() <= 11 {
                assert(seq!['E'].len() == 1 && seq!['W'].len() == 1);
            }
        }
        None
    }
}

/// `$xxRMC, utc, status, lat, N/S, long, E/W, speed, course, date, variation,
/// E/W, mode`. A time that is no numeral counts as midnight; a missing
/// status as no fix; a missing date as empty.
pub open spec fn spec_parse_rmc(a: Seq<Seq<char>>) -> Result<RmcView, DecodeError> {
    if a.len() == 0 || !has_type(a[0], 'R', 'M', 'C') {
        Err(DecodeError::HeaderMismatch)
    } else if a.len() < 9 {
        Err(DecodeError::MissingField)
    } else {
        match spec_parse_degrees(a[3], a[4]) {
            Err(e) => Err(e),
            Ok(latitude) => match spec_parse_degrees(a[5], a[6]) {
                Err(e) => Err(e),
                Ok(longitude) => Ok(
                    RmcView {
                        utc: match spec_decimal(a[1]) {
                            Some(u) => u,
                            None => Decimal { mantissa: 0, scale: 0 },
                        },
                        fix_status: a[2] == seq!['A'],
                        latitude,
                        longitude,
                        speed: spec_decimal(a[7]),
                        course: spec_decimal(a[8]),
                        date: if a.len() > 9 {
                            a[9]
                        } else {
                            Seq::<char>::empty()
                        },
                        mag_var: spec_mag_var(a),
                    },
                ),
            },
        }
    }
}

/// Decodes the fields of an RMC sentence, header first.
pub fn parse_rmc(args: Vec<&str>) -> (r: Result<RmcData, DecodeError>)
    ensures
        match spec_parse_rmc(views(args@)) {
            Ok(v) => r matches Ok(d) && d@ == v,
            Err(e) => r matches Err(f) && f == e,
        },
{
    proof {
        assert(forall|i: int| 0 <= i < args@.len() ==> views(args@)[i] == args@[i]@);
    }
    if args.len() == 0 || !header_type_is(args[0], 'R', 'M', 'C') {
        return Err(DecodeError::HeaderMismatch);
    }
    if args.len() < 9 {
        return Err(DecodeError::MissingField);
    }
    let utc = match parse_decimal(args[1]) {
        Some(u) => u,
        None => Decimal { mantissa: 0, scale: 0 },
    };
    let fix_status = is_code(args[2], 'A');
    let latitude = match _parse_degrees(args[3], args[4]) {
        Ok(v) => v,
        Err(e) => {
            return Err(e);
        },
    };
    let longitude = match _parse_degrees(args[5], args[6]) {
        Ok(v) => v,
        Err(e) => {
            return Err(e);
        },
    };
    let mag_var = mag_var_of(&args);
    let date = if args.len() > 9 {
        String::from_str(args[9])
    } else {
        String::new()
    };
    Ok(
        RmcData {
            utc,
            fix_status,
            latitude,
            longitude,
            speed: parse_decimal(args[7]),
            course: parse_decimal(args[8]),
            date,
            mag_var,
        },
    )
}

} // verus!
