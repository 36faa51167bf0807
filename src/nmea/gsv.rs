//! GSV: the satellites in view. One line holds up to four satellites; a
//! receiver that sees more sends several lines in a row.
use vstd::prelude::*;

use crate::nmea::DecodeError;
use crate::numeral::{parse_decimal, parse_i32, spec_decimal, spec_i32, Decimal};
use crate::text::views;

verus! {

/// One satellite in view: its id, elevation and azimuth in degrees, and its
/// signal-to-noise ratio; each is absent where the receiver left it blank.
#[derive(Clone, Copy, Debug, PartialEq, Eq, Structural)]
pub struct Satellites {
    pub id: Option<i32>,
    pub elevation: Option<Decimal>,
    pub azimuth: Option<Decimal>,
    pub snr: Option<Decimal>,
}

pub open spec fn is_gsv_header(h: Seq<char>) -> bool {
    h.len() >= 6 && h[3] == 'G' && h[4] == 'S' && h[5] == 'V'
}

/// The number of complete groups of four fields after the first four fields,
/// at most four.
pub open spec fn satellite_groups(n: int) -> int {
    if n < 8 {
        0
    } else if (n - 4) / 4 > 4 {
        4
    } else {
        (n - 4) / 4
    }
}

/// The satellite whose four fields start at `a[i]`.
pub open spec fn spec_sat(a: Seq<Seq<char>>, i: int) -> Satellites {
    Satellites {
        id: spec_i32(a[i]),
        elevation: spec_decimal(a[i + 1]),
        azimuth: spec_decimal(a[i + 2]),
        snr: spec_decimal(a[i + 3]),
    }
}

/// `$xxGSV, number of lines, line number, satellites in view`, then four
/// fields for each satellite on this line.
pub open spec fn spec_parse_gsv(a: Seq<Seq<char>>) -> Result<Seq<Satellites>, DecodeError> {
    if a.len() == 0 || !is_gsv_header(a[0]) {
        Err(DecodeError::HeaderMismatch)
    } else {
        Ok(Seq::new(satellite_groups(a.len() as int) as nat, |g: int| spec_sat(a, 4 + 4 * g)))
    }
}

fn parse_sat(args: &Vec<&str>, i: usize) -> (r: Satellites)
    requires
        i + 4 <= args.len(),
    ensures
        r == spec_sat(views(args@), i as int),
{
    proof {
        assert(forall|j: int| 0 <= j < args@.len() ==> views(args@)[j] == args@[j]@);
    }
    Satellites {
        id: parse_i32(args[i]),
        elevation: parse_decimal(args[i + 1]),
        azimuth: parse_decimal(args[i + 2]),
        snr: parse_decimal(args[i + 3]),
    }
}

/// Decodes the satellites on one GSV line, in the order given.
pub fn parse_gsv(args: Vec<&str>) -> (r: Result<Vec<Satellites>, DecodeError>)
    ensures
        match spec_parse_gsv(views(args@)) {
            Ok(s) => r matches Ok(v) && v@ == s,
            Err(e) => r == Err::<Vec<Satellites>, DecodeError>(e),
        },
{
    proof {
        assert(forall|i: int| 0 <= i < args@.len() ==> views(args@)[i] == args@[i]@);
    }
    if args.len() == 0 {
        return Err(DecodeError::HeaderMismatch);
    }
    let header = args[0];
    if !(header.unicode_len() >= 6 && header.get_char(3) == 'G' && header.get_char(4) == 'S'
        && header.get_char(5) == 'V') {
        return Err(DecodeError::HeaderMismatch);
    }
    let ghost a = views(args@);
    let ghost count = satellite_groups(args@.len() as int);
    let mut values: Vec<Satellites> = Vec::new();
    let mut g: usize = 0;
    while g < 4 && 8 + 4 * g <= args.len()
        invariant
            g <= 4,
            g <= count,
            a == views(args@),
            count == satellite_groups(args@.len() as int),
            values@ =~= Seq::new(g as nat, |j: int| spec_sat(a, 4 + 4 * j)),
        decreases 4 - g,
    {
        values.push(parse_sat(&args, 4 + 4 * g));
        g = g + 1;
    }
    proof {
        assert(g == count);
    }
    Ok(values)
}

} // verus!
