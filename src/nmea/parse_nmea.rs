//! Sentence splitting and the field conversions that several sentence types
//! share: coordinates and times of day.
use vstd::prelude::*;

use crate::nmea::DecodeError;
use crate::numeral::{
    first_index_of, lemma_decimal_small, lemma_first_index_of, lemma_pow10_positive, parse_decimal,
    pow10, spec_decimal, spec_unsigned_decimal, Decimal, MAX_DIGITS,
};
use crate::open_gps::gps::{checksum_of, hex_pair, is_valid_checksum, spec_valid_checksum};
use crate::text::{join_with, lemma_join_split, split_on, split_str, trim, trim_str, views};

verus! {

/// `s` is the one-character string `c`.
pub fn is_code(s: &str, c: char) -> (r: bool)
    ensures
        r == (s@ == seq![c]),
{
    if s.unicode_len() == 1 && s.get_char(0) == c {
        proof {
            assert(s@ =~= seq![c]);
        }
        true
    } else {
        false
    }
}

/// The header's sentence type, the three characters after `$` and the
/// talker, is `abc`.
pub open spec fn has_type(h: Seq<char>, a: char, b: char, c: char) -> bool {
    h.len() >= 6 && h[3] == a && h[4] == b && h[5] == c
}

/// Tests the sentence type of a header (see `has_type`).
pub fn header_type_is(h: &str, a: char, b: char, c: char) -> (r: bool)
    ensures
        r == has_type(h@, a, b, c),
{
    h.unicode_len() >= 6 && h.get_char(3) == a && h.get_char(4) == b && h.get_char(5) == c
}

/// The fields of a line: the trimmed line must be at least six characters
/// long and pass the checksum; the part before `*` is split on commas.
pub open spec fn spec_parse_sentence(s: Seq<char>) -> Option<Seq<Seq<char>>> {
    let t = trim(s);
    if t.len() >= 6 && spec_valid_checksum(s) {
        Some(split_on(t.take(t.len() - 3), ','))
    } else {
        None
    }
}

/// Validates a line and splits it into its fields, header first.
pub fn parse_sentence(sentence: &str) -> (r: Option<Vec<&str>>)
    ensures
        match spec_parse_sentence(sentence@) {
            Some(f) => r matches Some(v) && views(v@) == f,
            None => r is None,
        },
{
    let t = trim_str(sentence);
    let n = t.unicode_len();
    if n < 6 {
        return None;
    }
    if is_valid_checksum(sentence) {
        let body = t.substring_char(0, n - 3);
        proof {
            assert(body@ =~= t@.take(n - 3));
        }
        Some(split_str(body, ','))
    } else {
        None
    }
}

/// The fields of a valid sentence, joined again with commas and followed by
/// `*` and the recomputed checksum.
pub open spec fn rejoin(fields: Seq<Seq<char>>) -> Seq<char> {
    let j = join_with(fields, ',');
    j + seq!['*'] + hex_pair(checksum_of(j.drop_first()))
}

/// The upper case of a hexadecimal letter; other characters are kept.
pub open spec fn hex_upper(c: char) -> char {
    if 'a' <= c && c <= 'f' {
        ((c as u8) - 32) as u8 as char
    } else {
        c
    }
}

proof fn lemma_hex_digit_upper(c: char)
    requires
        crate::numeral::hex_digit_value(c) is Some,
    ensures
        crate::numeral::hex_digit_value(c)->Some_0 < 16,
        crate::open_gps::gps::hex_digit_char(crate::numeral::hex_digit_value(c)->Some_0 as u8)
            == hex_upper(c),
{
}

proof fn lemma_hex_pair_upper(hi: char, lo: char, x: u8)
    requires
        crate::numeral::spec_hex_byte(hi, lo) == Some(x),
    ensures
        hex_pair(x) == seq![hex_upper(hi), hex_upper(lo)],
{
    let h = crate::numeral::hex_digit_value(hi)->Some_0;
    let l = crate::numeral::hex_digit_value(lo)->Some_0;
    lemma_hex_digit_upper(hi);
    lemma_hex_digit_upper(lo);
    let xi = x as int;
    assert(xi == h * 16 + l);
    assert(xi / 16 == h && xi % 16 == l) by (nonlinear_arith)
        requires
            xi == h * 16 + l,
            0 <= h < 16,
            0 <= l < 16,
    ;
    assert(hex_pair(x) =~= seq![hex_upper(hi), hex_upper(lo)]);
}

/// Splitting a valid sentence and joining its fields again, with the checksum
/// recomputed, gives the trimmed sentence back, but that the checksum digits
/// come in upper case: equal up to the letter case of those two digits.
pub proof fn lemma_rejoin(s: Seq<char>)
    requires
        spec_parse_sentence(s) is Some,
    ensures
        ({
            let t = trim(s);
            let r = rejoin(spec_parse_sentence(s)->Some_0);
            &&& r.len() == t.len()
            &&& r.take(t.len() - 2) == t.take(t.len() - 2)
            &&& r.skip(t.len() - 2) == seq![hex_upper(t[t.len() - 2]), hex_upper(t[t.len() - 1])]
            &&& crate::numeral::spec_hex_byte(t[t.len() - 2], t[t.len() - 1]) == Some(
                checksum_of(join_with(spec_parse_sentence(s)->Some_0, ',').drop_first()),
            )
        }),
{
    let t = trim(s);
    let n = t.len();
    let f = spec_parse_sentence(s)->Some_0;
    lemma_join_split(t.take(n - 3), ',');
    let j = join_with(f, ',');
    assert(j == t.take(n - 3));
    assert(j.drop_first() =~= t.subrange(1, n - 3));
    let r = rejoin(f);
    assert(r.take(n - 2) =~= t.take(n - 2));
    lemma_hex_pair_upper(t[n - 2], t[n - 1], checksum_of(j.drop_first()));
    assert(r.skip(n - 2) =~= hex_pair(checksum_of(j.drop_first())));
}

/// Where the whole degrees end: `ddmm.mmmm` has four digits before the point,
/// `dddmm.mmmm` five.
pub open spec fn degree_cut(d: Seq<char>) -> int {
    if first_index_of(d, '.') == 4 {
        2
    } else {
        3
    }
}

/// `n / d` rounded to the nearest integer, halves away from zero.
pub open spec fn round_div(n: int, d: int) -> int {
    if n >= 0 {
        (2 * n + d) / (2 * d)
    } else {
        -((-2 * n + d) / (2 * d))
    }
}

/// `deg + min / 60`, in millionths, rounded to the nearest.
pub open spec fn micro_degrees(deg: Decimal, min: Decimal) -> int {
    round_div(
        (60 * deg.mantissa * pow10(min.scale as nat) + min.mantissa * pow10(deg.scale as nat))
            * 1_000_000,
        60 * pow10((deg.scale + min.scale) as nat),
    )
}

/// A coordinate in signed decimal degrees with six decimals; `None` for an
/// empty field.
pub open spec fn spec_parse_degrees(d: Seq<char>, c: Seq<char>) -> Result<
    Option<Decimal>,
    DecodeError,
> {
    if d.len() == 0 {
        Ok(None)
    } else if d.len() < degree_cut(d) {
        Err(DecodeError::InvalidNumeral)
    } else {
        match (spec_decimal(d.take(degree_cut(d))), spec_decimal(d.skip(degree_cut(d)))) {
            (Some(deg), Some(min)) => {
                let m = micro_degrees(deg, min);
                if !(-i64::MAX <= m <= i64::MAX) {
                    Err(DecodeError::InvalidNumeral)
                } else if c == seq!['N'] || c == seq!['E'] {
                    Ok(Some(Decimal { mantissa: m as i64, scale: 6 }))
                } else if c == seq!['S'] || c == seq!['W'] {
                    Ok(Some(Decimal { mantissa: -m as i64, scale: 6 }))
                } else {
                    Err(DecodeError::InvalidHemisphere)
                }
            },
            _ => Err(DecodeError::InvalidNumeral),
        }
    }
}

/// A southern or western coordinate is the negation of the northern or
/// eastern one with the same numeral; the hemisphere letter changes nothing
/// else.
pub proof fn lemma_hemisphere_negates(d: Seq<char>)
    ensures
        spec_parse_degrees(d, seq!['E']) == spec_parse_degrees(d, seq!['N']),
        spec_parse_degrees(d, seq!['W']) == spec_parse_degrees(d, seq!['S']),
        spec_parse_degrees(d, seq!['N']) matches Ok(Some(x)) ==> spec_parse_degrees(d, seq!['S'])
            == Ok::<Option<Decimal>, DecodeError>(
            Some(Decimal { mantissa: -x.mantissa as i64, scale: 6 }),
        ),
        spec_parse_degrees(d, seq!['N']) matches Ok(None) ==> spec_parse_degrees(d, seq!['S'])
            == Ok::<Option<Decimal>, DecodeError>(None),
        spec_parse_degrees(d, seq!['N']) matches Err(e) ==> spec_parse_degrees(d, seq!['S'])
            == Err::<Option<Decimal>, DecodeError>(e),
{
    assert(seq!['N'] != seq!['S'] && seq!['N'] != seq!['W']) by {
        assert(seq!['N'][0] != seq!['S'][0] && seq!['N'][0] != seq!['W'][0]);
    }
    assert(seq!['E'] != seq!['S'] && seq!['E'] != seq!['W']) by {
        assert(seq!['E'][0] != seq!['S'][0] && seq!['E'][0] != seq!['W'][0]);
    }
}

proof fn lemma_decimal_not_negative(s: Seq<char>)
    requires
        forall|i: int| 0 <= i < s.len() ==> s[i] != '-',
    ensures
        spec_decimal(s) matches Some(v) ==> v.mantissa >= 0,
{
    if s.len() > 0 && s[0] == '+' {
        lemma_unsigned_bounds(s.drop_first());
    } else {
        lemma_unsigned_bounds(s);
    }
}

/// A numeral without a minus sign gives a coordinate that is not negative
/// to the north and to the east.
pub proof fn lemma_north_not_negative(d: Seq<char>)
    requires
        forall|i: int| 0 <= i < d.len() ==> d[i] != '-',
    ensures
        spec_parse_degrees(d, seq!['N']) matches Ok(Some(x)) ==> x.mantissa >= 0,
        spec_parse_degrees(d, seq!['E']) matches Ok(Some(x)) ==> x.mantissa >= 0,
{
    if d.len() > 0 && d.len() >= degree_cut(d) {
        let k = degree_cut(d);
        assert forall|i: int| 0 <= i < d.take(k).len() implies d.take(k)[i] != '-' by {
            assert(d.take(k)[i] == d[i]);
        }
        assert forall|i: int| 0 <= i < d.skip(k).len() implies d.skip(k)[i] != '-' by {
            assert(d.skip(k)[i] == d[i + k]);
        }
        lemma_decimal_not_negative(d.take(k));
        lemma_decimal_not_negative(d.skip(k));
        match (spec_decimal(d.take(k)), spec_decimal(d.skip(k))) {
            (Some(deg), Some(min)) => {
                lemma_pow10_positive(min.scale as nat);
                lemma_pow10_positive(deg.scale as nat);
                lemma_pow10_positive((deg.scale + min.scale) as nat);
                let a = deg.mantissa as int;
                let b = min.mantissa as int;
                let p = pow10(min.scale as nat);
                let q = pow10(deg.scale as nat);
                let den = 60 * pow10((deg.scale + min.scale) as nat);
                let n = (60 * a * p + b * q) * 1_000_000;
                assert(n >= 0) by (nonlinear_arith)
                    requires
                        a >= 0,
                        b >= 0,
                        p >= 1,
                        q >= 1,
                        n == (60 * a * p + b * q) * 1_000_000,
                ;
                assert((2 * n + den) / (2 * den) >= 0) by (nonlinear_arith)
                    requires
                        n >= 0,
                        den >= 1,
                ;
            },
            _ => {},
        }
    }
}

/// Bounds on what `spec_decimal` gives, by the length of the numeral.
pub proof fn lemma_decimal_bounds(s: Seq<char>)
    ensures
        spec_decimal(s) matches Some(d) ==> {
            &&& -pow10(s.len()) < d.mantissa < pow10(s.len())
            &&& d.scale <= s.len()
            &&& -pow10(MAX_DIGITS as nat) < d.mantissa < pow10(MAX_DIGITS as nat)
            &&& d.scale <= MAX_DIGITS
        },
{
    if s.len() > 0 && (s[0] == '-' || s[0] == '+') {
        lemma_unsigned_bounds(s.drop_first());
        crate::numeral::lemma_pow10_mono((s.len() - 1) as nat, s.len());
    } else {
        lemma_unsigned_bounds(s);
    }
}

proof fn lemma_unsigned_bounds(s: Seq<char>)
    ensures
        spec_unsigned_decimal(s) matches Some(d) ==> {
            &&& 0 <= d.mantissa < pow10(s.len())
            &&& d.scale <= s.len()
            &&& d.mantissa < pow10(MAX_DIGITS as nat)
            &&& d.scale <= MAX_DIGITS
        },
{
    lemma_decimal_small(s);
    let k = first_index_of(s, '.');
    crate::numeral::lemma_first_index_of_at_most(s, '.');
    let whole = s.take(k);
    let frac = if k < s.len() { s.skip(k + 1) } else { Seq::<char>::empty() };
    if spec_unsigned_decimal(s) is Some {
        let w = whole + frac;
        crate::numeral::lemma_all_digits_concat(whole, frac);
        crate::numeral::lemma_digits_value_bound(w);
        crate::numeral::lemma_pow10_mono(w.len(), s.len());
    }
}

fn pow10_exec(n: u32) -> (r: u128)
    requires
        n <= 30,
    ensures
        r == pow10(n as nat),
{
    let mut r: u128 = 1;
    let mut i: u32 = 0;
    while i < n
        invariant
            i <= n <= 30,
            r == pow10(i as nat),
        decreases n - i,
    {
        proof {
            crate::numeral::lemma_pow10_mono(i as nat, 30);
            reveal_with_fuel(pow10, 31);
            assert(pow10(30) == 1_000_000_000_000_000_000_000_000_000_000);
        }
        r = r * 10;
        i = i + 1;
    }
    r
}

proof fn lemma_pow10_add(a: nat, b: nat)
    ensures
        pow10(a + b) == pow10(a) * pow10(b),
    decreases a,
{
    if a > 0 {
        lemma_pow10_add((a - 1) as nat, b);
        let x = pow10((a - 1) as nat);
        let y = pow10(b);
        assert(10 * (x * y) == (10 * x) * y) by (nonlinear_arith);
    }
}

/// Converts a `ddmm.mmmm` or `dddmm.mmmm` numeral and its hemisphere letter
/// into signed decimal degrees, rounded to six decimals: negative to the
/// south and to the west. An empty numeral gives `None`.
pub fn _parse_degrees(degrees: &str, compass_direction: &str) -> (r: Result<
    Option<Decimal>,
    DecodeError,
>)
    ensures
        r == spec_parse_degrees(degrees@, compass_direction@),
{
    let n = degrees.unicode_len();
    if n == 0 {
        return Ok(None);
    }
    // the length of the whole part before the point
    let mut k: usize = 0;
    while k < n && degrees.get_char(k) != '.'
        invariant
            k <= n == degrees@.len(),
            forall|j: int| 0 <= j < k ==> degrees@[j] != '.',
        decreases n - k,
    {
        k = k + 1;
    }
    proof {
        lemma_first_index_of(degrees@, '.', k as int);
    }
    let cut: usize = if k == 4 { 2 } else { 3 };
    if n < cut {
        return Err(DecodeError::InvalidNumeral);
    }
    let whole = degrees.substring_char(0, cut);
    let rest = degrees.substring_char(cut, n);
    proof {
        assert(whole@ =~= degrees@.take(cut as int));
        assert(rest@ =~= degrees@.skip(cut as int));
        lemma_decimal_bounds(whole@);
        lemma_decimal_bounds(rest@);
    }
    let (deg, min) = match (parse_decimal(whole), parse_decimal(rest)) {
        (Some(deg), Some(min)) => (deg, min),
        _ => {
            return Err(DecodeError::InvalidNumeral);
        },
    };
    proof {
        reveal_with_fuel(pow10, 4);
        crate::numeral::lemma_pow10_mono(whole@.len(), 3);
        reveal_with_fuel(pow10, 19);
        lemma_pow10_positive(deg.scale as nat);
        lemma_pow10_positive(min.scale as nat);
        crate::numeral::lemma_pow10_mono(deg.scale as nat, 3);
        crate::numeral::lemma_pow10_mono(min.scale as nat, 18);
        lemma_pow10_add(deg.scale as nat, min.scale as nat);
    }
    let p_deg = pow10_exec(deg.scale);
    let p_min = pow10_exec(min.scale);
    let dm = deg.mantissa as i128;
    let mm = min.mantissa as i128;
    proof {
        assert(-1000 < dm < 1000);
        assert(1 <= p_min <= 1_000_000_000_000_000_000);
        assert(1 <= p_deg <= 1000);
        assert(-60_000_000_000_000_000_000_000 <= 60 * dm * p_min <= 60_000_000_000_000_000_000_000)
            by (nonlinear_arith)
            requires
                -1000 < dm < 1000,
                1 <= p_min <= 1_000_000_000_000_000_000,
        ;
        assert(-1_000_000_000_000_000_000_000 <= mm * p_deg <= 1_000_000_000_000_000_000_000)
            by (nonlinear_arith)
            requires
                -1_000_000_000_000_000_000 < mm < 1_000_000_000_000_000_000,
                1 <= p_deg <= 1000,
        ;
        assert(1 <= p_deg * p_min <= 1_000_000_000_000_000_000_000) by (nonlinear_arith)
            requires
                1 <= p_min <= 1_000_000_000_000_000_000,
                1 <= p_deg <= 1000,
        ;
    }
    let a: i128 = 60 * dm * (p_min as i128);
    let b: i128 = mm * (p_deg as i128);
    let num: i128 = (a + b) * 1_000_000;
    let den: u128 = 60 * (p_deg * p_min);
    let num_abs: u128 = if num >= 0 { num as u128 } else { (-num) as u128 };
    let q: u128 = (2 * num_abs + den) / (2 * den);
    proof {
        assert(den == 60 * pow10((deg.scale + min.scale) as nat));
        assert(q as int == (if num >= 0 { (2 * num + den) / (2 * den) } else { (-2 * num + den) / (2
            * den) }));
    }
    if q > 9_223_372_036_854_775_807 {
        return Err(DecodeError::InvalidNumeral);
    }
    let m: i64 = if num >= 0 { q as i64 } else { -(q as i64) };
    if is_code(compass_direction, 'N') || is_code(compass_direction, 'E') {
        Ok(Some(Decimal { mantissa: m, scale: 6 }))
    } else if is_code(compass_direction, 'S') || is_code(compass_direction, 'W') {
        Ok(Some(Decimal { mantissa: -m, scale: 6 }))
    } else {
        Err(DecodeError::InvalidHemisphere)
    }
}

/// `hhmmss...` written as `hh:mm:ss`; empty where the time is shorter than six
/// characters.
pub open spec fn spec_format_hhmmss(time: Seq<char>) -> Seq<char> {
    if time.len() < 6 {
        Seq::<char>::empty()
    } else {
        time.subrange(0, 2) + seq![':'] + time.subrange(2, 4) + seq![':'] + time.subrange(4, 6)
    }
}

/// Writes the first six characters of a `hhmmss` time as `hh:mm:ss`.
pub fn _format_hhmmss(time: &str) -> (r: String)
    ensures
        r@ == spec_format_hhmmss(time@),
{
    if time.unicode_len() < 6 {
        return String::new();
    }
    let mut r = String::from_str(time.substring_char(0, 2));
    proof {
        reveal_strlit(":");
    }
    r.append(":");
    r.append(time.substring_char(2, 4));
    r.append(":");
    r.append(time.substring_char(4, 6));
    r
}

} // verus!
