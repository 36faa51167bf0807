//! Numerals as they appear in NMEA fields: unsigned digit strings, signed
//! integers, decimal numerals with a fractional part, and hexadecimal digits.
use vstd::prelude::*;

verus! {

/// The most digits a decimal numeral may hold; its mantissa then fits an `i64`.
pub const MAX_DIGITS: usize = 18;

pub open spec fn is_digit(c: char) -> bool {
    '0' <= c && c <= '9'
}

pub open spec fn digit_value(c: char) -> int {
    c as int - '0' as int
}

pub open spec fn all_digits(s: Seq<char>) -> bool {
    forall|i: int| 0 <= i < s.len() ==> is_digit(#[trigger] s[i])
}

/// The value of a string of decimal digits, most significant first.
pub open spec fn digits_value(s: Seq<char>) -> int
    decreases s.len(),
{
    if s.len() == 0 {
        0
    } else {
        digits_value(s.drop_last()) * 10 + digit_value(s.last())
    }
}

pub open spec fn pow10(n: nat) -> int
    decreases n,
{
    if n == 0 {
        1
    } else {
        10 * pow10((n - 1) as nat)
    }
}

/// The index of the first `c` in `s`, or the length of `s` where it holds none.
pub open spec fn first_index_of(s: Seq<char>, c: char) -> int
    decreases s.len(),
{
    if s.len() == 0 {
        0
    } else if s[0] == c {
        0
    } else {
        1 + first_index_of(s.drop_first(), c)
    }
}

/// A decimal number: `mantissa / 10^scale`.
#[derive(Clone, Copy, Debug, PartialEq, Eq, Structural)]
pub struct Decimal {
    pub mantissa: i64,
    pub scale: u32,
}

/// An unsigned decimal numeral: digits, optionally a point and more digits,
/// with at least one and at most `MAX_DIGITS` digits in all.
pub open spec fn spec_unsigned_decimal(s: Seq<char>) -> Option<Decimal> {
    let k = first_index_of(s, '.');
    let whole = s.take(k);
    let frac = if k < s.len() { s.skip(k + 1) } else { Seq::<char>::empty() };
    if all_digits(whole) && all_digits(frac) && 1 <= whole.len() + frac.len() <= MAX_DIGITS {
        Some(Decimal { mantissa: digits_value(whole + frac) as i64, scale: frac.len() as u32 })
    } else {
        None
    }
}

/// A decimal numeral with an optional leading `+` or `-`.
pub open spec fn spec_decimal(s: Seq<char>) -> Option<Decimal> {
    if s.len() > 0 && s[0] == '-' {
        match spec_unsigned_decimal(s.drop_first()) {
            Some(d) => Some(Decimal { mantissa: -d.mantissa as i64, scale: d.scale }),
            None => None,
        }
    } else if s.len() > 0 && s[0] == '+' {
        spec_unsigned_decimal(s.drop_first())
    } else {
        spec_unsigned_decimal(s)
    }
}

/// A signed integer numeral: an optional `+` or `-`, then at least one digit,
/// whose value fits an `i32`.
pub open spec fn spec_i32(s: Seq<char>) -> Option<i32> {
    let neg = s.len() > 0 && s[0] == '-';
    let body = if s.len() > 0 && (s[0] == '-' || s[0] == '+') { s.drop_first() } else { s };
    let v = if neg { -digits_value(body) } else { digits_value(body) };
    if body.len() > 0 && all_digits(body) && i32::MIN <= v <= i32::MAX {
        Some(v as i32)
    } else {
        None
    }
}

pub proof fn lemma_pow10_positive(n: nat)
    ensures
        pow10(n) >= 1,
    decreases n,
{
    if n > 0 {
        lemma_pow10_positive((n - 1) as nat);
    }
}

pub proof fn lemma_digits_value_bound(s: Seq<char>)
    requires
        all_digits(s),
    ensures
        0 <= digits_value(s) < pow10(s.len()),
    decreases s.len(),
{
    if s.len() > 0 {
        lemma_digits_value_bound(s.drop_last());
    }
}

/// A prefix of a digit string is worth no more than the whole.
proof fn lemma_digits_value_prefix(s: Seq<char>, i: int)
    requires
        all_digits(s),
        0 <= i <= s.len(),
    ensures
        digits_value(s.take(i)) <= digits_value(s),
    decreases s.len(),
{
    if i < s.len() {
        assert(s.take(i) =~= s.drop_last().take(i));
        lemma_digits_value_prefix(s.drop_last(), i);
        lemma_digits_value_bound(s.drop_last());
    } else {
        assert(s.take(i) =~= s);
    }
}

pub proof fn lemma_first_index_of(s: Seq<char>, c: char, k: int)
    requires
        0 <= k <= s.len(),
        forall|j: int| 0 <= j < k ==> s[j] != c,
        k < s.len() ==> s[k] == c,
    ensures
        first_index_of(s, c) == k,
    decreases s.len(),
{
    if s.len() > 0 && k > 0 {
        lemma_first_index_of(s.drop_first(), c, k - 1);
    }
}

fn digit_of(c: char) -> (r: i64)
    requires
        is_digit(c),
    ensures
        r == digit_value(c),
        0 <= r <= 9,
{
    (c as u32 - '0' as u32) as i64
}

/// Parses an unsigned decimal numeral (see `spec_unsigned_decimal`).
fn parse_unsigned_decimal(s: &str) -> (r: Option<Decimal>)
    ensures
        r == spec_unsigned_decimal(s@),
{
    let n = s.unicode_len();
    let mut acc: i64 = 0;
    let mut count: usize = 0;
    let mut i: usize = 0;
    // the whole part, up to the first point
    while i < n && s.get_char(i) != '.'
        invariant
            n == s@.len(),
            0 <= i <= n,
            count == i,
            count <= MAX_DIGITS,
            all_digits(s@.take(i as int)),
            forall|j: int| 0 <= j < i ==> s@[j] != '.',
            acc == digits_value(s@.take(i as int)),
            0 <= acc < pow10(count as nat),
        decreases n - i,
    {
        let c = s.get_char(i);
        if !('0' <= c && c <= '9') || count == MAX_DIGITS {
            proof {
                lemma_first_index_of_at_least(s@, '.', i as int);
                let k = first_index_of(s@, '.');
                let whole = s@.take(k);
                if all_digits(whole) {
                    assert(whole[i as int] == c);
                    if is_digit(c) {
                        // too many digits
                        if k < s@.len() {
                            assert(whole.len() + s@.skip(k + 1).len() > MAX_DIGITS);
                        }
                    }
                }
            }
            return None;
        }
        proof {
            assert(s@.take(i + 1).drop_last() =~= s@.take(i as int));
            assert(pow10((count + 1) as nat) == 10 * pow10(count as nat));
            lemma_pow10_mono(count as nat, 17);
            reveal_with_fuel(pow10, 18);
            assert(pow10(17) == 100_000_000_000_000_000);
        }
        acc = acc * 10 + digit_of(c);
        count = count + 1;
        i = i + 1;
    }
    let ghost k = i as int;
    proof {
        lemma_first_index_of(s@, '.', k);
        assert(s@.take(k) =~= s@.take(i as int));
    }
    if i == n {
        if count == 0 {
            return None;
        }
        proof {
            assert(s@.take(k) + Seq::<char>::empty() =~= s@.take(k));
        }
        return Some(Decimal { mantissa: acc, scale: 0 });
    }
    // the fraction, after the point
    i = i + 1;
    let mut scale: u32 = 0;
    while i < n
        invariant
            n == s@.len(),
            0 <= k,
            first_index_of(s@, '.') == k,
            k + 1 <= i <= n,
            k < n,
            scale as int == i - k - 1,
            count as int == k + scale,
            count <= MAX_DIGITS,
            all_digits(s@.take(k)),
            all_digits(s@.subrange(k + 1, i as int)),
            acc == digits_value(s@.take(k) + s@.subrange(k + 1, i as int)),
            0 <= acc < pow10(count as nat),
        decreases n - i,
    {
        let c = s.get_char(i);
        if !('0' <= c && c <= '9') || count == MAX_DIGITS {
            proof {
                let frac = s@.skip(k + 1);
                assert(s@[i as int] == c);
                assert(frac[i - k - 1] == s@[i as int]);
                if is_digit(c) && all_digits(frac) {
                    assert(s@.take(k).len() + frac.len() > MAX_DIGITS);
                }
            }
            return None;
        }
        proof {
            let w = s@.take(k);
            assert((w + s@.subrange(k + 1, i + 1)).drop_last() =~= w + s@.subrange(k + 1, i as int));
            assert(pow10((count + 1) as nat) == 10 * pow10(count as nat));
            lemma_pow10_mono(count as nat, 17);
            reveal_with_fuel(pow10, 18);
            assert(pow10(17) == 100_000_000_000_000_000);
        }
        acc = acc * 10 + digit_of(c);
        count = count + 1;
        scale = scale + 1;
        i = i + 1;
    }
    proof {
        assert(s@.subrange(k + 1, n as int) =~= s@.skip(k + 1));
    }
    if count == 0 {
        return None;
    }
    Some(Decimal { mantissa: acc, scale })
}

proof fn lemma_first_index_of_at_least(s: Seq<char>, c: char, i: int)
    requires
        0 <= i <= s.len(),
        forall|j: int| 0 <= j < i ==> s[j] != c,
    ensures
        i <= first_index_of(s, c) <= s.len(),
        first_index_of(s, c) < s.len() ==> s[first_index_of(s, c)] == c,
    decreases s.len(),
{
    if s.len() > 0 && s[0] != c {
        lemma_first_index_of_at_least(s.drop_first(), c, if i > 0 { i - 1 } else { 0 });
    }
}

/// Parses a decimal numeral with an optional sign (see `spec_decimal`).
pub fn parse_decimal(s: &str) -> (r: Option<Decimal>)
    ensures
        r == spec_decimal(s@),
{
    let n = s.unicode_len();
    if n > 0 && (s.get_char(0) == '-' || s.get_char(0) == '+') {
        let rest = s.substring_char(1, n);
        proof {
            assert(rest@ =~= s@.drop_first());
        }
        match parse_unsigned_decimal(rest) {
            Some(d) => {
                if s.get_char(0) == '-' {
                    proof {
                        lemma_decimal_small(rest@);
                    }
                    Some(Decimal { mantissa: -d.mantissa, scale: d.scale })
                } else {
                    Some(d)
                }
            },
            None => None,
        }
    } else {
        parse_unsigned_decimal(s)
    }
}

/// What `spec_unsigned_decimal` gives is small enough to negate and to scale.
pub proof fn lemma_decimal_small(s: Seq<char>)
    ensures
        spec_unsigned_decimal(s) matches Some(d) ==> 0 <= d.mantissa < pow10(MAX_DIGITS as nat)
            && d.scale <= MAX_DIGITS,
{
    let k = first_index_of(s, '.');
    let whole = s.take(k);
    let frac = if k < s.len() { s.skip(k + 1) } else { Seq::<char>::empty() };
    if all_digits(whole) && all_digits(frac) && 1 <= whole.len() + frac.len() <= MAX_DIGITS {
        let w = whole + frac;
        assert(all_digits(w)) by {
            assert forall|j: int| 0 <= j < w.len() implies is_digit(#[trigger] w[j]) by {
                if j < whole.len() {
                    assert(w[j] == whole[j]);
                } else {
                    assert(w[j] == frac[j - whole.len()]);
                }
            }
        }
        lemma_digits_value_bound(w);
        lemma_pow10_mono(w.len(), MAX_DIGITS as nat);
        reveal_with_fuel(pow10, 19);
        assert(pow10(MAX_DIGITS as nat) == 1_000_000_000_000_000_000);
    }
}

pub proof fn lemma_pow10_mono(a: nat, b: nat)
    requires
        a <= b,
    ensures
        pow10(a) <= pow10(b),
    decreases b,
{
    if a < b {
        lemma_pow10_mono(a, (b - 1) as nat);
        lemma_pow10_positive((b - 1) as nat);
    }
}

/// Parses a signed integer numeral (see `spec_i32`).
pub fn parse_i32(s: &str) -> (r: Option<i32>)
    ensures
        r == spec_i32(s@),
{
    let n = s.unicode_len();
    let mut start: usize = 0;
    let mut neg = false;
    if n > 0 && (s.get_char(0) == '-' || s.get_char(0) == '+') {
        neg = s.get_char(0) == '-';
        start = 1;
    }
    let ghost body = if start == 1 { s@.drop_first() } else { s@ };
    proof {
        assert(body =~= s@.subrange(start as int, n as int));
    }
    if start == n {
        return None;
    }
    let mut acc: i64 = 0;
    let mut i: usize = start;
    while i < n
        invariant
            n == s@.len(),
            start <= i <= n,
            start <= 1,
            start < n,
            neg == (s@.len() > 0 && s@[0] == '-'),
            (start == 1) == (s@.len() > 0 && (s@[0] == '-' || s@[0] == '+')),
            body == (if s@.len() > 0 && (s@[0] == '-' || s@[0] == '+') { s@.drop_first() } else { s@ }),
            body == s@.subrange(start as int, n as int),
            all_digits(body.take(i - start)),
            acc == digits_value(body.take(i - start)),
            0 <= acc <= 2147483648,
        decreases n - i,
    {
        let c = s.get_char(i);
        proof {
            assert(body[i - start] == c);
        }
        if !('0' <= c && c <= '9') {
            return None;
        }
        proof {
            assert(body.take(i + 1 - start).drop_last() =~= body.take(i - start));
        }
        acc = acc * 10 + digit_of(c);
        i = i + 1;
        if acc > 2147483648 {
            proof {
                if all_digits(body) {
                    lemma_digits_value_prefix(body, i - start);
                }
            }
            return None;
        }
    }
    proof {
        assert(body.take(n - start) =~= body);
    }
    if neg {
        Some((-acc) as i32)
    } else if acc <= 2147483647 {
        Some(acc as i32)
    } else {
        None
    }
}

pub open spec fn hex_digit_value(c: char) -> Option<int> {
    if '0' <= c && c <= '9' {
        Some(c as int - '0' as int)
    } else if 'a' <= c && c <= 'f' {
        Some(c as int - 'a' as int + 10)
    } else if 'A' <= c && c <= 'F' {
        Some(c as int - 'A' as int + 10)
    } else {
        None
    }
}

/// The byte that two hexadecimal digits spell, most significant first.
pub open spec fn spec_hex_byte(hi: char, lo: char) -> Option<u8> {
    match (hex_digit_value(hi), hex_digit_value(lo)) {
        (Some(h), Some(l)) => Some((h * 16 + l) as u8),
        _ => None,
    }
}

fn hex_digit(c: char) -> (r: Option<u8>)
    ensures
        match hex_digit_value(c) {
            Some(v) => r == Some(v as u8) && v < 16,
            None => r is None,
        },
{
    if '0' <= c && c <= '9' {
        Some((c as u32 - '0' as u32) as u8)
    } else if 'a' <= c && c <= 'f' {
        Some((c as u32 - 'a' as u32 + 10) as u8)
    } else if 'A' <= c && c <= 'F' {
        Some((c as u32 - 'A' as u32 + 10) as u8)
    } else {
        None
    }
}

/// Reads the byte that two hexadecimal digits spell.
pub fn hex_byte(hi: char, lo: char) -> (r: Option<u8>)
    ensures
        r == spec_hex_byte(hi, lo),
{
    match (hex_digit(hi), hex_digit(lo)) {
        (Some(h), Some(l)) => Some(h * 16 + l),
        _ => None,
    }
}

pub proof fn lemma_first_index_of_at_most(s: Seq<char>, c: char)
    ensures
        0 <= first_index_of(s, c) <= s.len(),
    decreases s.len(),
{
    if s.len() > 0 {
        lemma_first_index_of_at_most(s.drop_first(), c);
    }
}

pub proof fn lemma_all_digits_concat(a: Seq<char>, b: Seq<char>)
    requires
        all_digits(a),
        all_digits(b),
    ensures
        all_digits(a + b),
{
    assert forall|j: int| 0 <= j < (a + b).len() implies is_digit(#[trigger] (a + b)[j]) by {
        if j < a.len() {
            assert((a + b)[j] == a[j]);
        } else {
            assert((a + b)[j] == b[j - a.len()]);
        }
    }
}

} // verus!
