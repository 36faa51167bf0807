use adafruit_gps::nmea::parse_nmea;
use adafruit_gps::nmea::DecodeError;
use adafruit_gps::numeral::{parse_decimal, parse_i32, Decimal};

fn dec(mantissa: i64, scale: u32) -> Decimal {
    Decimal { mantissa, scale }
}

#[test]
fn parse_degrees() {
    assert_eq!(parse_nmea::_parse_degrees("1020.12345", "N").unwrap().unwrap(), dec(10335391, 6));
    assert_eq!(parse_nmea::_parse_degrees("11020.12345", "N").unwrap().unwrap(), dec(110335391, 6));
}

#[test]
fn parse_degrees_south_and_west_negate() {
    assert_eq!(parse_nmea::_parse_degrees("1020.12345", "S").unwrap().unwrap(), dec(-10335391, 6));
    assert_eq!(parse_nmea::_parse_degrees("11020.12345", "W").unwrap().unwrap(), dec(-110335391, 6));
    assert_eq!(parse_nmea::_parse_degrees("11020.12345", "E").unwrap().unwrap(), dec(110335391, 6));
}

#[test]
fn parse_degrees_four_or_five_digits() {
    // four digits before the point: two of degrees
    assert_eq!(parse_nmea::_parse_degrees("5132.7314", "N").unwrap().unwrap(), dec(51545523, 6));
    // five digits: three of degrees
    assert_eq!(parse_nmea::_parse_degrees("00005.9099", "W").unwrap().unwrap(), dec(-98498, 6));
    // no point and four digits
    assert_eq!(parse_nmea::_parse_degrees("1030", "N").unwrap().unwrap(), dec(10500000, 6));
}

#[test]
fn parse_degrees_empty_and_faults() {
    assert_eq!(parse_nmea::_parse_degrees("", "N"), Ok(None));
    assert_eq!(parse_nmea::_parse_degrees("", "Q"), Ok(None));
    assert_eq!(parse_nmea::_parse_degrees("1020.12345", "Q"), Err(DecodeError::InvalidHemisphere));
    assert_eq!(parse_nmea::_parse_degrees("10x0.5", "N"), Err(DecodeError::InvalidNumeral));
    assert_eq!(parse_nmea::_parse_degrees("12", "N"), Err(DecodeError::InvalidNumeral));
    assert_eq!(parse_nmea::_parse_degrees("123", "N"), Err(DecodeError::InvalidNumeral));
}

#[test]
fn parse_degrees_rounds_to_nearest() {
    // 0.00003 minutes is half a millionth of a degree: rounded away from zero
    assert_eq!(parse_nmea::_parse_degrees("1000.00003", "N").unwrap().unwrap(), dec(10000001, 6));
    assert_eq!(parse_nmea::_parse_degrees("1000.00002", "N").unwrap().unwrap(), dec(10000000, 6));
}

#[test]
fn format_hhmmss() {
    assert_eq!(parse_nmea::_format_hhmmss("131613.000"), "13:16:13");
    assert_eq!(parse_nmea::_format_hhmmss("13161"), "");
    assert_eq!(parse_nmea::_format_hhmmss(""), "");
}

#[test]
fn parse_sentence_splits_fields() {
    let fields = parse_nmea::parse_sentence("$GPGSV,4,4,14,32,01,215,,41,,,*4F\r\n").unwrap();
    assert_eq!(fields, vec!["$GPGSV", "4", "4", "14", "32", "01", "215", "", "41", "", "", ""]);
}

#[test]
fn parse_sentence_rejects() {
    assert_eq!(parse_nmea::parse_sentence("$A*00"), None);
    assert_eq!(
        parse_nmea::parse_sentence("$GPGSA,A,3,29,02,26,25,31,14,,,,,,,1.42,1.17,0.80*A7\r\n"),
        None
    );
    assert_eq!(parse_nmea::parse_sentence("$GPGSA,A,3*"), None);
}

#[test]
fn split_and_rejoin_round_trip() {
    let line = "$GNGGA,131613.000,5132.7314,N,00005.9099,W,1,9,1.17,42.4,M,47.0,M,,*60";
    let fields = parse_nmea::parse_sentence(line).unwrap();
    let body = fields.join(",");
    let sum = body.bytes().skip(1).fold(0u8, |a, b| a ^ b);
    assert_eq!(format!("{}*{:02X}", body, sum), line);
}

#[test]
fn decimal_numerals() {
    assert_eq!(parse_decimal("19294.00"), Some(dec(1929400, 2)));
    assert_eq!(parse_decimal("-0.5"), Some(dec(-5, 1)));
    assert_eq!(parse_decimal("+7"), Some(dec(7, 0)));
    assert_eq!(parse_decimal(".5"), Some(dec(5, 1)));
    assert_eq!(parse_decimal("5."), Some(dec(5, 0)));
    assert_eq!(parse_decimal(""), None);
    assert_eq!(parse_decimal("."), None);
    assert_eq!(parse_decimal("1.2.3"), None);
    assert_eq!(parse_decimal("M"), None);
    assert_eq!(parse_decimal("123456789012345678"), Some(dec(123456789012345678, 0)));
    assert_eq!(parse_decimal("1234567890123456789"), None);
}

#[test]
fn integer_numerals() {
    assert_eq!(parse_i32("01"), Some(1));
    assert_eq!(parse_i32("-2147483648"), Some(-2147483648));
    assert_eq!(parse_i32("2147483647"), Some(2147483647));
    assert_eq!(parse_i32("2147483648"), None);
    assert_eq!(parse_i32("+"), None);
    assert_eq!(parse_i32(""), None);
    assert_eq!(parse_i32("1.0"), None);
}
