use adafruit_gps::nmea::{gga, gll, gsa, gsv, rmc, vtg, DecodeError};
use adafruit_gps::numeral::Decimal;

fn dec(mantissa: i64, scale: u32) -> Decimal {
    Decimal { mantissa, scale }
}

#[test]
fn gga_normal() {
    // "29343.543" has five digits before the point: 293 degrees and 43.543 minutes
    assert_eq!(
        gga::parse_gga(vec![
            "$GPGGA",
            "19294.00",
            "29343.543",
            "N",
            "29343.543",
            "E",
            "1",
            "10",
            "1.01",
            "47.7",
            "M",
            "10.0",
            "M",
            "0.1"
        ]),
        Ok(gga::GgaData {
            utc: dec(1929400, 2),
            lat: Some(dec(293725717, 6)),
            long: Some(dec(293725717, 6)),
            sat_fix: gga::SatFix::GpsFix,
            satellites_used: 10,
            hdop: Some(dec(101, 2)),
            msl_alt: Some(dec(477, 1)),
            geoidal_sep: Some(dec(100, 1)),
            age_diff_corr: Some(dec(1, 1)),
        })
    );
}

#[test]
fn gga_incorrect_header() {
    let r = gga::parse_gga(vec![
        "$GPGSV",
        "19294.00",
        "29343.543",
        "N",
        "29343.543",
        "E",
        "1",
        "10",
        "1.01",
        "47.7",
        "M",
        "10.0",
        "M",
        "0.1",
    ]);
    assert_eq!(r, Err(DecodeError::HeaderMismatch));
}

#[test]
fn gga_faults() {
    let short = vec!["$GPGGA", "19294.00", "", "", "", "", "0"];
    assert_eq!(gga::parse_gga(short), Err(DecodeError::MissingField));
    let bad_time = vec!["$GPGGA", "x", "", "", "", "", "0", "0", "", "", "M", "", "M", ""];
    assert_eq!(gga::parse_gga(bad_time), Err(DecodeError::InvalidNumeral));
    let bad_count = vec!["$GPGGA", "1", "", "", "", "", "0", "", "", "", "M", "", "M", ""];
    assert_eq!(gga::parse_gga(bad_count), Err(DecodeError::InvalidNumeral));
}

#[test]
fn gga_blank_fields_are_absent() {
    let r = gga::parse_gga(vec![
        "$GNGGA", "131613.000", "", "", "", "", "7", "0", "", "", "M", "", "M", "",
    ])
    .unwrap();
    assert_eq!(r.lat, None);
    assert_eq!(r.long, None);
    assert_eq!(r.sat_fix, gga::SatFix::NoFix);
    assert_eq!(r.hdop, None);
    assert_eq!(r.age_diff_corr, None);
}

#[test]
fn gga_differential_fix() {
    let r = gga::parse_gga(vec![
        "$GPGGA", "100.0", "5133.279", "N", "00003.3792", "W", "2", "4", "1.453", "42.53", "M",
        "47.0", "M", "",
    ])
    .unwrap();
    assert_eq!(r.sat_fix, gga::SatFix::DgpsFix);
    assert_eq!(r.lat, Some(dec(51554650, 6)));
    assert_eq!(r.long, Some(dec(-56320, 6)));
}

#[test]
fn gsa_normal() {
    assert_eq!(
        gsa::parse_gsa(vec![
            "$GPGSA", "M", "2", "01", "02", "03", "04", "05", "06", "07", "08", "09", "10", "11",
            "12", "1.0", "2.04", "32.04"
        ]),
        Ok(gsa::GsaData {
            mode: gsa::Mode::Manual,
            dimension_fix: gsa::DimensionFix::Dimension2d,
            sat1: Some(1),
            sat2: Some(2),
            sat3: Some(3),
            sat4: Some(4),
            sat5: Some(5),
            sat6: Some(6),
            sat7: Some(7),
            sat8: Some(8),
            sat9: Some(9),
            sat10: Some(10),
            sat11: Some(11),
            sat12: Some(12),
            pdop: Some(dec(10, 1)),
            hdop: Some(dec(204, 2)),
            vdop: Some(dec(3204, 2)),
        })
    )
}

#[test]
fn gsa_incorrect_header() {
    let r = gsa::parse_gsa(vec![
        "$GPGGA", "M", "2", "01", "02", "03", "04", "05", "06", "07", "08", "09", "10", "11", "12",
        "1.0", "2.04", "32.04",
    ]);
    assert_eq!(r, Err(DecodeError::HeaderMismatch));
}

#[test]
fn gsa_codes_and_blanks() {
    let r = gsa::parse_gsa(vec![
        "$GNGSA", "A", "3", "29", "02", "", "", "", "", "", "", "", "", "", "", "1.42", "", "x",
    ])
    .unwrap();
    assert_eq!(r.mode, gsa::Mode::Automatic);
    assert_eq!(r.dimension_fix, gsa::DimensionFix::Dimension3d);
    assert_eq!(r.sat2, Some(2));
    assert_eq!(r.sat3, None);
    assert_eq!(r.hdop, None);
    assert_eq!(r.vdop, None);
    let r = gsa::parse_gsa(vec![
        "$GNGSA", "Z", "9", "", "", "", "", "", "", "", "", "", "", "", "", "", "", "",
    ])
    .unwrap();
    assert_eq!(r.mode, gsa::Mode::Manual);
    assert_eq!(r.dimension_fix, gsa::DimensionFix::NotAvailable);
    let short = vec!["$GNGSA", "A", "3"];
    assert_eq!(gsa::parse_gsa(short), Err(DecodeError::MissingField));
}

#[test]
fn gsv_line() {
    let r = gsv::parse_gsv(vec![
        "$GPGSV", "4", "3", "14", "12", "12", "100", "", "04", "11", "331", "", "16", "06", "282",
        "", "05", "05", "074", "22",
    ])
    .unwrap();
    assert_eq!(r.len(), 4);
    assert_eq!(
        r[0],
        gsv::Satellites { id: Some(12), elevation: Some(dec(12, 0)), azimuth: Some(dec(100, 0)), snr: None }
    );
    assert_eq!(r[3].snr, Some(dec(22, 0)));
    let r = gsv::parse_gsv(vec!["$GPGSV", "4", "4", "14", "32", "01", "215", "", "41", "", "", ""])
        .unwrap();
    assert_eq!(r.len(), 2);
    assert_eq!(r[1], gsv::Satellites { id: Some(41), elevation: None, azimuth: None, snr: None });
    assert_eq!(gsv::parse_gsv(vec!["$GPGSV", "1", "1", "00"]).unwrap().len(), 0);
    assert_eq!(gsv::parse_gsv(vec!["$GPGSA", "1", "1", "00"]), Err(DecodeError::HeaderMismatch));
}

#[test]
fn rmc_line() {
    let r = rmc::parse_rmc(vec![
        "$GPRMC", "123519", "A", "4807.038", "N", "01131.000", "E", "022.4", "084.4", "230394",
        "003.1", "W",
    ])
    .unwrap();
    assert_eq!(r.utc, dec(123519, 0));
    assert!(r.fix_status);
    assert_eq!(r.latitude, Some(dec(48117300, 6)));
    assert_eq!(r.longitude, Some(dec(11516667, 6)));
    assert_eq!(r.speed, Some(dec(224, 1)));
    assert_eq!(r.course, Some(dec(844, 1)));
    assert_eq!(r.date, "230394");
    // value in field 10, direction in field 11
    assert_eq!(r.mag_var, Some(dec(-31, 1)));
    let r = rmc::parse_rmc(vec![
        "$GPRMC", "", "V", "", "", "", "", "", "", "230394", "003.1", "E", "A",
    ])
    .unwrap();
    assert_eq!(r.utc, dec(0, 0));
    assert!(!r.fix_status);
    assert_eq!(r.mag_var, Some(dec(31, 1)));
    let r = rmc::parse_rmc(vec!["$GPRMC", "1", "A", "", "", "", "", "", "", "x", "003.1"]).unwrap();
    assert_eq!(r.mag_var, None);
    let r = rmc::parse_rmc(vec!["$GPRMC", "1", "A", "", "", "", "", "", ""]).unwrap();
    assert_eq!(r.date, "");
    // a westward variation that is no numeral is absent, not a fault
    let r = rmc::parse_rmc(vec!["$GPRMC", "1", "A", "", "", "", "", "", "", "x", "", "W", "A"])
        .unwrap();
    assert_eq!(r.mag_var, None);
    assert_eq!(r.utc, dec(1, 0));
    assert!(r.fix_status);
    assert_eq!(rmc::parse_rmc(vec!["$GPRMC", "1"]), Err(DecodeError::MissingField));
}

#[test]
fn vtg_line() {
    let r = vtg::parse_vtg(vec![
        "$GPVTG", "054.7", "T", "034.4", "M", "005.5", "N", "010.2", "K", "D",
    ])
    .unwrap();
    assert_eq!(
        r,
        vtg::VtgData {
            true_course: Some(dec(547, 1)),
            magnetic_course: Some(dec(344, 1)),
            speed_knots: Some(dec(55, 1)),
            speed_kph: Some(dec(102, 1)),
            mode: vtg::Mode::Differential,
        }
    );
    let r = vtg::parse_vtg(vec!["$GPVTG", "", "T", "", "M", "", "N", "", "K"]).unwrap();
    assert_eq!(r.true_course, None);
    assert_eq!(r.mode, vtg::Mode::Unknown);
    assert_eq!(vtg::parse_vtg(vec!["$GPVTG", ""]), Err(DecodeError::MissingField));
}

#[test]
fn gll_line() {
    let r = gll::parse_gll(vec!["$GPGLL", "4916.45", "N", "12311.12", "W", "225444", "A", "A"])
        .unwrap();
    assert_eq!(r.latitude, Some(dec(49274167, 6)));
    assert_eq!(r.longitude, Some(dec(-123185333, 6)));
    assert_eq!(r.utc, Some(dec(225444, 0)));
    assert!(r.is_valid);
    let r = gll::parse_gll(vec!["$GPGLL", "", "", "", ""]).unwrap();
    assert_eq!(r.utc, Some(dec(0, 0)));
    assert!(!r.is_valid);
    assert_eq!(
        gll::parse_gll(vec!["$GPGLL", "4916.45", "X", "", ""]),
        Err(DecodeError::InvalidHemisphere)
    );
}

#[test]
fn decoding_twice_gives_equal_records() {
    let fields = vec![
        "$GPGGA", "100.0", "5133.279", "N", "00003.3792", "W", "2", "4", "1.453", "42.53", "M",
        "47.0", "M", "",
    ];
    assert_eq!(gga::parse_gga(fields.clone()), gga::parse_gga(fields));
}

#[test]
fn decoders_check_their_header() {
    let gga_fields = vec!["$GPGGA", "", "", "", "", "", "", "", "", ""];
    assert_eq!(rmc::parse_rmc(gga_fields), Err(DecodeError::HeaderMismatch));
    let gsa_fields = vec!["$GPGSA", "", "", "", "", "", "", "", ""];
    assert_eq!(vtg::parse_vtg(gsa_fields), Err(DecodeError::HeaderMismatch));
    let rmc_fields = vec!["$GPRMC", "", "", "", ""];
    assert_eq!(gll::parse_gll(rmc_fields), Err(DecodeError::HeaderMismatch));
    assert_eq!(rmc::parse_rmc(vec![]), Err(DecodeError::HeaderMismatch));
    assert_eq!(vtg::parse_vtg(vec!["$GP"]), Err(DecodeError::HeaderMismatch));
}
