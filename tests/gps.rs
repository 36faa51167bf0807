use adafruit_gps::nmea::gga::SatFix;
use adafruit_gps::nmea::gsa::{DimensionFix, Mode};
use adafruit_gps::nmea::gsv::Satellites;
use adafruit_gps::numeral::Decimal;
use adafruit_gps::open_gps::gps::{self, record_line, record_lines};
use adafruit_gps::{
    decode_line, DecodeError, GpsSentence, LineReader, PortConnection, ReadEvent, UpdateStep,
};

fn dec(mantissa: i64, scale: u32) -> Decimal {
    Decimal { mantissa, scale }
}

/// `$`, the body, `*` and the body's checksum.
fn sentence(body: &str) -> String {
    let sum = body.bytes().fold(0u8, |a, b| a ^ b);
    format!("${}*{:02X}\r\n", body, sum)
}

fn valid(line: &str) -> PortConnection {
    PortConnection::Valid(line.to_string())
}

fn done(step: Result<UpdateStep, DecodeError>) -> GpsSentence {
    match step {
        Ok(UpdateStep::Done(s)) => s,
        _ => panic!("the read cycle is not over"),
    }
}

#[test]
fn is_valid_sentence() {
    assert_eq!(gps::is_valid_checksum("$PMTK220,100*2F"), true);
    assert_eq!(
        gps::is_valid_checksum("$GPGSV,4,3,14,12,12,100,,04,11,331,,16,06,282,,05,05,074,22*75"),
        true
    );
    assert_eq!(gps::is_valid_checksum("$GPGSV,4,4,14,32,01,215,,41,,,*4F"), true);
    assert_eq!(
        gps::is_valid_checksum(
            "$GNGGA,131613.000,5132.7314,N,00005.9099,W,1,9,1.17,42.4,M,47.0,M,,*60\r\n"
        ),
        true
    );
    assert_eq!(
        gps::is_valid_checksum("$GPGSA,A,3,29,02,26,25,31,14,,,,,,,1.42,1.17,0.80*07\r\n"),
        true
    );
    assert_eq!(
        gps::is_valid_checksum("$GPGSA,A,3,29,02,26,25,31,14,,,,,,,1.42,1.17,0.80*A7\r\n"),
        false
    );
}

#[test]
fn checksum_case_and_edges() {
    assert!(gps::is_valid_checksum("$PMTK220,100*2f"));
    assert!(!gps::is_valid_checksum("$PMTK220,100*2G"));
    assert!(!gps::is_valid_checksum("$PMTK220,100+2F"));
    assert!(!gps::is_valid_checksum("*2F"));
    assert!(!gps::is_valid_checksum(""));
    assert!(gps::is_valid_checksum("$*00"));
}

#[test]
fn framed_body_passes_and_changed_body_fails() {
    let body = "GPGLL,4916.45,N,12311.12,W,225444,A";
    let line = sentence(body);
    assert!(gps::is_valid_checksum(&line));
    let changed = line.replacen("4916", "4917", 1);
    assert!(!gps::is_valid_checksum(&changed));
}

#[test]
fn gsa_end_to_end() {
    let line = sentence("GPGSA,M,2,01,02,03,04,05,06,07,08,09,10,11,12,1.0,2.04,32.04");
    match done(decode_line(valid(&line))) {
        GpsSentence::GSA(d) => {
            assert_eq!(d.mode, Mode::Manual);
            assert_eq!(d.dimension_fix, DimensionFix::Dimension2d);
            let sats = [
                d.sat1, d.sat2, d.sat3, d.sat4, d.sat5, d.sat6, d.sat7, d.sat8, d.sat9, d.sat10,
                d.sat11, d.sat12,
            ];
            for (i, s) in sats.iter().enumerate() {
                assert_eq!(*s, Some(i as i32 + 1));
            }
            assert_eq!(d.pdop, Some(dec(10, 1)));
            assert_eq!(d.hdop, Some(dec(204, 2)));
            assert_eq!(d.vdop, Some(dec(3204, 2)));
        }
        other => panic!("not a GSA record: {:?}", other),
    }
}

#[test]
fn gga_differential_end_to_end() {
    let line = sentence("GPGGA,100.0,5133.279,N,00003.3792,W,2,4,1.453,42.53,M,47.0,M,,");
    match done(decode_line(valid(&line))) {
        GpsSentence::GGA(d) => {
            assert_eq!(d.sat_fix, SatFix::DgpsFix);
            assert_eq!(d.satellites_used, 4);
            assert_eq!(d.age_diff_corr, None);
        }
        other => panic!("not a GGA record: {:?}", other),
    }
}

#[test]
fn empty_read_then_timeout_is_no_connection() {
    let mut reader = LineReader::new();
    assert_eq!(reader.step(ReadEvent::Received(vec![])), None);
    assert_eq!(reader.step(ReadEvent::Failed), None);
    let line = reader.step(ReadEvent::Elapsed).unwrap();
    assert_eq!(line, PortConnection::NoConnection);
    assert_eq!(done(decode_line(line)), GpsSentence::NoConnection);
}

#[test]
fn reader_gathers_a_line() {
    let mut reader = LineReader::new();
    let text = "$PMTK220,100*2F\r\n";
    let bytes = text.as_bytes();
    for b in &bytes[..bytes.len() - 1] {
        assert_eq!(reader.step(ReadEvent::Received(vec![*b])), None);
    }
    let line = reader.step(ReadEvent::Received(vec![10])).unwrap();
    // the line comes without its trailing "\r\n"
    assert_eq!(line, PortConnection::Valid("$PMTK220,100*2F".to_string()));
    // a PMTK sentence is valid but of no type that is decoded
    assert_eq!(done(decode_line(line)), GpsSentence::InvalidSentence);
}

#[test]
fn reader_bounds_a_line_and_reports_bad_bytes() {
    let mut reader = LineReader::new();
    assert_eq!(reader.step(ReadEvent::Received(vec![b'a'; 255])), None);
    match reader.step(ReadEvent::Received(vec![b'a'])) {
        Some(PortConnection::Valid(s)) => assert_eq!(s.len(), 256),
        other => panic!("{:?}", other),
    }
    let mut reader = LineReader::new();
    match reader.step(ReadEvent::Received(b"$GP \t\r\n".to_vec())) {
        Some(PortConnection::Valid(s)) => assert_eq!(s, "$GP"),
        other => panic!("{:?}", other),
    }
    let mut reader = LineReader::new();
    match reader.step(ReadEvent::Received(vec![0xff, 10])) {
        Some(PortConnection::InvalidBytes(b)) => assert_eq!(b, vec![0xff, 10]),
        other => panic!("{:?}", other),
    }
    assert_eq!(done(decode_line(PortConnection::InvalidBytes(vec![0xff]))), GpsSentence::InvalidBytes);
}

#[test]
fn bad_checksum_and_unknown_type_are_invalid_sentences() {
    let line = "$GPGSA,A,3,29,02,26,25,31,14,,,,,,,1.42,1.17,0.80*A7\r\n";
    assert_eq!(done(decode_line(valid(line))), GpsSentence::InvalidSentence);
    assert_eq!(done(decode_line(valid(&sentence("GPXYZ,1,2")))), GpsSentence::InvalidSentence);
    assert_eq!(done(decode_line(valid(&sentence("GP")))), GpsSentence::InvalidSentence);
}

#[test]
fn decode_faults_are_reported() {
    let line = sentence("GPGGA,x,,,,,0,0,,,M,,M,");
    assert_eq!(decode_line(valid(&line)).err(), Some(DecodeError::InvalidNumeral));
    let line = sentence("GPGLL,4916.45,Q,,");
    assert_eq!(decode_line(valid(&line)).err(), Some(DecodeError::InvalidHemisphere));
}

#[test]
fn other_sentence_types_are_routed() {
    let vtg = sentence("GPVTG,054.7,T,034.4,M,005.5,N,010.2,K,A");
    assert!(matches!(done(decode_line(valid(&vtg))), GpsSentence::VTG(_)));
    let gll = sentence("GPGLL,4916.45,N,12311.12,W,225444,A");
    assert!(matches!(done(decode_line(valid(&gll))), GpsSentence::GLL(_)));
    let rmc = sentence("GPRMC,123519,A,4807.038,N,01131.000,E,022.4,084.4,230394,003.1,W,A");
    match done(decode_line(valid(&rmc))) {
        GpsSentence::RMC(d) => assert_eq!(d.mag_var, Some(dec(-31, 1))),
        other => panic!("{:?}", other),
    }
    let gsv = sentence("GPGSV,1,1,00");
    assert_eq!(done(decode_line(valid(&gsv))), GpsSentence::GSV(vec![]));
}

fn sat(id: i32) -> Satellites {
    Satellites { id: Some(id), elevation: Some(dec(10, 0)), azimuth: Some(dec(20, 0)), snr: None }
}

#[test]
fn gsv_report_over_three_lines() {
    let first = sentence("GPGSV,3,1,10,01,10,20,,02,10,20,,03,10,20,,04,10,20,");
    let second = sentence("GPGSV,3,2,10,05,10,20,,06,10,20,,07,10,20,,08,10,20,");
    let third = sentence("GPGSV,3,3,10,09,10,20,,10,10,20,");
    let report = match decode_line(valid(&first)) {
        Ok(UpdateStep::Pending(r)) => r,
        _ => panic!("the report should wait for more lines"),
    };
    assert_eq!(report.remaining, 2);
    let report = match report.add_line(valid(&second)) {
        Ok(UpdateStep::Pending(r)) => r,
        _ => panic!("the report should wait for more lines"),
    };
    assert_eq!(report.remaining, 1);
    let all = done(report.add_line(valid(&third)));
    let expected: Vec<Satellites> = (1..=10).map(sat).collect();
    assert_eq!(all, GpsSentence::GSV(expected));
}

#[test]
fn gsv_report_missing_line_is_abandoned() {
    let first = sentence("GPGSV,2,1,05,01,10,20,,02,10,20,,03,10,20,,04,10,20,");
    let report = match decode_line(valid(&first)) {
        Ok(UpdateStep::Pending(r)) => r,
        _ => panic!("the report should wait for more lines"),
    };
    assert_eq!(done(report.add_line(PortConnection::NoConnection)), GpsSentence::NoConnection);
    let report = match decode_line(valid(&first)) {
        Ok(UpdateStep::Pending(r)) => r,
        _ => panic!("the report should wait for more lines"),
    };
    assert_eq!(done(report.add_line(valid("$GPGSV,2,2*00"))), GpsSentence::InvalidSentence);
    let report = match decode_line(valid(&first)) {
        Ok(UpdateStep::Pending(r)) => r,
        _ => panic!("the report should wait for more lines"),
    };
    let other = sentence("GPGSA,M,2,01,02,03,04,05,06,07,08,09,10,11,12,1.0,2.04,32.04");
    assert_eq!(report.add_line(valid(&other)).err(), Some(DecodeError::HeaderMismatch));
}

#[test]
fn gsv_count_must_be_a_number() {
    let line = sentence("GPGSV,x,1,00");
    assert_eq!(decode_line(valid(&line)).err(), Some(DecodeError::InvalidNumeral));
}

#[test]
fn stored_records_split_on_newlines() {
    let mut buffer = record_line(vec![1, 2, 3]);
    buffer.extend(record_line(vec![4]));
    assert_eq!(buffer, vec![1, 2, 3, 10, 4, 10]);
    assert_eq!(record_lines(&buffer), vec![vec![1, 2, 3], vec![4], vec![]]);
    assert_eq!(record_lines(&vec![]), vec![Vec::<u8>::new()]);
    assert_eq!(record_lines(&vec![10, 10]), vec![vec![], vec![], vec![]]);
}
