//! Checksums, the outcomes of reading one line, and the record that one
//! read cycle produces.
use vstd::prelude::*;
use vstd::utf8::*;

use crate::nmea::gga::{is_gga_header, parse_gga, spec_parse_gga, GgaData};
use crate::nmea::gll::{parse_gll, spec_parse_gll, GllData};
use crate::nmea::gsa::{parse_gsa, spec_parse_gsa, GsaData};
use crate::nmea::gsv::{parse_gsv, spec_parse_gsv, Satellites};
use crate::nmea::parse_nmea::{has_type, header_type_is, parse_sentence, spec_parse_sentence};
use crate::nmea::rmc::{parse_rmc, spec_parse_rmc, RmcData};
use crate::nmea::vtg::{parse_vtg, spec_parse_vtg, VtgData};
use crate::nmea::DecodeError;
use crate::numeral::{hex_byte, hex_digit_value, parse_i32, spec_hex_byte, spec_i32};
use crate::text::{
    is_white_space, lemma_split_on_len, lemma_trim_unchanged, split_on, trim, trim_end,
    trim_end_str, trim_str, views,
};

verus! {

/// The bitwise XOR of all bytes.
pub open spec fn xor_all(b: Seq<u8>) -> u8
    decreases b.len(),
{
    if b.len() == 0 {
        0
    } else {
        xor_all(b.drop_last()) ^ b.last()
    }
}

/// The checksum of a sentence body: the XOR of the bytes of its UTF-8 encoding.
pub open spec fn checksum_of(body: Seq<char>) -> u8 {
    xor_all(encode_utf8(body))
}

/// The trimmed line ends in `*` and two hexadecimal digits that spell the
/// checksum of what lies between its first character and the `*`.
pub open spec fn spec_valid_checksum(s: Seq<char>) -> bool {
    let t = trim(s);
    let n = t.len();
    &&& n >= 4
    &&& t[n - 3] == '*'
    &&& spec_hex_byte(t[n - 2], t[n - 1]) == Some(checksum_of(t.subrange(1, n - 3)))
}

/// Checks the trailing `*XY` checksum of a sentence such as `$PMTK220,100*2F`.
pub fn is_valid_checksum(s: &str) -> (r: bool)
    ensures
        r == spec_valid_checksum(s@),
{
    let t = trim_str(s);
    let n = t.unicode_len();
    if n < 4 || t.get_char(n - 3) != '*' {
        return false;
    }
    match hex_byte(t.get_char(n - 2), t.get_char(n - 1)) {
        Some(expected) => {
            let body = t.substring_char(1, n - 3);
            let bytes = body.as_bytes();
            let mut actual: u8 = 0;
            let mut i: usize = 0;
            while i < bytes.len()
                invariant
                    i <= bytes@.len(),
                    bytes@ == encode_utf8(body@),
                    actual == xor_all(bytes@.take(i as int)),
                decreases bytes@.len() - i,
            {
                proof {
                    assert(bytes@.take(i + 1).drop_last() =~= bytes@.take(i as int));
                }
                actual = actual ^ bytes[i];
                i = i + 1;
            }
            proof {
                assert(bytes@.take(i as int) =~= bytes@);
            }
            actual == expected
        },
        None => false,
    }
}

/// The hexadecimal digit, upper case, for a value below 16.
pub open spec fn hex_digit_char(v: u8) -> char {
    if v < 10 {
        (48 + v) as u8 as char
    } else {
        (55 + v) as u8 as char
    }
}

/// The two hexadecimal digits of a byte.
pub open spec fn hex_pair(x: u8) -> Seq<char> {
    seq![hex_digit_char(x / 16), hex_digit_char(x % 16)]
}

/// A body framed as a sentence: `$`, the body, `*` and the body's checksum.
pub open spec fn framed(body: Seq<char>) -> Seq<char> {
    seq!['$'] + body + seq!['*'] + hex_pair(checksum_of(body))
}

proof fn lemma_hex_pair(x: u8)
    ensures
        spec_hex_byte(hex_pair(x)[0], hex_pair(x)[1]) == Some(x),
        !is_white_space(hex_pair(x)[1]),
{
    let h = x / 16;
    let l = x % 16;
    assert(hex_digit_value(hex_digit_char(h)) == Some(h as int));
    assert(hex_digit_value(hex_digit_char(l)) == Some(l as int));
}

/// A sentence framed with the checksum of its body passes the check.
pub proof fn lemma_framed_is_valid(body: Seq<char>)
    ensures
        spec_valid_checksum(framed(body)),
{
    let s = framed(body);
    lemma_hex_pair(checksum_of(body));
    lemma_trim_unchanged(s);
    assert(s.subrange(1, s.len() - 3) =~= body);
}

proof fn lemma_xor_update(a: Seq<u8>, i: int, y: u8)
    requires
        0 <= i < a.len(),
    ensures
        xor_all(a.update(i, y)) == xor_all(a) ^ a[i] ^ y,
    decreases a.len(),
{
    let b = a.update(i, y);
    let x = xor_all(a.drop_last());
    let ai = a[i];
    let last = a.last();
    if i == a.len() - 1 {
        assert(b.drop_last() =~= a.drop_last());
        assert(x ^ y == (x ^ ai) ^ ai ^ y) by (bit_vector);
    } else {
        assert(b.drop_last() =~= a.drop_last().update(i, y));
        lemma_xor_update(a.drop_last(), i, y);
        assert((x ^ ai ^ y) ^ last == (x ^ last) ^ ai ^ y) by (bit_vector);
    }
}

/// Changing one character of an ASCII body to another ASCII character,
/// without updating the checksum, makes the sentence fail the check.
pub proof fn lemma_changed_body_fails(body: Seq<char>, i: int, c: char)
    requires
        is_ascii_chars(body),
        c <= '\u{7f}',
        0 <= i < body.len(),
        body[i] != c,
    ensures
        !spec_valid_checksum(
            seq!['$'] + body.update(i, c) + seq!['*'] + hex_pair(checksum_of(body)),
        ),
{
    let changed = body.update(i, c);
    let s = seq!['$'] + changed + seq!['*'] + hex_pair(checksum_of(body));
    lemma_hex_pair(checksum_of(body));
    lemma_trim_unchanged(s);
    assert(s.subrange(1, s.len() - 3) =~= changed);
    assert(is_ascii_chars(changed));
    is_ascii_chars_encode_utf8(body);
    is_ascii_chars_encode_utf8(changed);
    let e = encode_utf8(body);
    let e2 = encode_utf8(changed);
    assert(e2 =~= e.update(i, c as u8));
    lemma_xor_update(e, i, c as u8);
    let x = xor_all(e);
    let p = e[i];
    let q = c as u8;
    assert(p != q);
    assert(x ^ p ^ q != x) by (bit_vector)
        requires
            p != q,
    ;
}

/// What reading one line from the receiver gave.
#[derive(Clone, Debug, PartialEq, Eq)]
pub enum PortConnection {
    /// A complete line of text, without its trailing white space.
    Valid(String),
    /// Bytes that are not UTF-8.
    InvalidBytes(Vec<u8>),
    /// Nothing complete came within the time allowed.
    NoConnection,
}

/// The outcome of one read cycle: a decoded sentence, or what went wrong.
#[derive(Clone, Debug, PartialEq, Eq)]
pub enum GpsSentence {
    GGA(GgaData),
    VTG(VtgData),
    GSA(GsaData),
    GSV(Vec<Satellites>),
    GLL(GllData),
    RMC(RmcData),
    NoConnection,
    InvalidBytes,
    InvalidSentence,
}

/// Relies on `String::from_utf8`, which succeeds exactly on valid UTF-8, and on
/// `FromUtf8Error::into_bytes`, which hands the bytes back.
#[verifier::external_body]
fn text_of(bytes: Vec<u8>) -> (r: Result<String, Vec<u8>>)
    ensures
        match r {
            Ok(s) => valid_utf8(bytes@) && s@ == decode_utf8(bytes@),
            Err(b) => !valid_utf8(bytes@) && b@ == bytes@,
        },
{
    match String::from_utf8(bytes) {
        Ok(s) => Ok(s),
        Err(e) => Err(e.into_bytes()),
    }
}

/// The newline byte that ends a line.
pub const NEWLINE: u8 = 10;

/// The longest a line may grow without a newline before it is taken as it is.
pub const MAX_LINE: usize = 255;

/// What happened on one attempt to read from the receiver.
#[derive(Clone, Debug, PartialEq, Eq)]
pub enum ReadEvent {
    /// The time allowed for the line has run out.
    Elapsed,
    /// The read gave these bytes, maybe none.
    Received(Vec<u8>),
    /// The read failed; the attempt is repeated.
    Failed,
}

/// The bytes read so far end the line: the last is a newline, or there are
/// more than `MAX_LINE` of them.
pub open spec fn line_complete(b: Seq<u8>) -> bool {
    b.len() > 0 && (b.last() == NEWLINE || b.len() > MAX_LINE)
}

/// `r` is the outcome for the complete line `b`: its text without trailing
/// white space, or the bytes where they are not UTF-8.
pub open spec fn line_outcome(b: Seq<u8>, r: PortConnection) -> bool {
    if valid_utf8(b) {
        r matches PortConnection::Valid(s) && s@ == trim_end(decode_utf8(b))
    } else {
        r matches PortConnection::InvalidBytes(v) && v@ == b
    }
}

/// The bytes that a run of events puts in a reader's buffer.
pub open spec fn received(events: Seq<ReadEvent>) -> Seq<u8>
    decreases events.len(),
{
    if events.len() == 0 {
        Seq::<u8>::empty()
    } else {
        received(events.drop_last()) + match events.last() {
            ReadEvent::Received(c) => c@,
            _ => Seq::<u8>::empty(),
        }
    }
}

/// The event is an empty or a failed read.
pub open spec fn gives_nothing(e: ReadEvent) -> bool {
    match e {
        ReadEvent::Received(c) => c@.len() == 0,
        ReadEvent::Failed => true,
        ReadEvent::Elapsed => false,
    }
}

/// While the reads give no bytes, a fresh reader holds nothing and no step
/// completes a line; the time then running out gives `NoConnection` (see
/// `LineReader::step`).
pub proof fn lemma_empty_reads_wait(events: Seq<ReadEvent>)
    requires
        forall|i: int| 0 <= i < events.len() ==> gives_nothing(#[trigger] events[i]),
    ensures
        received(events) == Seq::<u8>::empty(),
        forall|j: int| 0 <= j <= events.len() ==> !line_complete(#[trigger] received(events.take(j))),
    decreases events.len(),
{
    if events.len() > 0 {
        let rest = events.drop_last();
        assert forall|i: int| 0 <= i < rest.len() implies gives_nothing(#[trigger] rest[i]) by {
            assert(rest[i] == events[i]);
        }
        lemma_empty_reads_wait(rest);
        assert(gives_nothing(events[events.len() - 1]));
        assert(received(events) =~= Seq::<u8>::empty());
        assert forall|j: int| 0 <= j <= events.len() implies !line_complete(
            #[trigger] received(events.take(j)),
        ) by {
            if j < events.len() {
                assert(events.take(j) =~= rest.take(j));
            } else {
                assert(events.take(j) =~= events);
            }
        }
    }
}

/// Gathers the bytes of one line.
pub struct LineReader {
    pub buffer: Vec<u8>,
}

impl LineReader {
    pub fn new() -> (r: LineReader)
        ensures
            r.buffer@ == Seq::<u8>::empty(),
    {
        LineReader { buffer: Vec::new() }
    }

    /// Takes in one event; gives the outcome once the line is done. A run out
    /// of time gives `NoConnection`; a failed read changes nothing.
    pub fn step(&mut self, event: ReadEvent) -> (r: Option<PortConnection>)
        ensures
            match event {
                ReadEvent::Elapsed => r == Some(PortConnection::NoConnection)
                    && final(self).buffer@ == old(self).buffer@,
                ReadEvent::Failed => r is None && final(self).buffer@ == old(self).buffer@,
                ReadEvent::Received(chunk) => {
                    let b = old(self).buffer@ + chunk@;
                    &&& final(self).buffer@ == b
                    &&& if line_complete(b) {
                        r matches Some(c) && line_outcome(b, c)
                    } else {
                        r is None
                    }
                },
            },
    {
        match event {
            ReadEvent::Elapsed => Some(PortConnection::NoConnection),
            ReadEvent::Failed => None,
            ReadEvent::Received(chunk) => {
                let mut i: usize = 0;
                let ghost start = self.buffer@;
                while i < chunk.len()
                    invariant
                        i <= chunk@.len(),
                        self.buffer@ == start + chunk@.take(i as int),
                    decreases chunk@.len() - i,
                {
                    self.buffer.push(chunk[i]);
                    proof {
                        assert(start + chunk@.take(i + 1) =~= (start + chunk@.take(i as int)).push(
                            chunk@[i as int],
                        ));
                    }
                    i = i + 1;
                }
                proof {
                    assert(chunk@.take(i as int) =~= chunk@);
                }
                let n = self.buffer.len();
                if n > 0 && (self.buffer[n - 1] == NEWLINE || n > MAX_LINE) {
                    match text_of(self.buffer.clone()) {
                        Ok(s) => Some(PortConnection::Valid(String::from_str(trim_end_str(s.as_str())))),
                        Err(b) => Some(PortConnection::InvalidBytes(b)),
                    }
                } else {
                    None
                }
            },
        }
    }
}

/// A satellites-in-view report that awaits more lines: how many, and the
/// satellites so far.
pub struct GsvReport {
    pub remaining: i32,
    pub satellites: Vec<Satellites>,
}

/// Where a read cycle stands after a line.
pub enum UpdateStep {
    /// The cycle is over with this outcome.
    Done(GpsSentence),
    /// A report spread over several lines needs the next line.
    Pending(GsvReport),
}

/// `r` is the outcome for the first line of a GSV report with fields `f`:
/// the second field gives the number of lines.
pub open spec fn gsv_started(f: Seq<Seq<char>>, r: Result<UpdateStep, DecodeError>) -> bool {
    if f.len() < 2 {
        r == Err::<UpdateStep, DecodeError>(DecodeError::MissingField)
    } else {
        match spec_i32(f[1]) {
            None => r == Err::<UpdateStep, DecodeError>(DecodeError::InvalidNumeral),
            Some(n) => match spec_parse_gsv(f) {
                Err(e) => r == Err::<UpdateStep, DecodeError>(e),
                Ok(s) => if n <= 1 {
                    r matches Ok(UpdateStep::Done(GpsSentence::GSV(v))) && v@ == s
                } else {
                    r matches Ok(UpdateStep::Pending(p)) && p.remaining == n - 1 && p.satellites@
                        == s
                },
            },
        }
    }
}

/// `r` is the outcome for a valid sentence with fields `f`, chosen by the
/// sentence type in the header: `GG?`, `VTG`, `GSA`, `GLL`, `RMC`, `GSV`; any
/// other type is an invalid sentence.
pub open spec fn decoded_as(f: Seq<Seq<char>>, r: Result<UpdateStep, DecodeError>) -> bool {
    let h = f[0];
    if is_gga_header(h) {
        match spec_parse_gga(f) {
            Ok(d) => r == Ok::<UpdateStep, DecodeError>(UpdateStep::Done(GpsSentence::GGA(d))),
            Err(e) => r == Err::<UpdateStep, DecodeError>(e),
        }
    } else if has_type(h, 'V', 'T', 'G') {
        match spec_parse_vtg(f) {
            Ok(d) => r == Ok::<UpdateStep, DecodeError>(UpdateStep::Done(GpsSentence::VTG(d))),
            Err(e) => r == Err::<UpdateStep, DecodeError>(e),
        }
    } else if has_type(h, 'G', 'S', 'A') {
        match spec_parse_gsa(f) {
            Ok(d) => r == Ok::<UpdateStep, DecodeError>(UpdateStep::Done(GpsSentence::GSA(d))),
            Err(e) => r == Err::<UpdateStep, DecodeError>(e),
        }
    } else if has_type(h, 'G', 'L', 'L') {
        match spec_parse_gll(f) {
            Ok(d) => r == Ok::<UpdateStep, DecodeError>(UpdateStep::Done(GpsSentence::GLL(d))),
            Err(e) => r == Err::<UpdateStep, DecodeError>(e),
        }
    } else if has_type(h, 'R', 'M', 'C') {
        match spec_parse_rmc(f) {
            Ok(v) => r matches Ok(UpdateStep::Done(GpsSentence::RMC(d))) && d@ == v,
            Err(e) => r == Err::<UpdateStep, DecodeError>(e),
        }
    } else if has_type(h, 'G', 'S', 'V') {
        gsv_started(f, r)
    } else {
        r == Ok::<UpdateStep, DecodeError>(UpdateStep::Done(GpsSentence::InvalidSentence))
    }
}

fn start_gsv(args: Vec<&str>) -> (r: Result<UpdateStep, DecodeError>)
    ensures
        gsv_started(views(args@), r),
{
    proof {
        assert(forall|i: int| 0 <= i < args@.len() ==> views(args@)[i] == args@[i]@);
    }
    if args.len() < 2 {
        return Err(DecodeError::MissingField);
    }
    let number_of_messages = match parse_i32(args[1]) {
        Some(n) => n,
        None => {
            return Err(DecodeError::InvalidNumeral);
        },
    };
    let satellites = match parse_gsv(args) {
        Ok(v) => v,
        Err(e) => {
            return Err(e);
        },
    };
    if number_of_messages <= 1 {
        Ok(UpdateStep::Done(GpsSentence::GSV(satellites)))
    } else {
        Ok(UpdateStep::Pending(GsvReport { remaining: number_of_messages - 1, satellites }))
    }
}

/// Decodes the first line of a read cycle: a sentinel for a line that could
/// not be read or is not a valid sentence, the decoded sentence, or the start
/// of a report that spans several lines.
pub fn decode_line(line: PortConnection) -> (r: Result<UpdateStep, DecodeError>)
    ensures
        match line {
            PortConnection::NoConnection => r == Ok::<UpdateStep, DecodeError>(
                UpdateStep::Done(GpsSentence::NoConnection),
            ),
            PortConnection::InvalidBytes(_) => r == Ok::<UpdateStep, DecodeError>(
                UpdateStep::Done(GpsSentence::InvalidBytes),
            ),
            PortConnection::Valid(s) => match spec_parse_sentence(s@) {
                None => r == Ok::<UpdateStep, DecodeError>(
                    UpdateStep::Done(GpsSentence::InvalidSentence),
                ),
                Some(f) => decoded_as(f, r),
            },
        },
{
    match line {
        PortConnection::NoConnection => Ok(UpdateStep::Done(GpsSentence::NoConnection)),
        PortConnection::InvalidBytes(_) => Ok(UpdateStep::Done(GpsSentence::InvalidBytes)),
        PortConnection::Valid(s) => {
            let fields = match parse_sentence(s.as_str()) {
                Some(f) => f,
                None => {
                    return Ok(UpdateStep::Done(GpsSentence::InvalidSentence));
                },
            };
            proof {
                lemma_split_on_len(trim(s@).take(trim(s@).len() - 3), ',');
            }
            let h = fields[0];
            proof {
                assert(views(fields@)[0] == h@);
            }
            if h.unicode_len() >= 5 && h.get_char(3) == 'G' && h.get_char(4) == 'G' {
                match parse_gga(fields) {
                    Ok(d) => Ok(UpdateStep::Done(GpsSentence::GGA(d))),
                    Err(e) => Err(e),
                }
            } else if header_type_is(h, 'V', 'T', 'G') {
                match parse_vtg(fields) {
                    Ok(d) => Ok(UpdateStep::Done(GpsSentence::VTG(d))),
                    Err(e) => Err(e),
                }
            } else if header_type_is(h, 'G', 'S', 'A') {
                match parse_gsa(fields) {
                    Ok(d) => Ok(UpdateStep::Done(GpsSentence::GSA(d))),
                    Err(e) => Err(e),
                }
            } else if header_type_is(h, 'G', 'L', 'L') {
                match parse_gll(fields) {
                    Ok(d) => Ok(UpdateStep::Done(GpsSentence::GLL(d))),
                    Err(e) => Err(e),
                }
            } else if header_type_is(h, 'R', 'M', 'C') {
                match parse_rmc(fields) {
                    Ok(d) => Ok(UpdateStep::Done(GpsSentence::RMC(d))),
                    Err(e) => Err(e),
                }
            } else if header_type_is(h, 'G', 'S', 'V') {
                start_gsv(fields)
            } else {
                Ok(UpdateStep::Done(GpsSentence::InvalidSentence))
            }
        },
    }
}

impl GsvReport {
    /// Adds the next line of the report. A line that could not be read or is
    /// not a valid sentence abandons the report, with that line's sentinel; a
    /// valid line of another type is a fault. After the last declared line the
    /// report is done, with the satellites of all lines in order.
    pub fn add_line(self, line: PortConnection) -> (r: Result<UpdateStep, DecodeError>)
        ensures
            match line {
                PortConnection::NoConnection => r == Ok::<UpdateStep, DecodeError>(
                    UpdateStep::Done(GpsSentence::NoConnection),
                ),
                PortConnection::InvalidBytes(_) => r == Ok::<UpdateStep, DecodeError>(
                    UpdateStep::Done(GpsSentence::InvalidBytes),
                ),
                PortConnection::Valid(s) => match spec_parse_sentence(s@) {
                    None => r == Ok::<UpdateStep, DecodeError>(
                        UpdateStep::Done(GpsSentence::InvalidSentence),
                    ),
                    Some(f) => match spec_parse_gsv(f) {
                        Err(e) => r == Err::<UpdateStep, DecodeError>(e),
                        Ok(more) => if self.remaining <= 1 {
                            r matches Ok(UpdateStep::Done(GpsSentence::GSV(v))) && v@
                                == self.satellites@ + more
                        } else {
                            r matches Ok(UpdateStep::Pending(p)) && p.remaining == self.remaining
                                - 1 && p.satellites@ == self.satellites@ + more
                        },
                    },
                },
            },
    {
        match line {
            PortConnection::NoConnection => Ok(UpdateStep::Done(GpsSentence::NoConnection)),
            PortConnection::InvalidBytes(_) => Ok(UpdateStep::Done(GpsSentence::InvalidBytes)),
            PortConnection::Valid(s) => {
                let fields = match parse_sentence(s.as_str()) {
                    Some(f) => f,
                    None => {
                        return Ok(UpdateStep::Done(GpsSentence::InvalidSentence));
                    },
                };
                let mut more = match parse_gsv(fields) {
                    Ok(v) => v,
                    Err(e) => {
                        return Err(e);
                    },
                };
                let mut satellites = self.satellites;
                satellites.append(&mut more);
                if self.remaining <= 1 {
                    Ok(UpdateStep::Done(GpsSentence::GSV(satellites)))
                } else {
                    Ok(UpdateStep::Pending(GsvReport { remaining: self.remaining - 1, satellites }))
                }
            },
        }
    }
}

/// The byte views of a sequence of byte vectors.
pub open spec fn byte_views(v: Seq<Vec<u8>>) -> Seq<Seq<u8>> {
    v.map_values(|x: Vec<u8>| x@)
}

/// One stored record as a line: its encoded bytes and a newline.
pub fn record_line(encoded: Vec<u8>) -> (r: Vec<u8>)
    ensures
        r@ == encoded@.push(NEWLINE),
{
    let mut r = encoded;
    r.push(NEWLINE);
    r
}

/// Splits stored records at each newline; the part after the last newline
/// comes last, empty where the buffer ends in a newline.
pub fn record_lines(buffer: &Vec<u8>) -> (r: Vec<Vec<u8>>)
    ensures
        byte_views(r@) == split_on(buffer@, NEWLINE),
{
    let n = buffer.len();
    let mut parts: Vec<Vec<u8>> = Vec::new();
    let mut current: Vec<u8> = Vec::new();
    let mut i: usize = 0;
    proof {
        assert(buffer@.take(0) =~= Seq::<u8>::empty());
        assert(byte_views(parts@).push(current@) =~= seq![Seq::<u8>::empty()]);
    }
    while i < n
        invariant
            n == buffer@.len(),
            i <= n,
            byte_views(parts@).push(current@) == split_on(buffer@.take(i as int), NEWLINE),
        decreases n - i,
    {
        let b = buffer[i];
        let ghost r = split_on(buffer@.take(i as int), NEWLINE);
        proof {
            let t = buffer@.take(i + 1);
            assert(t.drop_last() =~= buffer@.take(i as int));
            assert(t.last() == b);
            lemma_split_on_len(buffer@.take(i as int), NEWLINE);
        }
        if b == NEWLINE {
            let ghost before = parts@;
            let done = current;
            parts.push(done);
            current = Vec::new();
            proof {
                assert(byte_views(parts@) =~= byte_views(before).push(done@));
                assert(byte_views(parts@).push(current@) =~= r.push(Seq::<u8>::empty()));
            }
        } else {
            let ghost before = current@;
            current.push(b);
            proof {
                assert(byte_views(parts@).push(current@) =~= r.update(
                    r.len() - 1,
                    r.last().push(b),
                ));
            }
        }
        i = i + 1;
    }
    let ghost before = parts@;
    let last = current;
    parts.push(last);
    proof {
        assert(byte_views(parts@) =~= byte_views(before).push(last@));
        assert(buffer@.take(n as int) =~= buffer@);
    }
    parts
}

} // verus!
