//! The row parser: one line of text to one tick.
//!
//! A line is split at its commas and the fields are read in their order,
//! each as the column layout says: the date and time, the ask price, the bid
//! price, or nothing. The first field that cannot be read fails the line.
//!
//! Two things that a line says are looked up rather than read here: which
//! number a price field writes, and which instant a date and time is. The
//! row parser takes both per field, as the caller or the calendar gave them.
use crate::market::instant::CivilTime;
use crate::market::instant::Timestamp;
use crate::market::price::Price;
use crate::number::decimal;
use crate::number::read_signed;
use crate::number::read_unsigned;
use crate::number::signed;
use crate::number::unsigned;
use crate::number::write_decimal;
use crate::text::slice_of;
use crate::text::boundary;
use crate::text::lemma_boundary_behind_ascii;
use crate::text::spans;
use crate::text::spans_of;
use crate::text::split;
use crate::text::Span;
use vstd::prelude::*;
use vstd::string::*;
use vstd::utf8::*;

verus! {

/// What a column of the input holds.
#[derive(PartialEq, Eq, Clone, Copy, Debug, Structural)]
pub enum TickDescription {
    DateTime,
    Ask,
    Bid,
    Filler,
}

/// One tick: an instant and the two quoted prices.
#[derive(PartialEq, Eq, Clone, Copy, Debug, Structural)]
pub struct InputRow {
    pub datetime: Timestamp,
    pub ask: Price,
    pub bid: Price,
}

/// The parts of a date and time field, which is written
/// `YYYYMMDD HH:MM:SS.mmm`.
#[derive(PartialEq, Eq, Clone, Copy, Debug, Structural)]
pub enum Part {
    Year,
    Month,
    Day,
    Hour,
    Minute,
    Second,
    Millis,
}

/// Why a date and time field cannot be read.
#[derive(PartialEq, Eq, Clone, Copy, Debug, Structural)]
pub enum PartFault {
    /// The field is too short for the part, or the part's place does not
    /// lie between characters.
    NotFound(Part),
    /// What stands in the part's place is not a number of the part's type.
    Malformed(Part),
}

impl Part {
    /// The place in the field where the part starts.
    pub open spec fn spec_from(self) -> int {
        match self {
            Part::Year => 0,
            Part::Month => 4,
            Part::Day => 6,
            Part::Hour => 9,
            Part::Minute => 12,
            Part::Second => 15,
            Part::Millis => 18,
        }
    }

    /// The place where the part ends in a field of `length` bytes: the
    /// milliseconds take what is left of the field.
    pub open spec fn spec_to(self, length: int) -> int {
        match self {
            Part::Year => 4,
            Part::Month => 6,
            Part::Day => 8,
            Part::Hour => 11,
            Part::Minute => 14,
            Part::Second => 17,
            Part::Millis => length,
        }
    }

    /// The bytes of the part, where the field has them between characters.
    pub open spec fn piece(self, field: Seq<u8>) -> Option<Seq<u8>> {
        let from = self.spec_from();
        let to = self.spec_to(field.len() as int);
        if from <= to <= field.len() && boundary(field, from) && boundary(field, to) {
            Some(field.subrange(from, to))
        } else {
            None
        }
    }

    /// The part read as a number without sign.
    pub open spec fn number(self, field: Seq<u8>) -> Result<u32, PartFault> {
        match self.piece(field) {
            None => Err(PartFault::NotFound(self)),
            Some(piece) => match unsigned(piece) {
                None => Err(PartFault::Malformed(self)),
                Some(number) => Ok(number),
            },
        }
    }

    /// The place in the field where the part starts.
    pub fn from(self) -> (from: usize)
        ensures
            from == self.spec_from(),
    {
        match self {
            Part::Year => 0,
            Part::Month => 4,
            Part::Day => 6,
            Part::Hour => 9,
            Part::Minute => 12,
            Part::Second => 15,
            Part::Millis => 18,
        }
    }

    /// The place where the part ends in a field of `length` bytes.
    pub fn to(self, length: usize) -> (to: usize)
        ensures
            to == self.spec_to(length as int),
    {
        match self {
            Part::Year => 4,
            Part::Month => 6,
            Part::Day => 8,
            Part::Hour => 11,
            Part::Minute => 14,
            Part::Second => 17,
            Part::Millis => length,
        }
    }
}

/// The year of a date and time field: the one part that may have a minus
/// sign.
pub open spec fn year_of(field: Seq<u8>) -> Result<i32, PartFault> {
    match Part::Year.piece(field) {
        None => Err(PartFault::NotFound(Part::Year)),
        Some(piece) => match signed(piece) {
            None => Err(PartFault::Malformed(Part::Year)),
            Some(number) => Ok(number),
        },
    }
}

/// What a date and time field writes, its parts read in their order; the
/// first part that cannot be read is the fault of the field.
#[verifier::opaque]
pub open spec fn civil(field: Seq<u8>) -> Result<CivilTime, PartFault> {
    match year_of(field) {
        Err(fault) => Err(fault),
        Ok(year) => match Part::Month.number(field) {
            Err(fault) => Err(fault),
            Ok(month) => match Part::Day.number(field) {
                Err(fault) => Err(fault),
                Ok(day) => match Part::Hour.number(field) {
                    Err(fault) => Err(fault),
                    Ok(hour) => match Part::Minute.number(field) {
                        Err(fault) => Err(fault),
                        Ok(minute) => match Part::Second.number(field) {
                            Err(fault) => Err(fault),
                            Ok(second) => match Part::Millis.number(field) {
                                Err(fault) => Err(fault),
                                Ok(millis) => Ok(
                                    CivilTime {
                                        year: year,
                                        month: month,
                                        day: day,
                                        hour: hour,
                                        minute: minute,
                                        second: second,
                                        millis: millis,
                                    },
                                ),
                            },
                        },
                    },
                },
            },
        },
    }
}

/// A part that is not a number has its place in the field.
proof fn lemma_malformed_part(field: Seq<u8>, part: Part)
    requires
        civil(field) == Err::<CivilTime, PartFault>(PartFault::Malformed(part)),
    ensures
        part.piece(field) is Some,
{
    reveal(civil);
}

/// Whether a place in the field lies between two characters.
fn at_boundary(field: &[u8], at: usize) -> (between: bool)
    requires
        at <= field.len(),
    ensures
        between == boundary(field@, at as int),
{
    at == 0 || at == field.len() || !(0x80 <= field[at] && field[at] <= 0xbf)
}

/// Cuts a part out of a date and time field.
fn cut<'a>(field: &'a [u8], part: Part) -> (piece: Option<&'a [u8]>)
    ensures
        match piece {
            Some(piece) => part.piece(field@) == Some(piece@),
            None => part.piece(field@) is None,
        },
{
    let from = part.from();
    let to = part.to(field.len());
    if from <= to && to <= field.len() && at_boundary(field, from) && at_boundary(field, to) {
        Some(&field[from..to])
    } else {
        None
    }
}

/// Reads a part of a date and time field as a number without sign.
fn read_part(field: &[u8], part: Part) -> (number: Result<u32, PartFault>)
    ensures
        number == part.number(field@),
{
    match cut(field, part) {
        None => Err(PartFault::NotFound(part)),
        Some(piece) => match read_unsigned(piece) {
            None => Err(PartFault::Malformed(part)),
            Some(number) => Ok(number),
        },
    }
}

/// Reads the year of a date and time field.
fn read_year(field: &[u8]) -> (number: Result<i32, PartFault>)
    ensures
        number == year_of(field@),
{
    match cut(field, Part::Year) {
        None => Err(PartFault::NotFound(Part::Year)),
        Some(piece) => match read_signed(piece) {
            None => Err(PartFault::Malformed(Part::Year)),
            Some(number) => Ok(number),
        },
    }
}

/// Reads a date and time field.
pub fn date_time(field: &[u8]) -> (read: Result<CivilTime, PartFault>)
    ensures
        read == civil(field@),
{
    reveal(civil);
    let year = read_year(field)?;
    let month = read_part(field, Part::Month)?;
    let day = read_part(field, Part::Day)?;
    let hour = read_part(field, Part::Hour)?;
    let minute = read_part(field, Part::Minute)?;
    let second = read_part(field, Part::Second)?;
    let millis = read_part(field, Part::Millis)?;
    Ok(
        CivilTime {
            year: year,
            month: month,
            day: day,
            hour: hour,
            minute: minute,
            second: second,
            millis: millis,
        },
    )
}

/// The byte that parts the fields of a line: a comma.
pub const COMMA: u8 = 0x2c;

/// Why a line gives no tick, as plain values.
pub enum Fault {
    /// The line has more or fewer fields than the layout has columns.
    Shape { line_number: usize, line: Seq<char> },
    /// The date and time field has no such part.
    PartNotFound { line_number: usize, part: Part, field: Seq<char> },
    /// A part of the date and time field is not a number; `found` is what
    /// stands in its place.
    PartMalformed { line_number: usize, part: Part, field: Seq<char>, found: Seq<char> },
    /// The date and time field writes numbers that are no date and time.
    NoSuchTime { line_number: usize, field: Seq<char> },
    /// A price field is not a number.
    NotANumber { line_number: usize, field: Seq<char> },
    /// The layout has no column for the date and time, the ask or the bid.
    Missing { line_number: usize, line: Seq<char> },
}

/// Why a line gives no tick.
#[derive(Debug, PartialEq, Eq)]
pub enum FormatError {
    /// The line has more or fewer fields than the layout has columns.
    Shape { line_number: usize, line: String },
    /// The date and time field has no such part.
    PartNotFound { line_number: usize, part: Part, field: String },
    /// A part of the date and time field is not a number; `found` is what
    /// stands in its place.
    PartMalformed { line_number: usize, part: Part, field: String, found: String },
    /// The date and time field writes numbers that are no date and time.
    NoSuchTime { line_number: usize, field: String },
    /// A price field is not a number.
    NotANumber { line_number: usize, field: String },
    /// The layout has no column for the date and time, the ask or the bid.
    Missing { line_number: usize, line: String },
}

impl View for FormatError {
    type V = Fault;

    open spec fn view(&self) -> Fault {
        match self {
            FormatError::Shape { line_number, line } => Fault::Shape { line_number: *line_number, line: line@ },
            FormatError::PartNotFound { line_number, part, field } => Fault::PartNotFound {
                line_number: *line_number,
                part: *part,
                field: field@,
            },
            FormatError::PartMalformed { line_number, part, field, found } => Fault::PartMalformed {
                line_number: *line_number,
                part: *part,
                field: field@,
                found: found@,
            },
            FormatError::NoSuchTime { line_number, field } => Fault::NoSuchTime {
                line_number: *line_number,
                field: field@,
            },
            FormatError::NotANumber { line_number, field } => Fault::NotANumber {
                line_number: *line_number,
                field: field@,
            },
            FormatError::Missing { line_number, line } => Fault::Missing { line_number: *line_number, line: line@ },
        }
    }
}

/// What has been read of a tick so far.
pub struct Scan {
    pub datetime: Option<Timestamp>,
    pub ask: Option<Price>,
    pub bid: Option<Price>,
}

/// What was looked up for a field, if anything was.
pub open spec fn looked_up<T>(values: Seq<Option<T>>, k: int) -> Option<T> {
    if 0 <= k < values.len() {
        values[k]
    } else {
        None
    }
}

/// The fault of a date and time field that cannot be read.
pub open spec fn part_fault(line_number: usize, field: Seq<u8>, fault: PartFault) -> Fault {
    match fault {
        PartFault::NotFound(part) => Fault::PartNotFound {
            line_number: line_number,
            part: part,
            field: decode_utf8(field),
        },
        PartFault::Malformed(part) => Fault::PartMalformed {
            line_number: line_number,
            part: part,
            field: decode_utf8(field),
            found: decode_utf8(
                field.subrange(part.spec_from(), part.spec_to(field.len() as int)),
            ),
        },
    }
}

/// One field read as its column says. `number` is the number that the field
/// writes and `instant` the instant of the date and time that it writes,
/// where it writes one.
pub open spec fn column(
    line_number: usize,
    field: Seq<u8>,
    role: TickDescription,
    number: Option<Price>,
    instant: Option<i64>,
    scan: Scan,
) -> Result<Scan, Fault> {
    match role {
        TickDescription::DateTime => match civil(field) {
            Err(fault) => Err(part_fault(line_number, field, fault)),
            Ok(_) => match instant {
                Some(millis) => Ok(
                    Scan { datetime: Some(Timestamp { millis: millis }), ask: scan.ask, bid: scan.bid },
                ),
                None => Err(Fault::NoSuchTime { line_number: line_number, field: decode_utf8(field) }),
            },
        },
        TickDescription::Ask => match number {
            Some(price) => Ok(Scan { datetime: scan.datetime, ask: Some(price), bid: scan.bid }),
            None => Err(Fault::NotANumber { line_number: line_number, field: decode_utf8(field) }),
        },
        TickDescription::Bid => match number {
            Some(price) => Ok(Scan { datetime: scan.datetime, ask: scan.ask, bid: Some(price) }),
            None => Err(Fault::NotANumber { line_number: line_number, field: decode_utf8(field) }),
        },
        TickDescription::Filler => Ok(scan),
    }
}

/// The first `n` fields read in their order.
pub open spec fn scanned(
    line_number: usize,
    fields: Seq<Seq<u8>>,
    layout: Seq<TickDescription>,
    numbers: Seq<Option<Price>>,
    instants: Seq<Option<i64>>,
    n: int,
) -> Result<Scan, Fault>
    decreases n,
{
    if n <= 0 {
        Ok(Scan { datetime: None, ask: None, bid: None })
    } else {
        match scanned(line_number, fields, layout, numbers, instants, n - 1) {
            Err(fault) => Err(fault),
            Ok(scan) => column(
                line_number,
                fields[n - 1],
                layout[n - 1],
                looked_up(numbers, n - 1),
                looked_up(instants, n - 1),
                scan,
            ),
        }
    }
}

/// The tick of a line, or the line's fault. `line` is the line's encoding;
/// `numbers` and `instants` hold, field by field, what was looked up.
pub open spec fn formatted(
    line_number: usize,
    line: Seq<u8>,
    layout: Seq<TickDescription>,
    numbers: Seq<Option<Price>>,
    instants: Seq<Option<i64>>,
) -> Result<InputRow, Fault> {
    let fields = split(line, COMMA);
    if fields.len() != layout.len() {
        Err(Fault::Shape { line_number: line_number, line: decode_utf8(line) })
    } else {
        match scanned(line_number, fields, layout, numbers, instants, fields.len() as int) {
            Err(fault) => Err(fault),
            Ok(scan) => if scan.datetime is Some && scan.ask is Some && scan.bid is Some {
                Ok(InputRow { datetime: scan.datetime->0, ask: scan.ask->0, bid: scan.bid->0 })
            } else {
                Err(Fault::Missing { line_number: line_number, line: decode_utf8(line) })
            },
        }
    }
}

/// The instants that the calendar gives to the date and time fields of a
/// line, field by field; `None` for a field that is no date and time.
pub open spec fn calendar(fields: Seq<Seq<u8>>, layout: Seq<TickDescription>) -> Seq<Option<i64>> {
    Seq::new(
        fields.len(),
        |k: int|
            if k < layout.len() && layout[k] == TickDescription::DateTime {
                match civil(fields[k]) {
                    Ok(written) => written.instant(),
                    Err(_) => None,
                }
            } else {
                None
            },
    )
}

/// The ends of a field lie between characters of the line.
proof fn lemma_span_boundaries(line: Seq<u8>, found: Seq<Span>, k: int)
    requires
        valid_utf8(line),
        spans_of(line, COMMA, found),
        0 <= k < found.len(),
    ensures
        boundary(line, found[k].from as int),
        boundary(line, found[k].to as int),
{
    if k > 0 {
        assert(found[k - 1].to + 1 == found[k].from);
        lemma_boundary_behind_ascii(line, found[k - 1].to as int);
    }
    if k < found.len() - 1 {
        assert(line[found[k].to as int] == COMMA);
    }
}

/// A place between characters of a field lies between characters of the
/// line.
proof fn lemma_inner_boundary(line: Seq<u8>, span: Span, at: int)
    requires
        span.from <= span.to <= line.len(),
        boundary(line, span.from as int),
        boundary(line, span.to as int),
        0 <= at <= span.to - span.from,
        boundary(line.subrange(span.from as int, span.to as int), at),
    ensures
        boundary(line, span.from + at),
{
    let field = line.subrange(span.from as int, span.to as int);
    if 0 < at < field.len() {
        assert(field[at] == line[span.from + at]);
    }
}

/// The fields of a line, each as a string of its own.
pub fn columns(line: &str) -> (fields: Vec<String>)
    ensures
        fields.len() == split(line.spec_bytes(), COMMA).len(),
        forall|k: int|
            0 <= k < fields.len() ==> (#[trigger] fields[k])@ == decode_utf8(split(line.spec_bytes(), COMMA)[k]),
{
    proof {
        encode_utf8_valid_utf8(line@);
    }
    let bytes = line.as_bytes();
    let found = spans(bytes, COMMA);
    let mut fields: Vec<String> = Vec::new();
    let mut k: usize = 0;
    while k < found.len()
        invariant
            0 <= k <= found.len(),
            bytes@ == line.spec_bytes(),
            valid_utf8(bytes@),
            spans_of(bytes@, COMMA, found@),
            fields.len() == k,
            forall|j: int|
                0 <= j < k ==> (#[trigger] fields[j])@ == decode_utf8(split(line.spec_bytes(), COMMA)[j]),
        decreases found.len() - k,
    {
        proof {
            lemma_span_boundaries(bytes@, found@, k as int);
        }
        let span = found[k];
        fields.push(slice_of(line, span.from, span.to));
        k += 1;
    }
    fields
}

/// Looks up in the calendar the date and time fields of a line.
pub fn instants(line: &str, tick: &Vec<TickDescription>) -> (found: Vec<Option<i64>>)
    ensures
        found@ == calendar(split(line.spec_bytes(), COMMA), tick@),
{
    let bytes = line.as_bytes();
    let fields = spans(bytes, COMMA);
    let mut found: Vec<Option<i64>> = Vec::new();
    let mut k: usize = 0;
    while k < fields.len()
        invariant
            0 <= k <= fields.len(),
            bytes@ == line.spec_bytes(),
            spans_of(bytes@, COMMA, fields@),
            found.len() == k,
            forall|j: int| 0 <= j < k ==> (#[trigger] found[j]) == calendar(split(bytes@, COMMA), tick@)[j],
        decreases fields.len() - k,
    {
        let span = fields[k];
        let mut instant: Option<i64> = None;
        if k < tick.len() {
            match tick[k] {
                TickDescription::DateTime => {
                    match date_time(&bytes[span.from..span.to]) {
                        Ok(written) => {
                            instant = written.to_millis();
                        },
                        Err(_) => {},
                    }
                },
                _ => {},
            }
        }
        found.push(instant);
        k += 1;
    }
    assert(found@ =~= calendar(split(bytes@, COMMA), tick@));
    found
}

/// Reads one field of a line as its column says.
fn read_column(
    line_number: usize,
    line: &str,
    span: Span,
    role: TickDescription,
    number: Option<Price>,
    instant: Option<i64>,
    scan: &mut (Option<Timestamp>, Option<Price>, Option<Price>),
) -> (read: Result<(), FormatError>)
    requires
        span.from <= span.to <= line.spec_bytes().len(),
        boundary(line.spec_bytes(), span.from as int),
        boundary(line.spec_bytes(), span.to as int),
    ensures
        ({
            let field = line.spec_bytes().subrange(span.from as int, span.to as int);
            let before = Scan { datetime: old(scan).0, ask: old(scan).1, bid: old(scan).2 };
            let after = Scan { datetime: final(scan).0, ask: final(scan).1, bid: final(scan).2 };
            match read {
                Ok(_) => column(line_number, field, role, number, instant, before) == Ok::<Scan, Fault>(after),
                Err(error) => column(line_number, field, role, number, instant, before) == Err::<Scan, Fault>(
                    error@,
                ),
            }
        }),
{
    let bytes = line.as_bytes();
    let ghost field = bytes@.subrange(span.from as int, span.to as int);
    match role {
        TickDescription::DateTime => {
            match date_time(&bytes[span.from..span.to]) {
                Err(PartFault::NotFound(part)) => {
                    return Err(
                        FormatError::PartNotFound {
                            line_number: line_number,
                            part: part,
                            field: slice_of(line, span.from, span.to),
                        },
                    );
                },
                Err(PartFault::Malformed(part)) => {
                    proof {
                        lemma_malformed_part(field, part);
                    }
                    let from = part.from();
                    let to = part.to(span.to - span.from);
                    proof {
                        lemma_inner_boundary(bytes@, span, from as int);
                        lemma_inner_boundary(bytes@, span, to as int);
                        assert(bytes@.subrange(span.from + from, span.from + to) =~= field.subrange(
                            from as int,
                            to as int,
                        ));
                    }
                    return Err(
                        FormatError::PartMalformed {
                            line_number: line_number,
                            part: part,
                            field: slice_of(line, span.from, span.to),
                            found: slice_of(line, span.from + from, span.from + to),
                        },
                    );
                },
                Ok(_) => {
                    match instant {
                        Some(millis) => {
                            scan.0 = Some(Timestamp { millis: millis });
                        },
                        None => {
                            return Err(
                                FormatError::NoSuchTime {
                                    line_number: line_number,
                                    field: slice_of(line, span.from, span.to),
                                },
                            );
                        },
                    }
                },
            }
        },
        TickDescription::Ask => {
            match number {
                Some(price) => {
                    scan.1 = Some(price);
                },
                None => {
                    return Err(
                        FormatError::NotANumber {
                            line_number: line_number,
                            field: slice_of(line, span.from, span.to),
                        },
                    );
                },
            }
        },
        TickDescription::Bid => {
            match number {
                Some(price) => {
                    scan.2 = Some(price);
                },
                None => {
                    return Err(
                        FormatError::NotANumber {
                            line_number: line_number,
                            field: slice_of(line, span.from, span.to),
                        },
                    );
                },
            }
        },
        TickDescription::Filler => {},
    }
    Ok(())
}

/// Reads a line into a tick, with the instants of its date and time fields
/// given: `instants` holds for each field the instant that the calendar
/// gives to what the field writes, `None` where it gives none.
pub fn format_with(
    line_number: usize,
    line: &str,
    tick: &Vec<TickDescription>,
    numbers: &Vec<Option<Price>>,
    instants: &Vec<Option<i64>>,
) -> (read: Result<InputRow, FormatError>)
    ensures
        match read {
            Ok(row) => formatted(line_number, line.spec_bytes(), tick@, numbers@, instants@) == Ok::<
                InputRow,
                Fault,
            >(row),
            Err(error) => formatted(line_number, line.spec_bytes(), tick@, numbers@, instants@) == Err::<
                InputRow,
                Fault,
            >(error@),
        },
{
    proof {
        encode_utf8_valid_utf8(line@);
        encode_utf8_decode_utf8(line@);
    }
    let bytes = line.as_bytes();
    let fields = spans(bytes, COMMA);
    if fields.len() != tick.len() {
        return Err(FormatError::Shape { line_number: line_number, line: line.to_owned() });
    }
    let mut scan: (Option<Timestamp>, Option<Price>, Option<Price>) = (None, None, None);
    let mut k: usize = 0;
    while k < fields.len()
        invariant
            0 <= k <= fields.len(),
            fields.len() == tick.len(),
            bytes@ == line.spec_bytes(),
            valid_utf8(bytes@),
            spans_of(bytes@, COMMA, fields@),
            scanned(line_number, split(bytes@, COMMA), tick@, numbers@, instants@, k as int) == Ok::<Scan, Fault>(
                Scan { datetime: scan.0, ask: scan.1, bid: scan.2 },
            ),
        decreases fields.len() - k,
    {
        let number: Option<Price> = if k < numbers.len() {
            numbers[k]
        } else {
            None
        };
        let instant: Option<i64> = if k < instants.len() {
            instants[k]
        } else {
            None
        };
        proof {
            lemma_span_boundaries(bytes@, fields@, k as int);
            lemma_scanned_fault(
                line_number,
                split(bytes@, COMMA),
                tick@,
                numbers@,
                instants@,
                k + 1,
                fields.len() as int,
            );
        }
        read_column(line_number, line, fields[k], tick[k], number, instant, &mut scan)?;
        k += 1;
    }
    match scan {
        (Some(datetime), Some(ask), Some(bid)) => Ok(InputRow { datetime: datetime, ask: ask, bid: bid }),
        _ => Err(FormatError::Missing { line_number: line_number, line: line.to_owned() }),
    }
}

/// A fault among the first fields is the fault of the line.
proof fn lemma_scanned_fault(
    line_number: usize,
    fields: Seq<Seq<u8>>,
    layout: Seq<TickDescription>,
    numbers: Seq<Option<Price>>,
    instants: Seq<Option<i64>>,
    n: int,
    m: int,
)
    requires
        0 <= n <= m,
    ensures
        scanned(line_number, fields, layout, numbers, instants, n) is Err ==> scanned(
            line_number,
            fields,
            layout,
            numbers,
            instants,
            m,
        ) == scanned(line_number, fields, layout, numbers, instants, n),
    decreases m - n,
{
    if n < m {
        lemma_scanned_fault(line_number, fields, layout, numbers, instants, n, m - 1);
    }
}

/// Reads a line into a tick. `numbers` holds for each field of the line the
/// number that it writes, `None` where it writes none; the instants of the
/// date and time fields are looked up in the calendar.
pub fn formatter(line_number: usize, line: &str, tick: &Vec<TickDescription>, numbers: &Vec<Option<Price>>) -> (read:
    Result<InputRow, FormatError>)
    ensures
        match read {
            Ok(row) => formatted(
                line_number,
                line.spec_bytes(),
                tick@,
                numbers@,
                calendar(split(line.spec_bytes(), COMMA), tick@),
            ) == Ok::<InputRow, Fault>(row),
            Err(error) => formatted(
                line_number,
                line.spec_bytes(),
                tick@,
                numbers@,
                calendar(split(line.spec_bytes(), COMMA), tick@),
            ) == Err::<InputRow, Fault>(error@),
        },
{
    let found = instants(line, tick);
    format_with(line_number, line, tick, numbers, &found)
}

impl Part {
    /// The part's name.
    pub open spec fn name(self) -> Seq<char> {
        match self {
            Part::Year => "year"@,
            Part::Month => "month"@,
            Part::Day => "day"@,
            Part::Hour => "hour"@,
            Part::Minute => "minute"@,
            Part::Second => "second"@,
            Part::Millis => "millis"@,
        }
    }

    /// The part's name.
    pub fn to_string(&self) -> (text: String)
        ensures
            text@ == self.name(),
    {
        match self {
            Part::Year => "year".to_owned(),
            Part::Month => "month".to_owned(),
            Part::Day => "day".to_owned(),
            Part::Hour => "hour".to_owned(),
            Part::Minute => "minute".to_owned(),
            Part::Second => "second".to_owned(),
            Part::Millis => "millis".to_owned(),
        }
    }
}

impl Fault {
    /// The fault in words.
    pub open spec fn message(self) -> Seq<char> {
        match self {
            Fault::Shape { line_number, line } => "Invalid line "@ + decimal(line_number as nat) + ": '"@ + line
                + "'"@,
            Fault::PartNotFound { line_number, part, field } => "Line "@ + decimal(line_number as nat) + ", "@
                + part.name() + " data incorrectly formatted (not found): "@ + field,
            Fault::PartMalformed { line_number, part, field, found } => "Line "@ + decimal(line_number as nat)
                + ", "@ + part.name() + " data incorrectly formatted:'"@ + field + "' -> '"@ + found + "'"@,
            Fault::NoSuchTime { line_number, field } => "Line "@ + decimal(line_number as nat)
                + ", no such date and time: "@ + field,
            Fault::NotANumber { line_number, field } => "Line "@ + decimal(line_number as nat) + ", column "@
                + field + " not a number"@,
            Fault::Missing { line_number, line } => "Invalid line "@ + decimal(line_number as nat) + ": '"@ + line
                + "'"@,
        }
    }
}

impl FormatError {
    /// The number of the line that failed.
    pub fn line_number(&self) -> (number: usize)
        ensures
            number == match self@ {
                Fault::Shape { line_number, .. } => line_number,
                Fault::PartNotFound { line_number, .. } => line_number,
                Fault::PartMalformed { line_number, .. } => line_number,
                Fault::NoSuchTime { line_number, .. } => line_number,
                Fault::NotANumber { line_number, .. } => line_number,
                Fault::Missing { line_number, .. } => line_number,
            },
    {
        match self {
            FormatError::Shape { line_number, .. } => *line_number,
            FormatError::PartNotFound { line_number, .. } => *line_number,
            FormatError::PartMalformed { line_number, .. } => *line_number,
            FormatError::NoSuchTime { line_number, .. } => *line_number,
            FormatError::NotANumber { line_number, .. } => *line_number,
            FormatError::Missing { line_number, .. } => *line_number,
        }
    }

    /// The error in words.
    pub fn to_string(&self) -> (text: String)
        ensures
            text@ == self@.message(),
    {
        match self {
            FormatError::Shape { line_number, line } => {
                let mut text = "Invalid line ".to_owned();
                text.append(write_decimal(*line_number as u64).as_str());
                text.append(": '");
                text.append(line.as_str());
                text.append("'");
                text
            },
            FormatError::PartNotFound { line_number, part, field } => {
                let mut text = "Line ".to_owned();
                text.append(write_decimal(*line_number as u64).as_str());
                text.append(", ");
                text.append(part.to_string().as_str());
                text.append(" data incorrectly formatted (not found): ");
                text.append(field.as_str());
                text
            },
            FormatError::PartMalformed { line_number, part, field, found } => {
                let mut text = "Line ".to_owned();
                text.append(write_decimal(*line_number as u64).as_str());
                text.append(", ");
                text.append(part.to_string().as_str());
                text.append(" data incorrectly formatted:'");
                text.append(field.as_str());
                text.append("' -> '");
                text.append(found.as_str());
                text.append("'");
                text
            },
            FormatError::NoSuchTime { line_number, field } => {
                let mut text = "Line ".to_owned();
                text.append(write_decimal(*line_number as u64).as_str());
                text.append(", no such date and time: ");
                text.append(field.as_str());
                text
            },
            FormatError::NotANumber { line_number, field } => {
                let mut text = "Line ".to_owned();
                text.append(write_decimal(*line_number as u64).as_str());
                text.append(", column ");
                text.append(field.as_str());
                text.append(" not a number");
                text
            },
            FormatError::Missing { line_number, line } => {
                let mut text = "Invalid line ".to_owned();
                text.append(write_decimal(*line_number as u64).as_str());
                text.append(": '");
                text.append(line.as_str());
                text.append("'");
                text
            },
        }
    }
}

/// The column stands at place `at` of the layout and at no other.
pub open spec fn only_at(layout: Seq<TickDescription>, column: TickDescription, at: int) -> bool {
    &&& 0 <= at < layout.len()
    &&& layout[at] == column
    &&& forall|j: int| 0 <= j < layout.len() && #[trigger] layout[j] == column ==> j == at
}

/// What has been read after the first `n` fields of a line whose date and
/// time, ask and bid can all be read.
spec fn read_so_far(
    numbers: Seq<Option<Price>>,
    instants: Seq<Option<i64>>,
    date: int,
    ask: int,
    bid: int,
    n: int,
) -> Scan {
    Scan {
        datetime: if date < n {
            Some(Timestamp { millis: instants[date]->0 })
        } else {
            None
        },
        ask: if ask < n {
            numbers[ask]
        } else {
            None
        },
        bid: if bid < n {
            numbers[bid]
        } else {
            None
        },
    }
}

/// The first fields of a line whose date and time, ask and bid can all be
/// read are read without a fault.
proof fn lemma_scanned_well_formed(
    line_number: usize,
    fields: Seq<Seq<u8>>,
    layout: Seq<TickDescription>,
    numbers: Seq<Option<Price>>,
    instants: Seq<Option<i64>>,
    date: int,
    ask: int,
    bid: int,
    n: int,
)
    requires
        fields.len() == layout.len(),
        0 <= n <= layout.len(),
        only_at(layout, TickDescription::DateTime, date),
        only_at(layout, TickDescription::Ask, ask),
        only_at(layout, TickDescription::Bid, bid),
        civil(fields[date]) is Ok,
        looked_up(instants, date) is Some,
        looked_up(numbers, ask) is Some,
        looked_up(numbers, bid) is Some,
    ensures
        scanned(line_number, fields, layout, numbers, instants, n) == Ok::<Scan, Fault>(
            read_so_far(numbers, instants, date, ask, bid, n),
        ),
    decreases n,
{
    if n > 0 {
        lemma_scanned_well_formed(line_number, fields, layout, numbers, instants, date, ask, bid, n - 1);
        }
}

/// A line that is well formed gives the tick that it writes: where the
/// layout has one column each for the date and time, the ask and the bid,
/// the line has a field for each column, the date and time field can be
/// read and is a date and time, and the two price fields are numbers, the
/// tick holds that instant and those two numbers.
pub proof fn lemma_well_formed_line(
    line_number: usize,
    line: Seq<u8>,
    layout: Seq<TickDescription>,
    numbers: Seq<Option<Price>>,
    instants: Seq<Option<i64>>,
    date: int,
    ask: int,
    bid: int,
)
    requires
        split(line, COMMA).len() == layout.len(),
        only_at(layout, TickDescription::DateTime, date),
        only_at(layout, TickDescription::Ask, ask),
        only_at(layout, TickDescription::Bid, bid),
        civil(split(line, COMMA)[date]) is Ok,
        looked_up(instants, date) is Some,
        looked_up(numbers, ask) is Some,
        looked_up(numbers, bid) is Some,
    ensures
        formatted(line_number, line, layout, numbers, instants) == Ok::<InputRow, Fault>(
            InputRow {
                datetime: Timestamp { millis: instants[date]->0 },
                ask: numbers[ask]->0,
                bid: numbers[bid]->0,
            },
        ),
{
    lemma_scanned_well_formed(
        line_number,
        split(line, COMMA),
        layout,
        numbers,
        instants,
        date,
        ask,
        bid,
        layout.len() as int,
    );
}

} // verus!
