use chrono::{TimeZone, Utc};
use fxtickconv::formatter::{
    columns, date_time, format_with, formatter, instants, FormatError, InputRow, Part, PartFault, TickDescription,
};
use fxtickconv::market::instant::{CivilTime, Timestamp};
use fxtickconv::market::price::Price;

// helper method to generate a filter for the input line data
fn gen_td() -> Vec<TickDescription> {
    vec![TickDescription::Filler, TickDescription::DateTime, TickDescription::Ask, TickDescription::Bid]
}

fn at(year: i32, month: u32, day: u32, hour: u32, minute: u32, second: u32, millis: u32) -> Timestamp {
    Timestamp {
        millis: Utc
            .with_ymd_and_hms(year, month, day, hour, minute, second)
            .unwrap()
            .timestamp_millis()
            + millis as i64,
    }
}

fn price(value: f32) -> Price {
    Price::from_bits(value.to_bits())
}

// what each field of the line is as a number
fn numbers(line: &str) -> Vec<Option<Price>> {
    columns(line).iter().map(|field| field.parse::<f32>().ok().map(price)).collect()
}

fn read(line_number: usize, line: &str) -> Result<InputRow, FormatError> {
    formatter(line_number, line, &gen_td(), &numbers(line))
}

#[test]
fn normal_use_one_line() {
    assert_eq!(
        read(1, "AUD/USD,20161101 22:30:05.632,0.76551,0.76541"),
        Ok(InputRow { datetime: at(2016, 11, 1, 22, 30, 5, 632), ask: price(0.76551), bid: price(0.76541) })
    );
}

#[test]
fn normal_use_more_lines() {
    assert_eq!(
        read(1, "AUD/USD,20161101 22:30:05.632,0.76551,0.76541"),
        Ok(InputRow { datetime: at(2016, 11, 1, 22, 30, 5, 632), ask: price(0.76551), bid: price(0.76541) })
    );
    assert_eq!(
        read(1, "AUD/USD,20161101 22:30:06.473,0.76555,0.76545"),
        Ok(InputRow { datetime: at(2016, 11, 1, 22, 30, 6, 473), ask: price(0.76555), bid: price(0.76545) })
    );
    assert_eq!(
        read(1, "AUD/USD,20161101 22:30:06.890,0.76549,0.76538"),
        Ok(InputRow { datetime: at(2016, 11, 1, 22, 30, 6, 890), ask: price(0.76549), bid: price(0.76538) })
    );
}

#[test]
fn missing_datetime() {
    let error = read(1, "AUD/USD,,0.76551,0.76541").unwrap_err();
    assert_eq!(
        error,
        FormatError::PartNotFound { line_number: 1, part: Part::Year, field: String::from("") }
    );
    assert_eq!(error.to_string(), "Line 1, year data incorrectly formatted (not found): ");
    assert_eq!(error.line_number(), 1);
}

#[test]
fn missing_element() {
    let error = read(1, "AUD/USD,0.76551,0.76541").unwrap_err();
    assert_eq!(error, FormatError::Shape { line_number: 1, line: String::from("AUD/USD,0.76551,0.76541") });
    assert_eq!(error.to_string(), "Invalid line 1: 'AUD/USD,0.76551,0.76541'");
}

#[test]
fn missing_ask() {
    let line = "Line 1, column  not a number: ParseFloatError { kind: Empty }";
    let error = read(1, line).unwrap_err();
    assert_eq!(error, FormatError::Shape { line_number: 1, line: String::from(line) });
    assert_eq!(
        error.to_string(),
        "Invalid line 1: 'Line 1, column  not a number: ParseFloatError { kind: Empty }'"
    );
}

#[test]
fn missing_bid() {
    let error = read(1, "AUD/USD,20161101 22:30:05.632,0.76551").unwrap_err();
    assert_eq!(error.to_string(), "Invalid line 1: 'AUD/USD,20161101 22:30:05.632,0.76551'");
}

#[test]
fn faulty_datetime() {
    let error = read(1, "AUD/USD,20161101 230:05.632,0.76551,0.76541").unwrap_err();
    assert_eq!(
        error,
        FormatError::PartMalformed {
            line_number: 1,
            part: Part::Minute,
            field: String::from("20161101 230:05.632"),
            found: String::from(":0"),
        }
    );
    assert_eq!(
        error.to_string(),
        "Line 1, minute data incorrectly formatted:'20161101 230:05.632' -> ':0'"
    );
}

#[test]
fn more_cols() {
    let error = read(1, "AUD/USD,20161101 22:30:05.632,0.76551,0.76541,0.7364,0.9347").unwrap_err();
    assert_eq!(
        error,
        FormatError::Shape {
            line_number: 1,
            line: String::from("AUD/USD,20161101 22:30:05.632,0.76551,0.76541,0.7364,0.9347"),
        }
    );
    assert_eq!(
        error.to_string(),
        "Invalid line 1: 'AUD/USD,20161101 22:30:05.632,0.76551,0.76541,0.7364,0.9347'"
    );
}

#[test]
fn less_cols() {
    let error = read(1, "20161101 22:30:05.632,0.76551,0.76541").unwrap_err();
    assert_eq!(error.to_string(), "Invalid line 1: '20161101 22:30:05.632,0.76551,0.76541'");
}

#[test]
fn empty_columns() {
    let error = read(1, ",,,").unwrap_err();
    assert_eq!(error.to_string(), "Line 1, year data incorrectly formatted (not found): ");
}

#[test]
fn price_that_is_no_number() {
    let error = read(7, "AUD/USD,20161101 22:30:05.632,abc,0.76541").unwrap_err();
    assert_eq!(error, FormatError::NotANumber { line_number: 7, field: String::from("abc") });
    assert_eq!(error.to_string(), "Line 7, column abc not a number");
    let error = read(8, "AUD/USD,20161101 22:30:05.632,0.5,").unwrap_err();
    assert_eq!(error, FormatError::NotANumber { line_number: 8, field: String::from("") });
}

#[test]
fn fields_fail_in_their_order() {
    // the ask stands before the date and time: it fails first
    let layout = vec![TickDescription::Ask, TickDescription::DateTime, TickDescription::Bid];
    let line = "x,2016,y";
    let error = formatter(3, line, &layout, &numbers(line)).unwrap_err();
    assert_eq!(error, FormatError::NotANumber { line_number: 3, field: String::from("x") });
    let layout = vec![TickDescription::DateTime, TickDescription::Ask, TickDescription::Bid];
    let line = "2016,x,y";
    let error = formatter(3, line, &layout, &numbers(line)).unwrap_err();
    assert_eq!(
        error,
        FormatError::PartNotFound { line_number: 3, part: Part::Month, field: String::from("2016") }
    );
}

#[test]
fn date_that_the_calendar_does_not_have() {
    let error = read(12, "AUD/USD,20160230 22:30:05.632,0.76551,0.76541").unwrap_err();
    assert_eq!(error, FormatError::NoSuchTime { line_number: 12, field: String::from("20160230 22:30:05.632") });
    assert_eq!(error.to_string(), "Line 12, no such date and time: 20160230 22:30:05.632");
    let error = read(13, "AUD/USD,20161101 24:30:05.632,0.76551,0.76541").unwrap_err();
    assert_eq!(error, FormatError::NoSuchTime { line_number: 13, field: String::from("20161101 24:30:05.632") });
}

#[test]
fn layout_without_a_needed_column() {
    let layout = vec![TickDescription::Filler, TickDescription::DateTime, TickDescription::Ask, TickDescription::Filler];
    let line = "AUD/USD,20161101 22:30:05.632,0.76551,0.76541";
    let error = formatter(4, line, &layout, &numbers(line)).unwrap_err();
    assert_eq!(error, FormatError::Missing { line_number: 4, line: String::from(line) });
    assert_eq!(error.to_string(), "Invalid line 4: 'AUD/USD,20161101 22:30:05.632,0.76551,0.76541'");
    let error = formatter(5, "", &vec![], &vec![]).unwrap_err();
    assert_eq!(error, FormatError::Shape { line_number: 5, line: String::from("") });
}

#[test]
fn filler_is_not_read() {
    let layout = vec![TickDescription::Bid, TickDescription::Filler, TickDescription::Ask, TickDescription::DateTime];
    let line = "1.5,not, a number,2.5,20161101 22:30:05.5";
    let layout_five = vec![
        TickDescription::Bid,
        TickDescription::Filler,
        TickDescription::Filler,
        TickDescription::Ask,
        TickDescription::DateTime,
    ];
    assert!(matches!(formatter(1, line, &layout, &numbers(line)), Err(FormatError::Shape { .. })));
    assert_eq!(
        formatter(1, line, &layout_five, &numbers(line)),
        Ok(InputRow { datetime: at(2016, 11, 1, 22, 30, 5, 5), ask: price(2.5), bid: price(1.5) })
    );
}

#[test]
fn numbers_that_were_not_looked_up_are_no_numbers() {
    let line = "AUD/USD,20161101 22:30:05.632,0.76551,0.76541";
    let error = formatter(1, line, &gen_td(), &vec![]).unwrap_err();
    assert_eq!(error, FormatError::NotANumber { line_number: 1, field: String::from("0.76551") });
}

#[test]
fn instants_are_taken_as_given() {
    let line = "AUD/USD,20161101 22:30:05.632,0.76551,0.76541";
    let given = vec![None, Some(42), None, None];
    assert_eq!(
        format_with(1, line, &gen_td(), &numbers(line), &given),
        Ok(InputRow { datetime: Timestamp { millis: 42 }, ask: price(0.76551), bid: price(0.76541) })
    );
    let none = vec![None, None, None, None];
    assert_eq!(
        format_with(1, line, &gen_td(), &numbers(line), &none),
        Err(FormatError::NoSuchTime { line_number: 1, field: String::from("20161101 22:30:05.632") })
    );
    assert_eq!(
        instants(line, &gen_td()),
        vec![None, Some(at(2016, 11, 1, 22, 30, 5, 632).millis), None, None]
    );
    assert_eq!(instants("20160230 22:30:05.632,x", &vec![TickDescription::DateTime]), vec![None, None]);
}

#[test]
fn columns_of_a_line() {
    assert_eq!(columns("a,,b c,"), vec!["a", "", "b c", ""]);
    assert_eq!(columns(""), vec![""]);
    assert_eq!(columns("é,ü"), vec!["é", "ü"]);
}

#[test]
fn date_time_field_parts() {
    assert_eq!(
        date_time(b"20161101 22:30:05.632"),
        Ok(CivilTime { year: 2016, month: 11, day: 1, hour: 22, minute: 30, second: 5, millis: 632 })
    );
    // a sign may lead a part; the year alone may be negative
    assert_eq!(
        date_time(b"-123+1+2x+3y+4z+5.+6"),
        Ok(CivilTime { year: -123, month: 1, day: 2, hour: 3, minute: 4, second: 5, millis: 6 })
    );
    assert_eq!(date_time(b"2016-101 22:30:05.632"), Err(PartFault::Malformed(Part::Month)));
    assert_eq!(date_time(b"201"), Err(PartFault::NotFound(Part::Year)));
    assert_eq!(date_time(b"2016110"), Err(PartFault::NotFound(Part::Day)));
    assert_eq!(date_time(b"20161101 22:30:05"), Err(PartFault::NotFound(Part::Millis)));
    assert_eq!(date_time(b"20161101 22:30:05."), Err(PartFault::Malformed(Part::Millis)));
    assert_eq!(date_time(b"20161101 22:30:05.4294967295").map(|read| read.millis), Ok(4294967295));
    assert_eq!(date_time(b"20161101 22:30:05.4294967296"), Err(PartFault::Malformed(Part::Millis)));
    assert_eq!(date_time(b"20161101 22:30:0x.1"), Err(PartFault::Malformed(Part::Second)));
    assert_eq!(date_time(b"20161101 2a:30:05.1"), Err(PartFault::Malformed(Part::Hour)));
}

#[test]
fn part_that_does_not_lie_between_characters() {
    // the fourth byte of the field continues a character
    let line = "AUD/USD,201é1101 22:30:05.632,0.76551,0.76541";
    let error = read(2, line).unwrap_err();
    assert_eq!(
        error,
        FormatError::PartNotFound { line_number: 2, part: Part::Year, field: String::from("201é1101 22:30:05.632") }
    );
    let line = "AUD/USD,2016é01 22:30:05.632,0.76551,0.76541";
    let error = read(2, line).unwrap_err();
    assert_eq!(
        error,
        FormatError::PartMalformed {
            line_number: 2,
            part: Part::Month,
            field: String::from("2016é01 22:30:05.632"),
            found: String::from("é"),
        }
    );
}
