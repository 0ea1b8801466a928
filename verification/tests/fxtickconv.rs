use chrono::{TimeZone, Utc};
use fxtickconv::converter::{ConvertError, Row};
use fxtickconv::formatter::{columns, FormatError, InputRow, Part, TickDescription};
use fxtickconv::fxconv::AskBidOption;
use fxtickconv::fxtickconv::FxTickConv;
use fxtickconv::line_producer::line_producer;
use fxtickconv::market::instant::Timestamp;
use fxtickconv::market::price::Price;
use fxtickconv::market::timeframe::TimeUnit;
use fxtickconv::settings::SettingError;

fn at(year: i32, month: u32, day: u32, hour: u32, minute: u32, second: u32, millis: u32) -> Timestamp {
    Timestamp {
        millis: Utc
            .with_ymd_and_hms(year, month, day, hour, minute, second)
            .unwrap()
            .timestamp_millis()
            + millis as i64,
    }
}

fn prices(values: &[f32]) -> Vec<Price> {
    values.iter().map(|value| Price::from_bits(value.to_bits())).collect()
}

// for each line of the text that is not blank, what each of its fields is as a number
fn numbers(contents: &str) -> Vec<Vec<Option<Price>>> {
    line_producer(contents)
        .iter()
        .map(|(_, line)| {
            columns(line)
                .iter()
                .map(|field| field.parse::<f32>().ok().map(|value| Price::from_bits(value.to_bits())))
                .collect()
        })
        .collect()
}

fn settings(time_frame: &str) -> FxTickConv {
    FxTickConv::new(time_frame, "xdab", false, false, false, false, false).unwrap()
}

const TICKS: &str = "AUD/USD,20161101 22:30:05.632,0.76551,0.76541\r\n\
AUD/USD,20161101 22:30:06.473,0.76555,0.76545\r\n\
\r\n\
AUD/USD,20161101 22:30:06.890,0.76549,0.76538\r\n\
AUD/USD,20161101 22:31:05.631,0.76560,0.76550\r\n\
AUD/USD,20161101 22:31:05.632,0.76561,0.76551\r\n\
AUD/USD,20161101 22:35:00.000,0.76570,0.76560\r\n";

#[test]
fn settings_are_read() {
    let made = FxTickConv::new("45m", "xdab", false, false, false, true, true).unwrap();
    assert_eq!(made.time_frame().len(), 45);
    assert_eq!(*made.time_frame().unit(), TimeUnit::Minute);
    assert_eq!(
        made.tick(),
        &vec![TickDescription::Filler, TickDescription::DateTime, TickDescription::Ask, TickDescription::Bid]
    );
    assert_eq!(made.ask_bid(), Some(AskBidOption::BidFirst));
    assert!(made.headers());
}

#[test]
fn layout_is_read_before_the_time_frame() {
    assert!(matches!(
        FxTickConv::new("45", "xda", false, false, false, false, false),
        Err(SettingError::TickMissing(TickDescription::Bid))
    ));
    assert!(matches!(
        FxTickConv::new("45", "xdab", false, false, false, false, false),
        Err(SettingError::TimeFrameFormat)
    ));
    assert!(matches!(
        FxTickConv::new("0d", "xdab", false, false, false, false, false),
        Err(SettingError::TimeFrameEmpty)
    ));
}

#[test]
fn text_to_ticks() {
    let rows = settings("1m").read(TICKS, &numbers(TICKS)).unwrap();
    assert_eq!(rows.len(), 6);
    assert_eq!(
        rows[0],
        InputRow {
            datetime: at(2016, 11, 1, 22, 30, 5, 632),
            ask: Price::from_bits(0.76551f32.to_bits()),
            bid: Price::from_bits(0.76541f32.to_bits()),
        }
    );
    assert_eq!(rows[5].datetime, at(2016, 11, 1, 22, 35, 0, 0));
}

#[test]
fn line_that_fails_is_named_by_its_number() {
    let text = "AUD/USD,20161101 22:30:05.632,0.76551,0.76541\n\n\nAUD/USD,,0.76551,0.76541\nrest";
    let error = settings("1m").read(text, &numbers(text)).unwrap_err();
    assert_eq!(error, FormatError::PartNotFound { line_number: 4, part: Part::Year, field: String::from("") });
}

#[test]
fn ticks_to_rows() {
    let made = settings("1m");
    let rows = made.read(TICKS, &numbers(TICKS)).unwrap();
    assert_eq!(
        made.run(&rows),
        Ok(vec![
            Row {
                datetime: at(2016, 11, 1, 22, 30, 5, 632),
                column_data: prices(&[0.76551, 0.76560, 0.76549, 0.76560, 0.76541, 0.76550, 0.76538, 0.76550]),
            },
            Row {
                datetime: at(2016, 11, 1, 22, 31, 5, 632),
                column_data: prices(&[0.76561, 0.76561, 0.76561, 0.76561, 0.76551, 0.76551, 0.76551, 0.76551]),
            },
            Row {
                datetime: at(2016, 11, 1, 22, 34, 5, 632),
                column_data: prices(&[0.76570, 0.76570, 0.76570, 0.76570, 0.76560, 0.76560, 0.76560, 0.76560]),
            },
        ])
    );
}

#[test]
fn chosen_sides_in_the_rows() {
    let made = FxTickConv::new("1h", "xdab", false, true, false, false, false).unwrap();
    let rows = made.read(TICKS, &numbers(TICKS)).unwrap();
    assert_eq!(
        made.run(&rows),
        Ok(vec![Row {
            datetime: at(2016, 11, 1, 22, 30, 5, 632),
            column_data: prices(&[0.76541, 0.76560, 0.76538, 0.76560]),
        }])
    );
    let made = FxTickConv::new("1h", "xdab", false, false, false, true, false).unwrap();
    assert_eq!(
        made.run(&rows).unwrap()[0].column_data,
        prices(&[0.76541, 0.76560, 0.76538, 0.76560, 0.76551, 0.76570, 0.76549, 0.76570])
    );
}

#[test]
fn empty_input_gives_no_rows() {
    let made = settings("1d");
    let rows = made.read("", &vec![]).unwrap();
    assert_eq!(rows, vec![]);
    assert_eq!(made.run(&rows), Ok(vec![]));
    assert_eq!(made.read("\n \r\n\n", &vec![]), Ok(vec![]));
}

#[test]
fn same_input_gives_the_same_rows() {
    let made = settings("1m");
    let first = made.read(TICKS, &numbers(TICKS)).unwrap();
    let second = made.read(TICKS, &numbers(TICKS)).unwrap();
    assert_eq!(first, second);
    assert_eq!(made.run(&first), made.run(&second));
}

#[test]
fn group_with_a_price_that_is_no_number() {
    let text = "x,20161101 22:30:05.632,NaN,0.5\nx,20161101 22:30:05.633,0.5,0.5\n";
    let made = settings("1s");
    let rows = made.read(text, &numbers(text)).unwrap();
    assert_eq!(made.run(&rows), Err(ConvertError::NotComparable));
    // alone in its group the price is carried through
    let made = settings("1s");
    let text = "x,20161101 22:30:05.632,NaN,0.5\nx,20161101 22:30:07.633,0.5,0.5\n";
    let rows = made.read(text, &numbers(text)).unwrap();
    let out = made.run(&rows).unwrap();
    assert_eq!(out.len(), 2);
    assert!(out[0].column_data[0].is_nan());
}
