use fxtickconv::formatter::{formatter, Part, TickDescription};
use fxtickconv::market::instant::CivilTime;
use fxtickconv::market::price::Price;

fn civil(year: i32, month: u32, day: u32, hour: u32, minute: u32, second: u32, millis: u32) -> CivilTime {
    CivilTime { year, month, day, hour, minute, second, millis }
}

#[test]
fn instants_count_milliseconds_from_1970() {
    assert_eq!(civil(1970, 1, 1, 0, 0, 0, 0).to_millis(), Some(0));
    assert_eq!(civil(1970, 1, 1, 0, 0, 1, 444).to_millis(), Some(1_444));
    assert_eq!(civil(2001, 9, 9, 1, 46, 40, 555).to_millis(), Some(1_000_000_000_555));
    assert_eq!(civil(2016, 11, 1, 22, 30, 5, 632).to_millis(), Some(1_478_039_405_632));
    assert_eq!(civil(1969, 12, 31, 23, 59, 59, 999).to_millis(), Some(-1));
}

#[test]
fn dates_and_times_that_do_not_exist() {
    assert_eq!(civil(2016, 2, 30, 0, 0, 0, 0).to_millis(), None);
    assert_eq!(civil(2015, 2, 29, 0, 0, 0, 0).to_millis(), None);
    assert_eq!(civil(2016, 0, 1, 0, 0, 0, 0).to_millis(), None);
    assert_eq!(civil(2016, 13, 1, 0, 0, 0, 0).to_millis(), None);
    assert_eq!(civil(2016, 1, 0, 0, 0, 0, 0).to_millis(), None);
    assert_eq!(civil(2016, 1, 1, 24, 0, 0, 0).to_millis(), None);
    assert_eq!(civil(2016, 1, 1, 0, 60, 0, 0).to_millis(), None);
    assert_eq!(civil(2016, 1, 1, 0, 0, 60, 0).to_millis(), None);
    assert_eq!(civil(2016, 1, 1, 0, 0, 0, 2_000).to_millis(), None);
    assert_eq!(civil(400_000, 1, 1, 0, 0, 0, 0).to_millis(), None);
    assert_eq!(civil(2016, 1, 1, 0, 0, 0, u32::MAX).to_millis(), None);
}

#[test]
fn instant_of_a_line() {
    let layout = vec![TickDescription::DateTime, TickDescription::Ask, TickDescription::Bid];
    let one = Some(Price::from_bits(1.0f32.to_bits()));
    let row = formatter(1, "20161101 22:30:05.632,1,1", &layout, &vec![None, one, one]).unwrap();
    assert_eq!(row.datetime.millis, 1_478_039_405_632);
    // the milliseconds are read as a number, not as a fraction
    let row = formatter(1, "20161101 22:30:05.5,1,1", &layout, &vec![None, one, one]).unwrap();
    assert_eq!(row.datetime.millis, 1_478_039_405_005);
}

#[test]
fn parts_of_a_date_and_time_field() {
    let parts = [Part::Year, Part::Month, Part::Day, Part::Hour, Part::Minute, Part::Second, Part::Millis];
    let names = ["year", "month", "day", "hour", "minute", "second", "millis"];
    let places = [(0, 4), (4, 6), (6, 8), (9, 11), (12, 14), (15, 17), (18, 21)];
    for i in 0..7 {
        assert_eq!(parts[i].to_string(), names[i]);
        assert_eq!((parts[i].from(), parts[i].to(21)), places[i]);
    }
    assert_eq!(Part::Millis.to(30), 30);
}
