use fxtickconv::market::timeframe::{TimeFrame, TimeUnit};

#[test]
fn timeunit_formatting() {
    assert_eq!("second", TimeUnit::Second.to_string());
    assert_eq!("minute", TimeUnit::Minute.to_string());
    assert_eq!("hour", TimeUnit::Hour.to_string());
    assert_eq!("day", TimeUnit::Day.to_string());
    assert_eq!("week", TimeUnit::Week.to_string());
}

#[test]
fn timeframe_len() {
    let tf = TimeFrame::new(45, TimeUnit::Minute);
    assert_eq!(tf.len(), 45);
}

#[test]
fn timeframe_unit() {
    let tf = TimeFrame::new(45, TimeUnit::Minute);
    assert!(*tf.unit() == TimeUnit::Minute);
}

#[test]
fn timeframe_width_in_milliseconds() {
    assert_eq!(TimeFrame::new(45, TimeUnit::Minute).millis(), Some(2_700_000));
    assert_eq!(TimeFrame::new(1, TimeUnit::Second).millis(), Some(1_000));
    assert_eq!(TimeFrame::new(2, TimeUnit::Hour).millis(), Some(7_200_000));
    assert_eq!(TimeFrame::new(1, TimeUnit::Day).millis(), Some(86_400_000));
    assert_eq!(TimeFrame::new(3, TimeUnit::Week).millis(), Some(1_814_400_000));
}

#[test]
fn timeframe_without_length_has_no_width() {
    assert_eq!(TimeFrame::new(0, TimeUnit::Day).millis(), None);
}

#[test]
fn timeframe_too_wide_has_no_width() {
    assert_eq!(TimeFrame::new(usize::MAX, TimeUnit::Week).millis(), None);
    let most = (i64::MAX / 1_000) as usize;
    assert_eq!(TimeFrame::new(most, TimeUnit::Second).millis(), Some(most as i64 * 1_000));
    assert_eq!(TimeFrame::new(most + 1, TimeUnit::Second).millis(), None);
}
