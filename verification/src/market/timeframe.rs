//! The width of a bar: a count of time units.
use crate::number::decimal;
use crate::number::write_decimal;
use vstd::prelude::*;
use vstd::string::*;

verus! {

/// The unit in which a time frame is counted.
#[derive(PartialEq, Eq, Clone, Copy, Debug, Structural)]
pub enum TimeUnit {
    Second,
    Minute,
    Hour,
    Day,
    Week,
}

impl TimeUnit {
    /// The length of one unit in milliseconds.
    pub open spec fn spec_millis(self) -> int {
        match self {
            TimeUnit::Second => 1_000,
            TimeUnit::Minute => 60_000,
            TimeUnit::Hour => 3_600_000,
            TimeUnit::Day => 86_400_000,
            TimeUnit::Week => 604_800_000,
        }
    }

    /// The unit's name in human readable terms.
    pub open spec fn name(self) -> Seq<char> {
        match self {
            TimeUnit::Second => "second"@,
            TimeUnit::Minute => "minute"@,
            TimeUnit::Hour => "hour"@,
            TimeUnit::Day => "day"@,
            TimeUnit::Week => "week"@,
        }
    }

    /// The length of one unit in milliseconds.
    pub fn millis(self) -> (width: i64)
        ensures
            width == self.spec_millis(),
    {
        match self {
            TimeUnit::Second => 1_000,
            TimeUnit::Minute => 60_000,
            TimeUnit::Hour => 3_600_000,
            TimeUnit::Day => 86_400_000,
            TimeUnit::Week => 604_800_000,
        }
    }

    /// The unit's name in human readable terms.
    pub fn to_string(&self) -> (text: String)
        ensures
            text@ == self.name(),
    {
        match self {
            TimeUnit::Second => "second".to_owned(),
            TimeUnit::Minute => "minute".to_owned(),
            TimeUnit::Hour => "hour".to_owned(),
            TimeUnit::Day => "day".to_owned(),
            TimeUnit::Week => "week".to_owned(),
        }
    }
}

/// A time frame: `length` units of `unit`.
#[derive(Clone, Copy, Debug)]
pub struct TimeFrame {
    unit: TimeUnit,
    length: usize,
}

impl TimeFrame {
    /// The unit of the time frame.
    pub closed spec fn spec_unit(&self) -> TimeUnit {
        self.unit
    }

    /// The number of units in the time frame.
    pub closed spec fn spec_len(&self) -> usize {
        self.length
    }

    /// The width of the time frame in milliseconds.
    pub open spec fn width(&self) -> int {
        self.spec_len() * self.spec_unit().spec_millis()
    }

    /// A time frame can bound a bar when it is not empty and its width in
    /// milliseconds is a 64-bit signed number.
    pub open spec fn valid(&self) -> bool {
        0 < self.width() <= i64::MAX
    }

    pub fn new(length: usize, unit: TimeUnit) -> (time_frame: TimeFrame)
        ensures
            time_frame.spec_len() == length,
            time_frame.spec_unit() == unit,
    {
        TimeFrame { unit: unit, length: length }
    }

    pub fn unit(&self) -> (unit: &TimeUnit)
        ensures
            *unit == self.spec_unit(),
    {
        &self.unit
    }

    #[verifier::when_used_as_spec(spec_len)]
    pub fn len(&self) -> (length: usize)
        ensures
            length == self.spec_len(),
    {
        self.length
    }

    /// The time frame in human readable terms.
    pub open spec fn text(&self) -> Seq<char> {
        "TimeFrame( "@ + decimal(self.spec_len() as nat) + " "@ + self.spec_unit().name() + " )"@
    }

    /// The time frame in human readable terms.
    pub fn to_string(&self) -> (text: String)
        ensures
            text@ == self.text(),
    {
        let mut text = "TimeFrame( ".to_owned();
        text.append(write_decimal(self.length as u64).as_str());
        text.append(" ");
        text.append(self.unit.to_string().as_str());
        text.append(" )");
        text
    }

    /// The width in milliseconds, for a valid time frame.
    pub fn millis(&self) -> (width: Option<i64>)
        ensures
            self.valid() ==> width == Some(self.width() as i64),
            !self.valid() ==> width is None,
    {
        let unit: i64 = self.unit.millis();
        if self.length == 0 {
            return None;
        }
        let limit: u64 = (i64::MAX / unit) as u64;
        if self.length as u64 > limit {
            assert(self.length * unit > i64::MAX) by (nonlinear_arith)
                requires
                    self.length >= (i64::MAX / unit) + 1,
                    1_000 <= unit <= 604_800_000,
            ;
            return None;
        }
        assert(0 < self.length * unit <= i64::MAX) by (nonlinear_arith)
            requires
                0 < self.length <= i64::MAX / unit,
                1_000 <= unit <= 604_800_000,
        ;
        Some(self.length as i64 * unit)
    }
}

} // verus!
