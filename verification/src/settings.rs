//! The settings of a run, read from the texts in which they are given.
use crate::formatter::TickDescription;
use crate::fxconv::AskBidOption;
use crate::line_producer::trim;
use crate::line_producer::trimmed;
use crate::market::timeframe::TimeFrame;
use crate::market::timeframe::TimeUnit;
use crate::number::digits;
use crate::number::is_digit;
use crate::number::read_digits;
use crate::text::Span;
use vstd::prelude::*;
use vstd::string::*;
use vstd::utf8::*;

verus! {

/// Why a setting cannot be read.
#[derive(PartialEq, Eq, Clone, Copy, Debug, Structural)]
pub enum SettingError {
    /// The time frame is not a run of digits and one more byte.
    TimeFrameFormat,
    /// The time frame has no digits, or they write a number that is too
    /// large.
    TimeFrameLength,
    /// The time frame's unit is none of `s`, `m`, `h`, `d` and `w`.
    TimeFrameUnit,
    /// The time frame is zero units long.
    TimeFrameEmpty,
    /// The time frame is wider than a 64-bit signed number of milliseconds.
    TimeFrameWidth,
    /// The layout names the date and time, the ask or the bid twice.
    TickDuplicate(TickDescription),
    /// The byte at `at` of the layout is none of `d`, `a`, `b` and `x`.
    TickInvalid { at: usize },
    /// The layout does not name the date and time, the ask or the bid.
    TickMissing(TickDescription),
}

/// The number of digits that a text starts with.
pub open spec fn leading_digits(text: Seq<u8>) -> int
    decreases text.len(),
{
    if text.len() > 0 && is_digit(text[0]) {
        1 + leading_digits(text.drop_first())
    } else {
        0
    }
}

/// The unit that a byte stands for.
pub open spec fn unit_of(code: u8) -> Option<TimeUnit> {
    if code == 0x73 {
        Some(TimeUnit::Second)
    } else if code == 0x6d {
        Some(TimeUnit::Minute)
    } else if code == 0x68 {
        Some(TimeUnit::Hour)
    } else if code == 0x64 {
        Some(TimeUnit::Day)
    } else if code == 0x77 {
        Some(TimeUnit::Week)
    } else {
        None
    }
}

/// The length and the unit that a text such as `45m` writes: a number
/// directly followed by the one byte of the unit. The time frame that is
/// read is valid: not empty, and no wider than can be counted.
pub open spec fn time_frame_of(text: Seq<u8>) -> Result<(usize, TimeUnit), SettingError> {
    let count = leading_digits(text);
    if text.len() != count + 1 {
        Err(SettingError::TimeFrameFormat)
    } else {
        match digits(text.take(count), usize::MAX as int) {
            None => Err(SettingError::TimeFrameLength),
            Some(length) => match unit_of(text[count]) {
                None => Err(SettingError::TimeFrameUnit),
                Some(unit) => if length == 0 {
                    Err(SettingError::TimeFrameEmpty)
                } else if length * unit.spec_millis() > i64::MAX {
                    Err(SettingError::TimeFrameWidth)
                } else {
                    Ok((length as usize, unit))
                },
            },
        }
    }
}

/// The digits that a text starts with are digits, and what follows them is
/// none.
proof fn lemma_leading_digits(text: Seq<u8>)
    ensures
        0 <= leading_digits(text) <= text.len(),
        forall|i: int| 0 <= i < leading_digits(text) ==> is_digit(#[trigger] text[i]),
        leading_digits(text) < text.len() ==> !is_digit(text[leading_digits(text)]),
    decreases text.len(),
{
    if text.len() > 0 && is_digit(text[0]) {
        let rest = text.drop_first();
        lemma_leading_digits(rest);
        assert forall|i: int| 0 <= i < leading_digits(text) implies is_digit(#[trigger] text[i]) by {
            if i > 0 {
                assert(text[i] == rest[i - 1]);
            }
        }
        if leading_digits(text) < text.len() {
            assert(text[leading_digits(text)] == rest[leading_digits(rest)]);
        }
    }
}

/// A run of digits that ends the text or stands before a byte that is no
/// digit is the digits that the text starts with.
proof fn lemma_leading_digits_found(text: Seq<u8>, count: int)
    requires
        0 <= count <= text.len(),
        forall|i: int| 0 <= i < count ==> is_digit(#[trigger] text[i]),
        count < text.len() ==> !is_digit(text[count]),
    ensures
        leading_digits(text) == count,
{
    lemma_leading_digits(text);
    let found = leading_digits(text);
    if found < count {
        assert(is_digit(text[found]));
    } else if count < found {
        assert(is_digit(text[count]));
    }
}

/// Reads a time frame such as `45m`.
pub fn time_frame(text: &str) -> (read: Result<TimeFrame, SettingError>)
    ensures
        match read {
            Ok(time_frame) => time_frame.valid() && time_frame_of(text.spec_bytes()) == Ok::<
                (usize, TimeUnit),
                SettingError,
            >((time_frame.spec_len(), time_frame.spec_unit())),
            Err(error) => time_frame_of(text.spec_bytes()) == Err::<(usize, TimeUnit), SettingError>(error),
        },
{
    let bytes = text.as_bytes();
    // count the digits
    let mut count: usize = 0;
    while count < bytes.len() && 0x30 <= bytes[count] && bytes[count] <= 0x39
        invariant
            0 <= count <= bytes.len(),
            forall|i: int| 0 <= i < count ==> is_digit(#[trigger] bytes@[i]),
        decreases bytes.len() - count,
    {
        count += 1;
    }
    proof {
        lemma_leading_digits_found(bytes@, count as int);
    }
    // check the text only has one more byte
    if bytes.len() - count != 1 {
        return Err(SettingError::TimeFrameFormat);
    }
    let part = &bytes[0..count];
    assert(part@ =~= bytes@.take(count as int));
    let length: usize = match read_digits(part, usize::MAX as u64) {
        Some(length) => length as usize,
        None => {
            return Err(SettingError::TimeFrameLength);
        },
    };
    let code: u8 = bytes[count];
    let unit = if code == 0x73 {
        TimeUnit::Second
    } else if code == 0x6d {
        TimeUnit::Minute
    } else if code == 0x68 {
        TimeUnit::Hour
    } else if code == 0x64 {
        TimeUnit::Day
    } else if code == 0x77 {
        TimeUnit::Week
    } else {
        return Err(SettingError::TimeFrameUnit);
    };
    if length == 0 {
        return Err(SettingError::TimeFrameEmpty);
    }
    let time_frame = TimeFrame::new(length, unit);
    assert(0 < length * unit.spec_millis()) by (nonlinear_arith)
        requires
            0 < length,
            1_000 <= unit.spec_millis(),
    ;
    if time_frame.millis().is_none() {
        return Err(SettingError::TimeFrameWidth);
    }
    Ok(time_frame)
}

/// The column that a byte of a layout stands for.
pub open spec fn column_of(code: u8) -> Option<TickDescription> {
    if code == 0x64 {
        Some(TickDescription::DateTime)
    } else if code == 0x61 {
        Some(TickDescription::Ask)
    } else if code == 0x62 {
        Some(TickDescription::Bid)
    } else if code == 0x78 {
        Some(TickDescription::Filler)
    } else {
        None
    }
}

/// The columns that the first `n` bytes of a layout name, or the first
/// fault among them: a byte that names no column, or the second naming of a
/// column other than a filler.
pub open spec fn named(text: Seq<u8>, n: int) -> Result<Seq<TickDescription>, SettingError>
    decreases n,
{
    if n <= 0 {
        Ok(Seq::empty())
    } else {
        match named(text, n - 1) {
            Err(error) => Err(error),
            Ok(columns) => match column_of(text[n - 1]) {
                None => Err(SettingError::TickInvalid { at: (n - 1) as usize }),
                Some(column) => if column != TickDescription::Filler && columns.contains(column) {
                    Err(SettingError::TickDuplicate(column))
                } else {
                    Ok(columns.push(column))
                },
            },
        }
    }
}

/// The layout that a text such as `xdab` writes: the date and time, the ask
/// and the bid once each, and fillers.
pub open spec fn layout_of(text: Seq<u8>) -> Result<Seq<TickDescription>, SettingError> {
    match named(text, text.len() as int) {
        Err(error) => Err(error),
        Ok(columns) => if !columns.contains(TickDescription::DateTime) {
            Err(SettingError::TickMissing(TickDescription::DateTime))
        } else if !columns.contains(TickDescription::Ask) {
            Err(SettingError::TickMissing(TickDescription::Ask))
        } else if !columns.contains(TickDescription::Bid) {
            Err(SettingError::TickMissing(TickDescription::Bid))
        } else {
            Ok(columns)
        },
    }
}

/// The layout holds the date and time, the ask and the bid once each.
pub open spec fn valid_layout(columns: Seq<TickDescription>) -> bool {
    &&& once(columns, TickDescription::DateTime)
    &&& once(columns, TickDescription::Ask)
    &&& once(columns, TickDescription::Bid)
}

/// The column stands at one place of the layout and at no other.
pub open spec fn once(columns: Seq<TickDescription>, column: TickDescription) -> bool {
    exists|i: int|
        0 <= i < columns.len() && #[trigger] columns[i] == column && forall|j: int|
            0 <= j < columns.len() && #[trigger] columns[j] == column ==> j == i
}

/// Whether the layout holds the column.
fn holds(columns: &Vec<TickDescription>, column: TickDescription) -> (found: bool)
    ensures
        found == columns@.contains(column),
{
    let mut i: usize = 0;
    while i < columns.len()
        invariant
            0 <= i <= columns.len(),
            forall|j: int| 0 <= j < i ==> columns@[j] != column,
        decreases columns.len() - i,
    {
        if columns[i] == column {
            return true;
        }
        i += 1;
    }
    false
}

/// Reads a column layout such as `xdab`.
pub fn tick(text: &str) -> (read: Result<Vec<TickDescription>, SettingError>)
    ensures
        match read {
            Ok(columns) => layout_of(text.spec_bytes()) == Ok::<Seq<TickDescription>, SettingError>(columns@),
            Err(error) => layout_of(text.spec_bytes()) == Err::<Seq<TickDescription>, SettingError>(error),
        },
{
    let bytes = text.as_bytes();
    let mut description: Vec<TickDescription> = Vec::new();
    let mut i: usize = 0;
    while i < bytes.len()
        invariant
            0 <= i <= bytes.len(),
            bytes@ == text.spec_bytes(),
            named(bytes@, i as int) == Ok::<Seq<TickDescription>, SettingError>(description@),
        decreases bytes.len() - i,
    {
        proof {
            lemma_named_fault(bytes@, i + 1, bytes.len() as int);
        }
        let code: u8 = bytes[i];
        let column = if code == 0x64 {
            TickDescription::DateTime
        } else if code == 0x61 {
            TickDescription::Ask
        } else if code == 0x62 {
            TickDescription::Bid
        } else if code == 0x78 {
            TickDescription::Filler
        } else {
            return Err(SettingError::TickInvalid { at: i });
        };
        if column != TickDescription::Filler && holds(&description, column) {
            return Err(SettingError::TickDuplicate(column));
        }
        description.push(column);
        i += 1;
    }
    if !holds(&description, TickDescription::DateTime) {
        return Err(SettingError::TickMissing(TickDescription::DateTime));
    }
    if !holds(&description, TickDescription::Ask) {
        return Err(SettingError::TickMissing(TickDescription::Ask));
    }
    if !holds(&description, TickDescription::Bid) {
        return Err(SettingError::TickMissing(TickDescription::Bid));
    }
    Ok(description)
}

/// A fault among the first bytes is the fault of the layout.
proof fn lemma_named_fault(text: Seq<u8>, n: int, m: int)
    requires
        0 <= n <= m,
    ensures
        named(text, n) is Err ==> named(text, m) == named(text, n),
    decreases m - n,
{
    if n < m {
        lemma_named_fault(text, n, m - 1);
    }
}

/// The columns that a layout names are as many as its bytes, and none but
/// fillers is named twice.
proof fn lemma_named(text: Seq<u8>, n: int)
    requires
        0 <= n <= text.len(),
    ensures
        match named(text, n) {
            Ok(columns) => {
                &&& columns.len() == n
                &&& forall|i: int, j: int|
                    0 <= i < j < n && columns[i] == columns[j] ==> columns[i] == TickDescription::Filler
            },
            Err(_) => true,
        },
    decreases n,
{
    if n > 0 {
        lemma_named(text, n - 1);
        match named(text, n - 1) {
            Ok(before) => {
                match column_of(text[n - 1]) {
                    Some(column) => {
                        if !(column != TickDescription::Filler && before.contains(column)) {
                            let columns = before.push(column);
                            assert forall|i: int, j: int|
                                0 <= i < j < n && columns[i] == columns[j] implies columns[i]
                                == TickDescription::Filler by {
                                if j == n - 1 {
                                    assert(before[i] == column);
                                    assert(before.contains(column));
                                } else {
                                    assert(columns[i] == before[i] && columns[j] == before[j]);
                                }
                            }
                        }
                    },
                    None => {},
                }
            },
            Err(_) => {},
        }
    }
}

/// A layout that is read holds one column for each byte of the text, and
/// the date and time, the ask and the bid once each.
pub proof fn lemma_layout_is_valid(text: Seq<u8>)
    ensures
        layout_of(text) matches Ok(columns) ==> columns.len() == text.len() && valid_layout(columns),
{
    lemma_named(text, text.len() as int);
    match layout_of(text) {
        Ok(columns) => {
            lemma_once(columns, TickDescription::DateTime);
            lemma_once(columns, TickDescription::Ask);
            lemma_once(columns, TickDescription::Bid);
        },
        Err(_) => {},
    }
}

/// What a layout holds, and not twice, it holds once.
proof fn lemma_once(columns: Seq<TickDescription>, column: TickDescription)
    requires
        columns.contains(column),
        forall|i: int, j: int| 0 <= i < j < columns.len() && columns[i] == columns[j] ==> columns[i] != column,
    ensures
        once(columns, column),
{
    let i = choose|i: int| 0 <= i < columns.len() && columns[i] == column;
    assert forall|j: int| 0 <= j < columns.len() && #[trigger] columns[j] == column implies j == i by {
        if j < i {
            assert(columns[j] == columns[i]);
        } else if i < j {
            assert(columns[i] == columns[j]);
        }
    }
}

/// The choice of sides that the four switches make: the first that is set,
/// in the order ask only, bid only, ask first, bid first.
pub open spec fn choice_of(ask_only: bool, bid_only: bool, ask_first: bool, bid_first: bool) -> Option<
    AskBidOption,
> {
    if ask_only {
        Some(AskBidOption::AskOnly)
    } else if bid_only {
        Some(AskBidOption::BidOnly)
    } else if ask_first {
        Some(AskBidOption::AskFirst)
    } else if bid_first {
        Some(AskBidOption::BidFirst)
    } else {
        None
    }
}

/// Reads the choice of sides off the four switches.
pub fn ask_bid(ask_only: bool, bid_only: bool, ask_first: bool, bid_first: bool) -> (choice: Option<AskBidOption>)
    ensures
        choice == choice_of(ask_only, bid_only, ask_first, bid_first),
{
    if ask_only {
        Some(AskBidOption::AskOnly)
    } else if bid_only {
        Some(AskBidOption::BidOnly)
    } else if ask_first {
        Some(AskBidOption::AskFirst)
    } else if bid_first {
        Some(AskBidOption::BidFirst)
    } else {
        None
    }
}

/// The first of the two header lines: for each output column its side.
pub open spec fn top_line(choice: Option<AskBidOption>) -> Seq<char> {
    match choice {
        Some(AskBidOption::AskOnly) => ","@ + "ask,ask,ask,ask"@,
        Some(AskBidOption::BidOnly) => ","@ + "ask,ask,ask,ask"@,
        Some(AskBidOption::BidFirst) => ","@ + "bid,bid,bid,bid"@ + ","@ + "ask,ask,ask,ask"@,
        _ => ","@ + "ask,ask,ask,ask"@ + ","@ + "bid,bid,bid,bid"@,
    }
}

/// The second of the two header lines: for each output column what it
/// holds of its side.
pub open spec fn bottom_line(choice: Option<AskBidOption>) -> Seq<char> {
    match choice {
        Some(AskBidOption::AskOnly) => "datetime,"@ + "open,high,low,close"@,
        Some(AskBidOption::BidOnly) => "datetime,"@ + "open,high,low,close"@,
        Some(AskBidOption::BidFirst) => "datetime,"@ + "open,high,low,close"@ + ","@ + "open,high,low,close"@,
        _ => "datetime,"@ + "open,high,low,close"@ + ","@ + "open,high,low,close"@,
    }
}

/// The two header lines of the output. With one side alone the first line
/// names the ask side, whichever side it is.
pub fn header_lines(choice: Option<AskBidOption>) -> (lines: (String, String))
    ensures
        lines.0@ == top_line(choice),
        lines.1@ == bottom_line(choice),
{
    let ask = "ask,ask,ask,ask";
    let bid = "bid,bid,bid,bid";
    let ohlc = "open,high,low,close";
    let mut top = ",".to_owned();
    let mut bottom = "datetime,".to_owned();
    match choice {
        Some(AskBidOption::AskOnly) => {
            top.append(ask);
            bottom.append(ohlc);
        },
        Some(AskBidOption::BidOnly) => {
            top.append(ask);
            bottom.append(ohlc);
        },
        Some(AskBidOption::BidFirst) => {
            top.append(bid);
            top.append(",");
            top.append(ask);
            bottom.append(ohlc);
            bottom.append(",");
            bottom.append(ohlc);
        },
        _ => {
            top.append(ask);
            top.append(",");
            top.append(bid);
            bottom.append(ohlc);
            bottom.append(",");
            bottom.append(ohlc);
        },
    }
    (top, bottom)
}

/// What an answer to the question whether to overwrite says, white space
/// at its ends apart: yes for `y`, `Y`, `yes` and `Yes`, no for `n`, `N`,
/// `no` and `No`, and nothing for any other answer.
pub open spec fn answer_of(text: Seq<u8>) -> Option<bool> {
    let word = trimmed(text);
    if word == seq![0x79u8] || word == seq![0x59u8] || word == seq![0x79u8, 0x65u8, 0x73u8] || word == seq![
        0x59u8,
        0x65u8,
        0x73u8,
    ] {
        Some(true)
    } else if word == seq![0x6eu8] || word == seq![0x4eu8] || word == seq![0x6eu8, 0x6fu8] || word == seq![
        0x4eu8,
        0x6fu8,
    ] {
        Some(false)
    } else {
        None
    }
}

/// Reads an answer to the question whether to overwrite the output.
pub fn overwrite_answer(answer: &str) -> (said: Option<bool>)
    ensures
        said == answer_of(answer.spec_bytes()),
{
    proof {
        encode_utf8_valid_utf8(answer@);
    }
    let bytes = answer.as_bytes();
    let kept = trim(bytes, Span { from: 0, to: bytes.len() });
    let ghost word = bytes@.subrange(kept.from as int, kept.to as int);
    assert(bytes@.subrange(0, bytes.len() as int) =~= bytes@);
    let length = kept.to - kept.from;
    if length == 0 || length > 3 {
        assert(word.len() == length);
        return None;
    }
    let first: u8 = bytes[kept.from];
    assert(word[0] == first);
    if length == 1 {
        if first == 0x79 || first == 0x59 {
            assert(word =~= seq![first]);
            return Some(true);
        }
        if first == 0x6e || first == 0x4e {
            assert(word =~= seq![first]);
            return Some(false);
        }
        assert(word.len() == 1);
        return None;
    }
    let second: u8 = bytes[kept.from + 1];
    assert(word[1] == second);
    if length == 2 {
        if (first == 0x6e || first == 0x4e) && second == 0x6f {
            assert(word =~= seq![first, second]);
            return Some(false);
        }
        assert(word.len() == 2);
        return None;
    }
    let third: u8 = bytes[kept.from + 2];
    assert(word[2] == third);
    if (first == 0x79 || first == 0x59) && second == 0x65 && third == 0x73 {
        assert(word =~= seq![first, second, third]);
        return Some(true);
    }
    assert(word.len() == 3);
    None
}

} // verus!
