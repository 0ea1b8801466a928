//! Whole numbers in decimal: reading them from bytes and writing them out.
//!
//! A number is read as the standard library reads one from a string: an
//! optional sign, then one digit or more and nothing else; a number that
//! does not fit its type is not read.
use vstd::prelude::*;

verus! {

/// The byte is one of the ten digits.
pub open spec fn is_digit(byte: u8) -> bool {
    0x30 <= byte <= 0x39
}

/// Every byte of the text is a digit.
pub open spec fn all_digits(text: Seq<u8>) -> bool {
    forall|i: int| 0 <= i < text.len() ==> is_digit(#[trigger] text[i])
}

/// The number that a run of digits writes.
pub open spec fn value(text: Seq<u8>) -> int
    decreases text.len(),
{
    if text.len() == 0 {
        0
    } else {
        value(text.drop_last()) * 10 + (text.last() - 0x30)
    }
}

/// The number that a text writes without a sign, if it writes one that is
/// at most `limit`.
pub open spec fn digits(text: Seq<u8>, limit: int) -> Option<int> {
    if text.len() > 0 && all_digits(text) && value(text) <= limit {
        Some(value(text))
    } else {
        None
    }
}

/// The text without a leading plus sign.
pub open spec fn unsigned_part(text: Seq<u8>) -> Seq<u8> {
    if text.len() > 0 && text[0] == 0x2b {
        text.drop_first()
    } else {
        text
    }
}

/// What the text reads as a 32-bit number without sign: a plus sign may
/// lead; a minus sign may not.
pub open spec fn unsigned(text: Seq<u8>) -> Option<u32> {
    match digits(unsigned_part(text), u32::MAX as int) {
        Some(number) => Some(number as u32),
        None => None,
    }
}

/// What the text reads as a 32-bit number with sign: a plus or a minus sign
/// may lead.
pub open spec fn signed(text: Seq<u8>) -> Option<i32> {
    if text.len() > 0 && text[0] == 0x2d {
        match digits(text.drop_first(), -(i32::MIN as int)) {
            Some(number) => Some((-number) as i32),
            None => None,
        }
    } else {
        match digits(unsigned_part(text), i32::MAX as int) {
            Some(number) => Some(number as i32),
            None => None,
        }
    }
}

/// A run of digits writes no less than any of its beginnings.
pub proof fn lemma_value_grows(text: Seq<u8>, n: int)
    requires
        all_digits(text),
        0 <= n <= text.len(),
    ensures
        0 <= value(text.take(n)) <= value(text),
    decreases text.len() - n,
{
    if n == text.len() {
        assert(text.take(n) =~= text);
        lemma_value_positive(text);
    } else {
        lemma_value_grows(text, n + 1);
        assert(text.take(n + 1).drop_last() =~= text.take(n));
        assert(is_digit(text[n]));
        lemma_value_positive(text.take(n));
    }
}

/// A run of digits writes no negative number.
proof fn lemma_value_positive(text: Seq<u8>)
    requires
        all_digits(text),
    ensures
        0 <= value(text),
    decreases text.len(),
{
    if text.len() > 0 {
        assert(is_digit(text[text.len() - 1]));
        lemma_value_positive(text.drop_last());
    }
}

/// Reads a number without sign that is at most `limit`.
pub fn read_digits(text: &[u8], limit: u64) -> (number: Option<u64>)
    ensures
        match number {
            Some(number) => digits(text@, limit as int) == Some(number as int),
            None => digits(text@, limit as int) is None,
        },
{
    if text.len() == 0 {
        return None;
    }
    let mut number: u64 = 0;
    let mut i: usize = 0;
    assert(text@.take(0) =~= Seq::empty());
    while i < text.len()
        invariant
            0 <= i <= text.len(),
            all_digits(text@.take(i as int)),
            number == value(text@.take(i as int)),
            number <= limit,
        decreases text.len() - i,
    {
        let byte: u8 = text[i];
        assert(text@.take(i + 1).drop_last() =~= text@.take(i as int));
        if byte < 0x30 || byte > 0x39 {
            assert(!is_digit(text@[i as int]));
            return None;
        }
        let next: u128 = number as u128 * 10 + (byte - 0x30) as u128;
        if next > limit as u128 {
            proof {
                if all_digits(text@) {
                    lemma_value_grows(text@, i + 1);
                }
            }
            return None;
        }
        number = next as u64;
        assert forall|j: int| 0 <= j < i + 1 implies is_digit(#[trigger] text@.take(i + 1)[j]) by {
            if j < i {
                assert(is_digit(text@.take(i as int)[j]));
            }
        }
        i += 1;
    }
    assert(text@.take(i as int) =~= text@);
    Some(number)
}

/// Reads a 32-bit number without sign.
pub fn read_unsigned(text: &[u8]) -> (number: Option<u32>)
    ensures
        number == unsigned(text@),
{
    let from: usize = if text.len() > 0 && text[0] == 0x2b {
        1
    } else {
        0
    };
    let part = &text[from..text.len()];
    assert(part@ =~= unsigned_part(text@));
    match read_digits(part, 0xffff_ffff) {
        Some(number) => Some(number as u32),
        None => None,
    }
}

/// Reads a 32-bit number with sign.
pub fn read_signed(text: &[u8]) -> (number: Option<i32>)
    ensures
        number == signed(text@),
{
    if text.len() > 0 && text[0] == 0x2d {
        let part = &text[1..text.len()];
        assert(part@ =~= text@.drop_first());
        match read_digits(part, 0x8000_0000) {
            Some(number) => Some((-(number as i64)) as i32),
            None => None,
        }
    } else {
        let from: usize = if text.len() > 0 && text[0] == 0x2b {
            1
        } else {
            0
        };
        let part = &text[from..text.len()];
        assert(part@ =~= unsigned_part(text@));
        match read_digits(part, 0x7fff_ffff) {
            Some(number) => Some(number as i32),
            None => None,
        }
    }
}

/// The character of a digit.
pub open spec fn digit_char(digit: int) -> char {
    if digit == 0 {
        '0'
    } else if digit == 1 {
        '1'
    } else if digit == 2 {
        '2'
    } else if digit == 3 {
        '3'
    } else if digit == 4 {
        '4'
    } else if digit == 5 {
        '5'
    } else if digit == 6 {
        '6'
    } else if digit == 7 {
        '7'
    } else if digit == 8 {
        '8'
    } else {
        '9'
    }
}

/// A number written in decimal, without sign or leading zeros.
pub open spec fn decimal(number: nat) -> Seq<char>
    decreases number,
{
    if number < 10 {
        seq![digit_char(number as int)]
    } else {
        decimal(number / 10).push(digit_char((number % 10) as int))
    }
}

/// The text of a digit.
fn digit_text(digit: u64) -> (text: &'static str)
    requires
        digit < 10,
    ensures
        text@ == seq![digit_char(digit as int)],
{
    proof {
        reveal_strlit("0");
        reveal_strlit("1");
        reveal_strlit("2");
        reveal_strlit("3");
        reveal_strlit("4");
        reveal_strlit("5");
        reveal_strlit("6");
        reveal_strlit("7");
        reveal_strlit("8");
        reveal_strlit("9");
    }
    let text = if digit == 0 {
        "0"
    } else if digit == 1 {
        "1"
    } else if digit == 2 {
        "2"
    } else if digit == 3 {
        "3"
    } else if digit == 4 {
        "4"
    } else if digit == 5 {
        "5"
    } else if digit == 6 {
        "6"
    } else if digit == 7 {
        "7"
    } else if digit == 8 {
        "8"
    } else {
        "9"
    };
    assert(text@ =~= seq![digit_char(digit as int)]);
    text
}

/// Writes a number in decimal.
pub fn write_decimal(number: u64) -> (text: String)
    ensures
        text@ == decimal(number as nat),
    decreases number,
{
    if number < 10 {
        digit_text(number).to_owned()
    } else {
        let mut text = write_decimal(number / 10);
        text.append(digit_text(number % 10));
        text
    }
}

} // verus!
