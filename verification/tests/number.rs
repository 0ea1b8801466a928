use fxtickconv::number::{read_digits, read_signed, read_unsigned, write_decimal};

#[test]
fn unsigned_numbers_as_the_standard_library_reads_them() {
    let texts = [
        "0", "7", "007", "+7", "-7", "+", "-", "", " 7", "7 ", "7_0", "4294967295", "4294967296", "+4294967295",
        "00000000004294967295", "99999999999999999999999999", "1e3", "١", "+-1", "++1", "-0", "+0",
    ];
    for text in texts {
        assert_eq!(read_unsigned(text.as_bytes()), text.parse::<u32>().ok(), "{}", text);
    }
}

#[test]
fn signed_numbers_as_the_standard_library_reads_them() {
    let texts = [
        "0", "7", "-7", "+7", "-", "+", "", "2147483647", "2147483648", "-2147483648", "-2147483649", "-0", "--1",
        "+-1", "-+1", "0x10", "12a", "-0000000000000000000000123", "99999999999999999999999999",
    ];
    for text in texts {
        assert_eq!(read_signed(text.as_bytes()), text.parse::<i32>().ok(), "{}", text);
    }
}

#[test]
fn digits_up_to_a_limit() {
    assert_eq!(read_digits(b"100", 100), Some(100));
    assert_eq!(read_digits(b"101", 100), None);
    assert_eq!(read_digits(b"18446744073709551615", u64::MAX), Some(u64::MAX));
    assert_eq!(read_digits(b"18446744073709551616", u64::MAX), None);
    assert_eq!(read_digits(b"", 100), None);
    assert_eq!(read_digits(b"+1", 100), None);
}

#[test]
fn numbers_written_in_decimal() {
    for number in [0u64, 1, 9, 10, 11, 99, 100, 632, 1_000_000, u64::MAX] {
        assert_eq!(write_decimal(number), format!("{}", number));
    }
}
