use appender::text::{
    chars_of, decimal_string, is_whitespace, pad_center, pad_decimal, read_digits, read_i32,
    read_u64, trimmed,
};

#[test]
fn chars_are_the_characters() {
    assert_eq!(chars_of("a标b"), vec!['a', '标', 'b']);
    assert_eq!(chars_of(""), Vec::<char>::new());
}

#[test]
fn whitespace_is_unicode_white_space() {
    for code in 0u32..=0x10ffff {
        if let Some(c) = char::from_u32(code) {
            assert_eq!(is_whitespace(c), c.is_whitespace(), "U+{:04X}", code);
        }
    }
}

#[test]
fn trimming_is_what_std_does() {
    let cases = [
        "", " ", "   ", "a", " a", "a ", "  a b  ", "\t\n a \r\n", "\u{3000}x\u{a0}", "x\u{2003}y",
        " 标 识 ", "\u{85}\u{1680}",
    ];
    for case in cases.iter() {
        assert_eq!(trimmed(case), case.trim(), "{:?}", case);
    }
    assert_eq!(trimmed("  a b  "), "a b");
}

#[test]
fn centering_is_what_format_does() {
    for width in 0usize..12 {
        for text in ["", "a", "ab", "abc", "abcd", "é", "标识", "a标"] {
            let chars = if text.len() <= width { width - text.len() + text.chars().count() } else { 0 };
            assert_eq!(
                pad_center(text, width),
                format!("{:^w$}", text, w = chars),
                "{:?} in {}",
                text,
                width
            );
        }
    }
    assert_eq!(pad_center("ab", 5), " ab  ");
    assert_eq!(pad_center("ab", 6), "  ab  ");
    assert_eq!(pad_center("abcdef", 3), "abcdef");
}

#[test]
fn decimals_are_written_in_base_ten() {
    for n in [0u64, 1, 9, 10, 11, 99, 100, 12345, 39278156, u64::MAX] {
        assert_eq!(decimal_string(n), n.to_string());
        assert_eq!(pad_decimal(n, 13), format!("{:0>13}", n));
        assert_eq!(pad_decimal(n, 0), n.to_string());
    }
    assert_eq!(pad_decimal(42, 5), "00042");
    assert_eq!(pad_decimal(123456, 5), "123456");
}

#[test]
fn unsigned_numbers_are_read_as_std_reads_them() {
    let cases = [
        "", "0", "7", "+7", "-7", "+", "-", "007", "0000039278156", "12a", " 12", "12 ", "1.5",
        "18446744073709551615", "18446744073709551616", "99999999999999999999999", "++1", "１２",
    ];
    for case in cases.iter() {
        assert_eq!(read_u64(case), case.parse::<u64>().ok(), "{:?}", case);
    }
    assert_eq!(read_u64("0000039278156"), Some(39278156));
    assert_eq!(read_u64("18446744073709551616"), None);
}

#[test]
fn signed_numbers_are_read_as_std_reads_them() {
    let cases = [
        "", "0", "-0", "+0", "1", "-1", "+1", "2147483647", "2147483648", "-2147483648",
        "-2147483649", "00012", "-", "+", "1-", "--1", "+-1", "a", "1a", "99999999999999999999999",
        "-99999999999999999999999",
    ];
    for case in cases.iter() {
        let chars: Vec<char> = case.chars().collect();
        assert_eq!(read_i32(&chars), case.parse::<i32>().ok(), "{:?}", case);
    }
    assert_eq!(read_i32(&vec!['-', '4', '2']), Some(-42));
}

#[test]
fn digits_are_read_from_an_offset() {
    let chars: Vec<char> = "ab123".chars().collect();
    assert_eq!(read_digits(&chars, 2), Some(123));
    assert_eq!(read_digits(&chars, 1), None);
    assert_eq!(read_digits(&chars, 5), None);
}
