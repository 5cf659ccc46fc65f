use two_khz::strings::{
    ascii_upper, contains, decimal, decimal_signed, is_white, joined, parse_i64, parse_usize,
    pieces, same, starts_with, trim, trim_end_char, trim_start, two_digits, words,
};

#[test]
fn blanks_are_what_unicode_says() {
    for code in 0..=0x10ffff_u32 {
        if let Some(c) = char::from_u32(code) {
            assert_eq!(is_white(c), c.is_whitespace(), "{code:#x}");
        }
    }
}

#[test]
fn trimming_agrees_with_the_standard_library() {
    for text in ["", "  ", " a b ", "\u{3000}x\n", "plain", "\tq"] {
        assert_eq!(trim(text), text.trim());
        assert_eq!(trim_start(text), text.trim_start());
    }
    assert_eq!(trim_end_char("http://x///", '/'), "http://x");
    assert_eq!(trim_end_char("///", '/'), "");
}

#[test]
fn words_agree_with_the_standard_library() {
    for text in ["", " ", "a", " twin  xtal ", "a\u{2003}b\tc\n"] {
        let expected: Vec<&str> = text.split_whitespace().collect();
        assert_eq!(words(text), expected);
    }
}

#[test]
fn pieces_agree_with_the_standard_library() {
    for text in ["", ":", "a:b", "a::b:", "plain"] {
        let expected: Vec<&str> = text.split(':').collect();
        assert_eq!(pieces(text, ':'), expected);
    }
}

#[test]
fn numbers_read_as_the_standard_library_reads_them() {
    for text in
        ["", "0", "+7", "-7", "-0", "007", "9223372036854775807", "9223372036854775808",
         "-9223372036854775808", "-9223372036854775809", "18446744073709551615",
         "18446744073709551616", " 1", "1 ", "+", "-", "1x", "٣"]
    {
        assert_eq!(parse_i64(text), text.parse::<i64>().ok(), "{text:?}");
        assert_eq!(parse_usize(text), text.parse::<usize>().ok(), "{text:?}");
    }
}

#[test]
fn a_number_written_down_reads_back() {
    for n in [0, 1, -1, 10, i64::MAX, i64::MIN] {
        assert_eq!(decimal_signed(n), n.to_string());
        assert_eq!(parse_i64(&decimal_signed(n)), Some(n));
    }
    assert_eq!(decimal(0), "0");
    assert_eq!(decimal(u128::MAX), u128::MAX.to_string());
    assert_eq!(two_digits(7), "07");
    assert_eq!(two_digits(42), "42");
}

#[test]
fn searching_agrees_with_the_standard_library() {
    for (hay, needle) in [("", ""), ("abc", ""), ("abc", "bc"), ("abc", "bd"), ("é", "é"), ("a", "ab")]
    {
        assert_eq!(contains(hay, needle), hay.contains(needle));
        assert_eq!(starts_with(hay, needle), hay.starts_with(needle));
    }
    assert!(same("é", "é") && !same("a", "b"));
    assert_eq!(joined("a", "b"), "ab");
}

#[test]
fn only_ascii_letters_are_raised() {
    assert_eq!(ascii_upper("gbÄé1z"), "gbÄé1z".to_ascii_uppercase());
    assert_eq!(ascii_upper(&ascii_upper("abc")), ascii_upper("abc"));
}
