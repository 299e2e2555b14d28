use tagcache::search::has_prefix;
use tagcache::text::{
    chars_of, find_char, parse_number, parse_u64, push_decimal, split_ranges, trimmed_len,
    NumberError,
};

fn text(chars: &[char], range: (usize, usize)) -> String {
    chars[range.0..range.1].iter().collect()
}

#[test]
fn characters_are_read_one_by_one() {
    assert_eq!(chars_of(""), Vec::<char>::new());
    assert_eq!(chars_of("aé✓"), vec!['a', 'é', '✓']);
}

#[test]
fn line_ends_are_trimmed() {
    assert_eq!(trimmed_len(&chars_of("abc\r\n")), 3);
    assert_eq!(trimmed_len(&chars_of("abc\n\n\r")), 3);
    assert_eq!(trimmed_len(&chars_of("a\nb")), 3);
    assert_eq!(trimmed_len(&chars_of("abc ")), 4);
    assert_eq!(trimmed_len(&chars_of("\n")), 0);
    assert_eq!(trimmed_len(&chars_of("")), 0);
}

#[test]
fn first_occurrence_is_found() {
    let chars = chars_of("a,b,,c");
    assert_eq!(find_char(&chars, ',', 0, 6), 1);
    assert_eq!(find_char(&chars, ',', 1, 6), 1);
    assert_eq!(find_char(&chars, ',', 2, 6), 3);
    assert_eq!(find_char(&chars, ',', 5, 6), 6);
    assert_eq!(find_char(&chars, ',', 2, 3), 3);
    assert_eq!(find_char(&chars, 'x', 0, 6), 6);
    assert_eq!(find_char(&chars, ',', 6, 6), 6);
}

#[test]
fn text_is_split_at_separators() {
    let chars = chars_of("a,b,,c,");
    let all: Vec<String> =
        split_ranges(&chars, 0, chars.len(), ',', None).iter().map(|r| text(&chars, *r)).collect();
    assert_eq!(all, vec!["a", "b", "", "c", ""]);
    let three: Vec<String> = split_ranges(&chars, 0, chars.len(), ',', Some(3))
        .iter()
        .map(|r| text(&chars, *r))
        .collect();
    assert_eq!(three, vec!["a", "b", ",c,"]);
    let one: Vec<String> = split_ranges(&chars, 0, chars.len(), ',', Some(1))
        .iter()
        .map(|r| text(&chars, *r))
        .collect();
    assert_eq!(one, vec!["a,b,,c,"]);
    let zero: Vec<String> = split_ranges(&chars, 0, chars.len(), ',', Some(0))
        .iter()
        .map(|r| text(&chars, *r))
        .collect();
    assert_eq!(zero, vec!["a,b,,c,"]);
    let part: Vec<String> =
        split_ranges(&chars, 2, 5, ',', None).iter().map(|r| text(&chars, *r)).collect();
    assert_eq!(part, vec!["b", "", ""]);
    let empty = chars_of("");
    assert_eq!(split_ranges(&empty, 0, 0, ',', None), vec![(0, 0)]);
}

#[test]
fn numbers_are_written_in_decimal() {
    for n in [0u64, 7, 10, 99, 100, 1234567890, u64::MAX] {
        let mut out = String::from("n=");
        push_decimal(&mut out, n);
        assert_eq!(out, format!("n={}", n));
    }
}

#[test]
fn numbers_are_read_as_the_standard_library_reads_them() {
    let cases = [
        "", "0", "00", "+0", "+", "-", "-0", "1", "42", "0042", "+42", "++42", "4 2", " 42", "42 ",
        "4_2", "4.2", "0x10", "255", "256", "65535", "65536", "18446744073709551615",
        "18446744073709551616", "99999999999999999999999", "٤٢", "12a", "a12", "1e3",
        "184467440737095516150", "18446744073709551615a", "18446744073709551616a",
    ];
    for case in cases {
        let chars = chars_of(case);
        let got = parse_number(&chars, 0, chars.len(), u64::MAX).ok();
        assert_eq!(got, case.parse::<u64>().ok(), "{:?} as u64", case);
        assert_eq!(parse_u64(&chars, 0, chars.len()), case.parse::<u64>().ok(), "{:?}", case);
        let got = parse_number(&chars, 0, chars.len(), 255).ok();
        assert_eq!(got, case.parse::<u8>().ok().map(u64::from), "{:?} as u8", case);
        let got = parse_number(&chars, 0, chars.len(), u16::MAX as u64).ok();
        assert_eq!(got, case.parse::<u16>().ok().map(u64::from), "{:?} as u16", case);
    }
}

#[test]
fn number_errors_tell_what_went_wrong_first() {
    let read = |s: &str, max: u64| {
        let chars = chars_of(s);
        parse_number(&chars, 0, chars.len(), max)
    };
    assert_eq!(read("", 10), Err(NumberError::Empty));
    assert_eq!(read("+", 10), Err(NumberError::InvalidDigit));
    assert_eq!(read("x", 10), Err(NumberError::InvalidDigit));
    assert_eq!(read("11", 10), Err(NumberError::TooLarge));
    assert_eq!(read("10", 10), Ok(10));
    assert_eq!(read("11x", 10), Err(NumberError::TooLarge));
    assert_eq!(read("1x1", 10), Err(NumberError::InvalidDigit));
    assert_eq!(read("0", 0), Ok(0));
    assert_eq!(read("1", 0), Err(NumberError::TooLarge));
    let chars = chars_of("ab123cd");
    assert_eq!(parse_number(&chars, 2, 5, 1000), Ok(123));
    assert_eq!(parse_number(&chars, 2, 6, 1000), Err(NumberError::InvalidDigit));
    assert_eq!(parse_number(&chars, 3, 3, 1000), Err(NumberError::Empty));
}

#[test]
fn prefixes_are_compared_by_character() {
    assert!(has_prefix("hello", &chars_of("")));
    assert!(has_prefix("hello", &chars_of("he")));
    assert!(has_prefix("hello", &chars_of("hello")));
    assert!(!has_prefix("hello", &chars_of("hello!")));
    assert!(!has_prefix("hello", &chars_of("He")));
    assert!(!has_prefix("", &chars_of("a")));
    assert!(has_prefix("", &chars_of("")));
    assert!(has_prefix("ключ:1", &chars_of("ключ")));
    assert!(!has_prefix("ключ:1", &chars_of("клюя")));
}
