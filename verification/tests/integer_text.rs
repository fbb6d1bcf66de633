use form_widgets::integer::parse_digits;
use form_widgets::integer::parse_signed;
use form_widgets::integer::parse_unsigned;
use form_widgets::integer::signed_chars;
use form_widgets::integer::unsigned_chars;
use form_widgets::number::Number;
use form_widgets::text::chars_of;
use form_widgets::text::keep_last;
use form_widgets::text::pad_left;
use form_widgets::text::text_of;

fn chars(text: &str) -> Vec<char> {
    text.chars().collect()
}

const SAMPLES: [&str; 40] = [
    "", "0", "7", "42", "007", "+5", "-5", "+", "-", "+-5", "-+5", "--5", "5-", "1.5", " 5", "5 ",
    "1_000", "127", "128", "-128", "-129", "255", "256", "-0", "+0", "00", "2147483647",
    "2147483648", "-2147483648", "-2147483649", "4294967295", "4294967296",
    "170141183460469231731687303715884105727", "170141183460469231731687303715884105728",
    "-170141183460469231731687303715884105728", "-170141183460469231731687303715884105729",
    "340282366920938463463374607431768211455", "340282366920938463463374607431768211456",
    "0000000000000000000000000000000000000000000000000012", "a1",
];

#[test]
fn chars_and_text_convert_both_ways() {
    assert_eq!(chars_of("a-é1"), vec!['a', '-', 'é', '1']);
    assert_eq!(text_of(&vec!['1', '.', '5']), "1.5");
    assert_eq!(text_of(&chars_of("")), "");
}

#[test]
fn pad_left_fills_with_zeros() {
    assert_eq!(pad_left(&chars("7"), 4), chars("0007"));
    assert_eq!(pad_left(&chars("-5"), 4), chars("00-5"));
    assert_eq!(pad_left(&chars("12345"), 4), chars("12345"));
    assert_eq!(pad_left(&chars(""), 2), chars("00"));
}

#[test]
fn keep_last_cuts_from_the_left() {
    assert_eq!(keep_last(&chars("12345"), 4), chars("2345"));
    assert_eq!(keep_last(&chars("12"), 4), chars("12"));
    assert_eq!(keep_last(&chars("12"), 0), chars(""));
}

#[test]
fn parse_digits_reads_from_an_index() {
    assert_eq!(parse_digits(&chars("x12"), 1), Some(12));
    assert_eq!(parse_digits(&chars("x12"), 3), None);
    assert_eq!(parse_digits(&chars("x12"), 0), None);
    assert_eq!(
        parse_digits(&chars("340282366920938463463374607431768211455"), 0),
        Some(u128::MAX)
    );
    assert_eq!(parse_digits(&chars("340282366920938463463374607431768211456"), 0), None);
}

#[test]
fn parse_signed_agrees_with_std() {
    for s in SAMPLES {
        assert_eq!(parse_signed(&chars(s), i128::MIN, i128::MAX), s.parse::<i128>().ok(), "{s}");
        assert_eq!(
            parse_signed(&chars(s), i8::MIN as i128, i8::MAX as i128),
            s.parse::<i8>().ok().map(|v| v as i128),
            "{s}"
        );
    }
}

#[test]
fn parse_unsigned_agrees_with_std() {
    for s in SAMPLES {
        assert_eq!(parse_unsigned(&chars(s), u128::MAX), s.parse::<u128>().ok(), "{s}");
        assert_eq!(
            parse_unsigned(&chars(s), u8::MAX as u128),
            s.parse::<u8>().ok().map(|v| v as u128),
            "{s}"
        );
    }
}

#[test]
fn every_kind_reads_as_std_does() {
    for s in SAMPLES {
        assert_eq!(i8::parse_text(s), s.parse::<i8>().ok(), "{s}");
        assert_eq!(i16::parse_text(s), s.parse::<i16>().ok(), "{s}");
        assert_eq!(i32::parse_text(s), s.parse::<i32>().ok(), "{s}");
        assert_eq!(i64::parse_text(s), s.parse::<i64>().ok(), "{s}");
        assert_eq!(i128::parse_text(s), s.parse::<i128>().ok(), "{s}");
        assert_eq!(isize::parse_text(s), s.parse::<isize>().ok(), "{s}");
        assert_eq!(u8::parse_text(s), s.parse::<u8>().ok(), "{s}");
        assert_eq!(u16::parse_text(s), s.parse::<u16>().ok(), "{s}");
        assert_eq!(u32::parse_text(s), s.parse::<u32>().ok(), "{s}");
        assert_eq!(u64::parse_text(s), s.parse::<u64>().ok(), "{s}");
        assert_eq!(u128::parse_text(s), s.parse::<u128>().ok(), "{s}");
        assert_eq!(usize::parse_text(s), s.parse::<usize>().ok(), "{s}");
    }
}

#[test]
fn every_kind_writes_as_std_does() {
    for v in [i8::MIN, -1, 0, 1, 9, 10, 99, 100, i8::MAX] {
        assert_eq!(v.to_text(), v.to_string());
    }
    for v in [i16::MIN, -100, 0, 12345, i16::MAX] {
        assert_eq!(v.to_text(), v.to_string());
    }
    for v in [i32::MIN, -1000, 0, 2025, i32::MAX] {
        assert_eq!(v.to_text(), v.to_string());
    }
    for v in [i64::MIN, 0, i64::MAX] {
        assert_eq!(v.to_text(), v.to_string());
    }
    for v in [i128::MIN, -1, 0, i128::MAX] {
        assert_eq!(v.to_text(), v.to_string());
        assert_eq!(text_of(&signed_chars(v)), v.to_string());
    }
    for v in [isize::MIN, 0, isize::MAX] {
        assert_eq!(v.to_text(), v.to_string());
    }
    for v in [0, 1, 200, u8::MAX] {
        assert_eq!(v.to_text(), v.to_string());
    }
    for v in [0, u16::MAX] {
        assert_eq!(v.to_text(), v.to_string());
    }
    for v in [0, u32::MAX] {
        assert_eq!(v.to_text(), v.to_string());
    }
    for v in [0, u64::MAX] {
        assert_eq!(v.to_text(), v.to_string());
    }
    for v in [0, 10, u128::MAX] {
        assert_eq!(v.to_text(), v.to_string());
        assert_eq!(text_of(&unsigned_chars(v)), v.to_string());
    }
    for v in [0, usize::MAX] {
        assert_eq!(v.to_text(), v.to_string());
    }
}

#[test]
fn canonical_text_reads_back() {
    for v in [i32::MIN, -1, 0, 1, 99, i32::MAX] {
        assert_eq!(i32::parse_text(&v.to_text()), Some(v));
    }
    for v in [0, 1, u64::MAX] {
        assert_eq!(u64::parse_text(&v.to_text()), Some(v));
    }
}

#[test]
fn kinds_state_their_range() {
    assert_eq!(i8::number_min(), -128);
    assert_eq!(i8::number_max(), 127);
    assert_eq!(u16::number_min(), 0);
    assert_eq!(u16::number_max(), 65535);
    assert_eq!(i64::number_step(), 1);
    assert_eq!(u32::zero(), 0);
    assert!(!i32::decimal());
    assert!(3i32.less_than(4));
    assert!(!4i32.less_than(4));
    assert!(!5u8.less_than(4));
}
