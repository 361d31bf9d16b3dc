use mini_ts::text::{
    chars_of, is_digit, is_ident_char, is_letter, is_numeral_char, is_whitespace, push_decimal,
    push_range, same_text,
};

fn every_char() -> impl Iterator<Item = char> {
    (0..=0x10FFFFu32).filter_map(char::from_u32)
}

#[test]
fn letters_are_the_ascii_letters() {
    for c in every_char() {
        assert_eq!(is_letter(c), c.is_ascii_alphabetic(), "{:?}", c);
    }
}

#[test]
fn digits_are_the_ascii_digits() {
    for c in every_char() {
        assert_eq!(is_digit(c), c.is_ascii_digit(), "{:?}", c);
    }
}

#[test]
fn identifier_characters_are_letters_digits_and_the_underscore() {
    for c in every_char() {
        assert_eq!(is_ident_char(c), c.is_ascii_alphanumeric() || c == '_', "{:?}", c);
    }
}

#[test]
fn numeral_characters_are_digits_and_the_point() {
    for c in every_char() {
        assert_eq!(is_numeral_char(c), c.is_ascii_digit() || c == '.', "{:?}", c);
    }
}

#[test]
fn whitespace_is_what_unicode_calls_white_space() {
    for c in every_char() {
        assert_eq!(is_whitespace(c), c.is_whitespace(), "{:?}", c);
    }
}

#[test]
fn the_characters_of_a_text_come_in_order() {
    assert_eq!(chars_of(""), Vec::<char>::new());
    assert_eq!(chars_of("a\u{e9}\u{1F600}z"), vec!['a', '\u{e9}', '\u{1F600}', 'z']);
}

#[test]
fn a_range_of_characters_is_appended() {
    let chars = chars_of("hello world");
    let mut out = String::from(">");
    push_range(&mut out, &chars, 6, 11);
    assert_eq!(out, ">world");
    push_range(&mut out, &chars, 3, 3);
    assert_eq!(out, ">world");
    push_range(&mut out, &chars, 0, 11);
    assert_eq!(out, ">worldhello world");
}

#[test]
fn naturals_are_written_in_decimal() {
    for n in [0usize, 1, 9, 10, 11, 99, 100, 101, 1234567890, usize::MAX] {
        let mut out = String::from("n=");
        push_decimal(&mut out, n);
        assert_eq!(out, format!("n={}", n));
    }
}

#[test]
fn texts_are_compared_by_their_characters() {
    assert!(same_text("", ""));
    assert!(same_text("number", "number"));
    assert!(!same_text("number", "numbers"));
    assert!(!same_text("number", "Number"));
}
