use bvyfst_hollow_scene::text::{digit_str, push_decimal};
use bvyfst_hollow_scene::version::{
    digits_represents, parse, push_padded, Error, Version, CURRENT, DIGIT_COUNT,
};

#[test]
fn digits_stand_for_their_number() {
    assert!(digits_represents(1, b"00001"));
    assert!(digits_represents(1, b"1"));
    assert!(digits_represents(65535, b"65535"));
    assert!(digits_represents(120, b"0120"));
    assert!(digits_represents(0, b""));
    assert!(digits_represents(0, b"000"));
    assert!(!digits_represents(1, b""));
    assert!(!digits_represents(1, b"00002"));
    assert!(!digits_represents(12, b"2"));
    assert!(!digits_represents(1, b"0000a"));
    assert!(!digits_represents(1, b"a0001"));
    assert!(!digits_represents(1, b" 0001"));
    assert!(!digits_represents(5, b"0000/"));
    assert!(!digits_represents(5, b"0000:"));
}

#[test]
fn version_is_read_from_the_last_digits() {
    assert!(Version(1).digits_represents(b"scene_v00001"));
    assert!(Version(1).digits_represents(b"00001"));
    assert!(!Version(1).digits_represents(b"scene_v00002"));
    assert!(!Version(1).digits_represents(b"0001"));
    assert!(!Version(1).digits_represents(b"scene_v0001"));
    assert!(Version(40321).digits_represents(b"x40321"));
    assert_eq!(Version::current(), Version(CURRENT));
    assert_eq!(DIGIT_COUNT, 5);
}

#[test]
fn version_slice_is_parsed() {
    assert_eq!(Version::get_version_slice(b"scene_v00001").unwrap(), 1);
    assert_eq!(Version::get_version_slice(b"scene_v00312").unwrap(), 312);
    assert_eq!(Version::get_version_slice(b"65535").unwrap(), 65535);
    assert_eq!(Version::get_version_slice(b"12").unwrap(), 12);
    assert_eq!(Version::get_version_slice(b"x+1234").unwrap(), 1234);
}

#[test]
fn empty_name_is_too_short() {
    assert!(matches!(Version::get_version_slice(b""), Err(Error::TooShort(0))));
}

#[test]
fn bytes_that_are_no_text_are_reported() {
    assert!(matches!(Version::get_version_slice(b"scene_v00\xff01"), Err(Error::NotUtf8)));
    assert!(matches!(Version::get_version_slice(&[0xc3]), Err(Error::NotUtf8)));
    assert!(matches!(Version::get_version_slice(b"\xc3\xa9\xc3\xa9\xc3\xa9"), Err(Error::NotUtf8)));
}

#[test]
fn text_that_is_no_number_is_handed_back() {
    match Version::get_version_slice(b"scene_vabcde") {
        Err(Error::NotDigit(text)) => assert_eq!(text, "abcde"),
        _ => panic!("expected NotDigit"),
    }
    match Version::get_version_slice(b"scene_v99999") {
        Err(Error::NotDigit(text)) => assert_eq!(text, "99999"),
        _ => panic!("expected NotDigit"),
    }
    match Version::get_version_slice(b"scene_v65536") {
        Err(Error::NotDigit(text)) => assert_eq!(text, "65536"),
        _ => panic!("expected NotDigit"),
    }
    match Version::get_version_slice(b"ne_v1") {
        Err(Error::NotDigit(text)) => assert_eq!(text, "ne_v1"),
        _ => panic!("expected NotDigit"),
    }
    match Version::get_version_slice("a\u{e9}12".as_bytes()) {
        Err(Error::NotDigit(text)) => assert_eq!(text, "a\u{e9}12"),
        _ => panic!("expected NotDigit"),
    }
    match Version::get_version_slice(b"+") {
        Err(Error::NotDigit(text)) => assert_eq!(text, "+"),
        _ => panic!("expected NotDigit"),
    }
}

#[test]
fn parse_agrees_with_the_standard_parser() {
    let cases: [&str; 14] = [
        "", "+", "-", "0", "00000", "+0", "65535", "65536", "99999", "+9999", "-1", "1 ", " 1",
        "12a",
    ];
    for text in cases {
        assert_eq!(parse(text.as_bytes()), text.parse::<u16>().ok(), "{}", text);
    }
    assert_eq!(parse(b"007"), Some(7));
    assert_eq!(parse(b"+42"), Some(42));
    assert_eq!(parse(b"++42"), None);
}

#[test]
fn version_as_text() {
    assert_eq!(Version(1).to_text(), "v00001");
    assert_eq!(Version(65535).to_text(), "v65535");
    assert_eq!(Version(0).to_text(), "v00000");
    assert_eq!(Version(4090).to_text(), "v04090");
    let mut out = String::from("x");
    push_padded(&mut out, 305);
    assert_eq!(out, "x00305");
}

#[test]
fn decimal_text() {
    let mut out = String::new();
    push_decimal(&mut out, 0);
    push_decimal(&mut out, 7);
    push_decimal(&mut out, 10);
    push_decimal(&mut out, 65535);
    assert_eq!(out, "071065535");
    assert_eq!(digit_str(0), "0");
    assert_eq!(digit_str(9), "9");
}
