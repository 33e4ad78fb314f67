use sss::codec::{
    field_from_text, parse_byte, parse_secret, push_byte_text, push_field_text, ParseError,
};
use sss::gf256::Gf256;
use sss::hexcode::push_hex;
use sss::shamir::{CompactShamir, RandomShamir, Shamir};
use sss::share::{CompactShare, RandomShare, Share};

fn compact_text(x: u8, y: u8) -> String {
    <CompactShamir as Shamir<Gf256>>::to_text(&Share::new(x, Gf256(y)))
}

fn compact_parse(line: &str) -> Result<CompactShare<Gf256>, ParseError> {
    <CompactShamir as Shamir<Gf256>>::parse_text(line)
}

fn random_text(x: u8, y: u8) -> String {
    <RandomShamir as Shamir<Gf256>>::to_text(&Share::new(Gf256(x), Gf256(y)))
}

fn random_parse(line: &str) -> Result<RandomShare<Gf256>, ParseError> {
    <RandomShamir as Shamir<Gf256>>::parse_text(line)
}

fn refused(line: &str) -> ParseError {
    ParseError { line: line.to_string() }
}

#[test]
fn compact_share_as_text() {
    assert_eq!(compact_text(1, 0x2a), "1|2a");
    assert_eq!(compact_text(0, 0x00), "0|00");
    assert_eq!(compact_text(9, 0x0f), "9|0f");
    assert_eq!(compact_text(10, 0xf0), "10|f0");
    assert_eq!(compact_text(99, 0xab), "99|ab");
    assert_eq!(compact_text(100, 0xcd), "100|cd");
    assert_eq!(compact_text(255, 0xff), "255|ff");
}

#[test]
fn random_share_as_text() {
    assert_eq!(random_text(0x01, 0x2a), "01|2a");
    assert_eq!(random_text(0xab, 0x00), "ab|00");
    assert_eq!(random_text(0xff, 0xef), "ff|ef");
}

#[test]
fn compact_share_from_text() {
    assert_eq!(compact_parse("1|2a"), Ok(Share::new(1u8, Gf256(0x2a))));
    assert_eq!(compact_parse("255|ff"), Ok(Share::new(255u8, Gf256(0xff))));
    assert_eq!(compact_parse("0|00"), Ok(Share::new(0u8, Gf256(0x00))));
    assert_eq!(compact_parse("007|2A"), Ok(Share::new(7u8, Gf256(0x2a))));
    assert_eq!(compact_parse("0000000000000000000000255|aB"), Ok(Share::new(255u8, Gf256(0xab))));
}

#[test]
fn random_share_from_text() {
    assert_eq!(random_parse("01|2a"), Ok(Share::new(Gf256(0x01), Gf256(0x2a))));
    assert_eq!(random_parse("FF|eF"), Ok(Share::new(Gf256(0xff), Gf256(0xef))));
}

#[test]
fn every_compact_share_survives_the_text() {
    for x in 0..=255u8 {
        for y in [0x00u8, 0x09, 0x0a, 0x2a, 0x9f, 0xa0, 0xff] {
            let share = Share::new(x, Gf256(y));
            let text = <CompactShamir as Shamir<Gf256>>::to_text(&share);
            assert_eq!(compact_parse(&text), Ok(share));
        }
    }
}

#[test]
fn every_random_share_survives_the_text() {
    for x in 0..=255u8 {
        for y in 0..=255u8 {
            let share = Share::new(Gf256(x), Gf256(y));
            let text = <RandomShamir as Shamir<Gf256>>::to_text(&share);
            assert_eq!(random_parse(&text), Ok(share));
        }
    }
}

#[test]
fn split_shares_survive_the_text() {
    let shares = <CompactShamir as Shamir<Gf256>>::split(&Gf256(0x2a), 3, 5).unwrap();
    let lines: Vec<String> =
        shares.iter().map(|s| <CompactShamir as Shamir<Gf256>>::to_text(s)).collect();
    let back: Vec<CompactShare<Gf256>> = lines.iter().map(|l| compact_parse(l).unwrap()).collect();
    assert_eq!(back, shares);
    assert_eq!(<CompactShamir as Shamir<Gf256>>::reconstruct(&back, 3), Ok(Gf256(0x2a)));
}

#[test]
fn compact_lines_that_are_refused() {
    for line in [
        "", "|", "1", "1|", "|2a", "12a", "1|2", "1|2a3", "1|2a3b", "1|2g", "1||2a", "1|2a|",
        "1|2a|3b", "256|2a", "1000|2a", "-1|2a", "+1|2a", "1a|2a", " 1|2a", "1|2a ", "1 |2a",
        "1| 2a", "1|2a\n", "1|0x2a", "\u{661}|2a", "1|\u{ff12}a", "1\u{7c}\u{7c}2a", "1|2a\u{e9}",
    ] {
        assert_eq!(compact_parse(line), Err(refused(line)));
    }
}

#[test]
fn random_lines_that_are_refused() {
    for line in [
        "", "|", "01", "01|", "|2a", "1|2a", "01|2", "001|2a", "0g|2a", "01||2a", "01|2a|",
        " 01|2a", "01|2a\n", "0102|2a", "01|2a2b", "\u{e9}1|2a",
    ] {
        assert_eq!(random_parse(line), Err(refused(line)));
    }
}

#[test]
fn decimal_tokens() {
    assert_eq!(parse_byte("0"), Some(0));
    assert_eq!(parse_byte("7"), Some(7));
    assert_eq!(parse_byte("42"), Some(42));
    assert_eq!(parse_byte("255"), Some(255));
    assert_eq!(parse_byte("0255"), Some(255));
    assert_eq!(parse_byte("256"), None);
    assert_eq!(parse_byte("260"), None);
    assert_eq!(parse_byte("999"), None);
    assert_eq!(parse_byte("65536"), None);
    assert_eq!(parse_byte("99999999999999999999999999"), None);
    assert_eq!(parse_byte(""), None);
    assert_eq!(parse_byte("1x"), None);
    assert_eq!(parse_byte("x1"), None);
    assert_eq!(parse_byte("2560x"), None);
    assert_eq!(parse_byte("\u{661}"), None);
    assert_eq!(parse_byte("1\u{e9}"), None);
}

#[test]
fn decimal_text_of_bytes() {
    for x in 0..=255u8 {
        let mut text = String::from(">");
        push_byte_text(&mut text, x);
        assert_eq!(text, format!(">{}", x));
        assert_eq!(parse_byte(&text[1..]), Some(x));
    }
}

#[test]
fn hexadecimal_text_of_bytes() {
    let mut text = String::from("x");
    push_hex(&mut text, &vec![0x00, 0x01, 0x9a, 0xbc, 0xdf, 0xff]);
    assert_eq!(text, "x00019abcdfff");
    let mut empty = String::new();
    push_hex(&mut empty, &vec![]);
    assert_eq!(empty, "");
}

#[test]
fn element_text() {
    let mut text = String::new();
    push_field_text(&mut text, &Gf256(0x0a));
    assert_eq!(text, "0a");
    assert_eq!(field_from_text::<Gf256>("0a"), Some(Gf256(0x0a)));
    assert_eq!(field_from_text::<Gf256>("0A"), Some(Gf256(0x0a)));
    assert_eq!(field_from_text::<Gf256>("c7"), Some(Gf256(0xc7)));
    assert_eq!(field_from_text::<Gf256>("a"), None);
    assert_eq!(field_from_text::<Gf256>(""), None);
    assert_eq!(field_from_text::<Gf256>("0a0b"), None);
    assert_eq!(field_from_text::<Gf256>("zz"), None);
    assert_eq!(field_from_text::<Gf256>("\u{e9}"), None);
}

#[test]
fn secret_from_text() {
    assert_eq!(parse_secret::<Gf256>("2a"), Ok(Gf256(0x2a)));
    assert_eq!(parse_secret::<Gf256>("2a\n"), Ok(Gf256(0x2a)));
    assert_eq!(parse_secret::<Gf256>("2A\n"), Ok(Gf256(0x2a)));
    assert_eq!(parse_secret::<Gf256>("00"), Ok(Gf256(0x00)));
    assert_eq!(parse_secret::<Gf256>("fF"), Ok(Gf256(0xff)));
}

#[test]
fn secret_texts_that_are_refused() {
    for contents in [
        "", "\n", "2", "2\n", "2a\n\n", "\n2a", "2a\r\n", "2a ", " 2a", "2a2b", "2a2b\n", "0x2a",
        "2g", "2a\u{e9}", "\u{e9}", "2\na",
    ] {
        assert_eq!(parse_secret::<Gf256>(contents), Err(refused(contents)));
    }
}
