//! The text form of shares and secrets: the tokens, the line `x|y`, and the errors.

use crate::field::Field;
use crate::hexcode::{
    hex_decode, hex_decoded, hex_digit, hex_digit_text, hex_digit_value, hex_text, is_hex,
    lemma_hex_round_trip, push_hex,
};
use crate::share::{CompactShare, RandomShare, Share};
use vstd::prelude::*;
use vstd::string::{is_ascii, is_ascii_spec_bytes, StrSliceExecFns, StringExecFns};

verus! {

/// A line or a file's text that does not have the form asked for.
#[derive(Debug, PartialEq, Eq)]
pub struct ParseError {
    /// The text that was refused.
    pub line: String,
}

/// The character is a decimal digit.
pub open spec fn is_digit(c: char) -> bool {
    '0' <= c <= '9'
}

/// The value of a decimal digit; zero for any other character.
pub open spec fn digit_value(c: char) -> nat {
    if is_digit(c) {
        (c as u8 - '0' as u8) as nat
    } else {
        0
    }
}

/// The number that a sequence of decimal digits stands for.
pub open spec fn decimal_value(text: Seq<char>) -> nat
    decreases text.len(),
{
    if text.len() == 0 {
        0
    } else {
        10 * decimal_value(text.drop_last()) + digit_value(text.last())
    }
}

/// The byte that a decimal token stands for: the token is one or more decimal digits
/// with a value of at most 255. Leading zeros are accepted.
pub open spec fn parse_byte_spec(text: Seq<char>) -> Option<u8> {
    if text.len() > 0 && (forall|i: int| 0 <= i < text.len() ==> is_digit(#[trigger] text[i]))
        && decimal_value(text) <= 255 {
        Some(decimal_value(text) as u8)
    } else {
        None
    }
}

/// The decimal digit for a value below ten.
pub open spec fn decimal_digit(value: u8) -> char {
    ('0' as u8 + value) as char
}

/// The decimal text of a byte, without leading zeros.
pub open spec fn byte_text(x: u8) -> Seq<char> {
    if x < 10 {
        seq![decimal_digit(x)]
    } else if x < 100 {
        seq![decimal_digit(x / 10), decimal_digit(x % 10)]
    } else {
        seq![decimal_digit(x / 100), decimal_digit((x / 10) % 10), decimal_digit(x % 10)]
    }
}

/// The first separator `|` of the line stands at index `at`.
pub open spec fn separator_at(line: Seq<char>, at: int) -> bool {
    &&& 0 <= at < line.len()
    &&& line[at] == '|'
    &&& forall|j: int| 0 <= j < at ==> line[j] != '|'
}

/// The two tokens of a line: what stands before its first separator and what stands
/// after it. `None` if the line has no separator.
pub open spec fn split_spec(line: Seq<char>) -> Option<(Seq<char>, Seq<char>)> {
    if exists|at: int| separator_at(line, at) {
        let at = choose|at: int| separator_at(line, at);
        Some((line.take(at), line.skip(at + 1)))
    } else {
        None
    }
}

/// The bytes are the encoding of the element.
pub open spec fn encodes<F: Field>(bytes: Seq<u8>, a: F) -> bool {
    a.bytes_spec() == bytes
}

/// The element with the given encoding, if there is one.
pub open spec fn field_from_bytes_spec<F: Field>(bytes: Seq<u8>) -> Option<F> {
    if exists|a: F| encodes(bytes, a) {
        Some(choose|a: F| encodes(bytes, a))
    } else {
        None
    }
}

/// The text of an element: its encoding in lower-case hexadecimal digits.
pub open spec fn field_text<F: Field>(a: F) -> Seq<char> {
    hex_text(a.bytes_spec())
}

/// The element that a token stands for: the token is the hexadecimal text, in
/// either case, of an element's encoding.
pub open spec fn field_from_text_spec<F: Field>(text: Seq<char>) -> Option<F> {
    if is_hex(text) {
        field_from_bytes_spec(hex_decoded(text))
    } else {
        None
    }
}

/// The secret that a file's text stands for: the text is one or more hexadecimal
/// digits, with or without one line feed after them, and the digits are the text of
/// an element.
pub open spec fn secret_spec<F: Field>(contents: Seq<char>) -> Option<F> {
    let digits = if contents.len() > 0 && contents.last() == '\n' {
        contents.drop_last()
    } else {
        contents
    };
    if digits.len() > 0 {
        field_from_text_spec(digits)
    } else {
        None
    }
}

/// The text of a compact share: the x coordinate in decimal digits, a separator, and
/// the text of the y coordinate.
pub open spec fn compact_text<F: Field>(share: CompactShare<F>) -> Seq<char> {
    byte_text(share.x) + seq!['|'] + field_text(share.y)
}

/// The compact share that a line stands for: a decimal token for a byte, a
/// separator, and the text of an element.
pub open spec fn compact_parse_spec<F: Field>(line: Seq<char>) -> Option<CompactShare<F>> {
    match split_spec(line) {
        Some((x, y)) => match (parse_byte_spec(x), field_from_text_spec::<F>(y)) {
            (Some(x), Some(y)) => Some(Share { x, y }),
            _ => None,
        },
        None => None,
    }
}

/// The text of a randomized share: the texts of its two coordinates with a
/// separator between them.
pub open spec fn random_text<F: Field>(share: RandomShare<F>) -> Seq<char> {
    field_text(share.x) + seq!['|'] + field_text(share.y)
}

/// The randomized share that a line stands for: the text of an element, a
/// separator, and the text of an element.
pub open spec fn random_parse_spec<F: Field>(line: Seq<char>) -> Option<RandomShare<F>> {
    match split_spec(line) {
        Some((x, y)) => match (field_from_text_spec::<F>(x), field_from_text_spec::<F>(y)) {
            (Some(x), Some(y)) => Some(Share { x, y }),
            _ => None,
        },
        None => None,
    }
}

/// The value of a prefix of a decimal text is at most the value of the text.
proof fn lemma_decimal_prefix(text: Seq<char>, len: int)
    requires
        0 <= len <= text.len(),
    ensures
        decimal_value(text.take(len)) <= decimal_value(text),
    decreases text.len(),
{
    if len == text.len() {
        assert(text.take(len) =~= text);
    } else {
        lemma_decimal_prefix(text.drop_last(), len);
        assert(text.drop_last().take(len) =~= text.take(len));
    }
}

/// A decimal digit is a digit and has the value it was made for.
proof fn lemma_decimal_digit(value: u8)
    requires
        value < 10,
    ensures
        is_digit(decimal_digit(value)),
        digit_value(decimal_digit(value)) == value,
        decimal_digit(value) == hex_digit(value),
{
}

/// The value of a single digit.
proof fn lemma_decimal_one(text: Seq<char>)
    requires
        text.len() == 1,
    ensures
        decimal_value(text) == digit_value(text[0]),
{
    assert(text.drop_last() =~= Seq::<char>::empty());
    assert(decimal_value(text.drop_last()) == 0);
}

/// Reading the decimal text of a byte gives the byte back; the text is made of
/// digits only.
pub proof fn lemma_byte_round_trip(x: u8)
    ensures
        parse_byte_spec(byte_text(x)) == Some(x),
        forall|i: int| 0 <= i < byte_text(x).len() ==> is_digit(#[trigger] byte_text(x)[i]),
{
    let text = byte_text(x);
    lemma_decimal_digit(x % 10);
    if x < 10 {
        lemma_decimal_one(text);
    } else if x < 100 {
        lemma_decimal_digit(x / 10);
        let one = text.drop_last();
        assert(one =~= seq![decimal_digit(x / 10)]);
        lemma_decimal_one(one);
        assert(decimal_value(text) == 10 * decimal_value(one) + digit_value(text.last()));
    } else {
        lemma_decimal_digit(x / 100);
        lemma_decimal_digit((x / 10) % 10);
        let two = text.drop_last();
        let one = two.drop_last();
        assert(two =~= seq![decimal_digit(x / 100), decimal_digit((x / 10) % 10)]);
        assert(one =~= seq![decimal_digit(x / 100)]);
        lemma_decimal_one(one);
        assert(decimal_value(two) == 10 * decimal_value(one) + digit_value(two.last()));
        assert(decimal_value(text) == 10 * decimal_value(two) + digit_value(text.last()));
    }
}

/// Reading the text of an element gives the element back.
pub proof fn lemma_field_round_trip<F: Field>(a: F)
    ensures
        field_from_text_spec::<F>(field_text(a)) == Some(a),
{
    let bytes = a.bytes_spec();
    lemma_hex_round_trip(bytes);
    assert(hex_decoded(field_text(a)) == bytes);
    assert(encodes(bytes, a));
    let found = choose|b: F| encodes(bytes, b);
    F::lemma_bytes_injective(found, a);
}

/// A line can be split in one way only: where its first separator stands.
pub proof fn lemma_split_at(line: Seq<char>, at: int)
    requires
        separator_at(line, at),
    ensures
        split_spec(line) == Some((line.take(at), line.skip(at + 1))),
{
    let chosen = choose|at: int| separator_at(line, at);
    assert(chosen == at) by {
        if chosen < at {
            assert(line[chosen] != '|');
        }
        if at < chosen {
            assert(line[at] != '|');
        }
    }
}

/// A line whose two tokens are ASCII is ASCII.
pub proof fn lemma_tokens_ascii(line: Seq<char>)
    requires
        split_spec(line) is Some,
        forall|i: int|
            0 <= i < split_spec(line).unwrap().0.len() ==> '\0'
                <= #[trigger] split_spec(line).unwrap().0[i] <= '\u{7f}',
        forall|i: int|
            0 <= i < split_spec(line).unwrap().1.len() ==> '\0'
                <= #[trigger] split_spec(line).unwrap().1[i] <= '\u{7f}',
    ensures
        forall|i: int| 0 <= i < line.len() ==> '\0' <= #[trigger] line[i] <= '\u{7f}',
{
    let at = choose|at: int| separator_at(line, at);
    let x = split_spec(line).unwrap().0;
    let y = split_spec(line).unwrap().1;
    assert(x == line.take(at));
    assert(y == line.skip(at + 1));
    assert forall|i: int| 0 <= i < line.len() implies '\0' <= #[trigger] line[i] <= '\u{7f}' by {
        if i < at {
            assert(line[i] == x[i]);
            assert('\0' <= x[i] <= '\u{7f}');
        } else if i > at {
            assert(line[i] == y[i - at - 1]);
            assert('\0' <= y[i - at - 1] <= '\u{7f}');
        } else {
            assert(line[i] == '|');
        }
    }
}

/// Reading the text of a compact share gives the share back.
pub proof fn lemma_compact_text_round_trip<F: Field>(share: CompactShare<F>)
    ensures
        compact_parse_spec::<F>(compact_text(share)) == Some(share),
{
    let x = byte_text(share.x);
    let y = field_text(share.y);
    let line = compact_text(share);
    let at = x.len() as int;
    lemma_byte_round_trip(share.x);
    lemma_field_round_trip(share.y);
    assert forall|j: int| 0 <= j < at implies line[j] != '|' by {
        assert(line[j] == x[j]);
        assert(is_digit(x[j]));
    }
    assert(line[at] == '|');
    lemma_split_at(line, at);
    assert(line.take(at) =~= x);
    assert(line.skip(at + 1) =~= y);
}

/// Reading the text of a randomized share gives the share back.
pub proof fn lemma_random_text_round_trip<F: Field>(share: RandomShare<F>)
    ensures
        random_parse_spec::<F>(random_text(share)) == Some(share),
{
    let x = field_text(share.x);
    let y = field_text(share.y);
    let line = random_text(share);
    let at = x.len() as int;
    lemma_field_round_trip(share.x);
    lemma_field_round_trip(share.y);
    assert forall|j: int| 0 <= j < at implies line[j] != '|' by {
        assert(line[j] == x[j]);
        assert(hex_digit_value(x[j]) is Some);
    }
    assert(line[at] == '|');
    lemma_split_at(line, at);
    assert(line.take(at) =~= x);
    assert(line.skip(at + 1) =~= y);
}

/// Reads a decimal token.
pub fn parse_byte(token: &str) -> (r: Option<u8>)
    ensures
        r == parse_byte_spec(token@),
{
    broadcast use is_ascii_spec_bytes;

    if !token.is_ascii() {
        return None;
    }
    let bytes = token.as_bytes();
    if bytes.len() == 0 {
        return None;
    }
    let mut value: u16 = 0;
    let mut i: usize = 0;
    assert(token@.take(0) =~= Seq::<char>::empty());
    while i < bytes.len()
        invariant
            i <= bytes.len(),
            bytes@.len() == token@.len(),
            bytes@.len() > 0,
            is_ascii(token),
            forall|j: int| 0 <= j < bytes@.len() ==> bytes@[j] == token@[j] as u8,
            forall|j: int| 0 <= j < i ==> is_digit(#[trigger] token@[j]),
            value == decimal_value(token@.take(i as int)),
            value <= 255,
        decreases bytes.len() - i,
    {
        let b = bytes[i];
        assert(b == token@[i as int] as u8);
        assert('\0' <= token@[i as int] <= '\u{7f}');
        if b < 48 || b > 57 {
            assert(!is_digit(token@[i as int]));
            return None;
        }
        assert(is_digit(token@[i as int]));
        let next: u16 = value * 10 + (b - 48) as u16;
        proof {
            assert(token@.take(i + 1).drop_last() =~= token@.take(i as int));
            assert(token@.take(i + 1).last() == token@[i as int]);
            assert(next == decimal_value(token@.take(i + 1)));
        }
        if next > 255 {
            proof {
                lemma_decimal_prefix(token@, i + 1);
            }
            return None;
        }
        value = next;
        i += 1;
    }
    assert(token@.take(i as int) =~= token@);
    Some(value as u8)
}

/// Appends the decimal text of a byte.
pub fn push_byte_text(text: &mut String, x: u8)
    ensures
        final(text)@ == old(text)@ + byte_text(x),
{
    if x >= 100 {
        text.append(hex_digit_text(x / 100));
    }
    if x >= 10 {
        text.append(hex_digit_text((x / 10) % 10));
    }
    text.append(hex_digit_text(x % 10));
    proof {
        lemma_decimal_digit(x % 10);
        if x >= 10 {
            lemma_decimal_digit((x / 10) % 10);
        }
        if x >= 100 {
            lemma_decimal_digit(x / 100);
        }
        assert(text@ =~= old(text)@ + byte_text(x));
    }
}

/// Splits a line at its first separator.
pub(crate) fn split_line<'a>(line: &'a str) -> (r: Option<(&'a str, &'a str)>)
    requires
        is_ascii(line),
    ensures
        match r {
            Some((x, y)) => split_spec(line@) == Some((x@, y@)) && is_ascii(x) && is_ascii(y),
            None => split_spec(line@) is None,
        },
{
    broadcast use is_ascii_spec_bytes;

    let bytes = line.as_bytes();
    let mut i: usize = 0;
    while i < bytes.len()
        invariant
            i <= bytes.len(),
            bytes@.len() == line@.len(),
            is_ascii(line),
            forall|j: int| 0 <= j < bytes@.len() ==> bytes@[j] == line@[j] as u8,
            forall|j: int| 0 <= j < i ==> line@[j] != '|',
        decreases bytes.len() - i,
    {
        assert(bytes@[i as int] == line@[i as int] as u8);
        assert('\0' <= line@[i as int] <= '\u{7f}');
        if bytes[i] == 124 {
            assert(line@[i as int] == '|');
            proof {
                lemma_split_at(line@, i as int);
            }
            let x = line.substring_ascii(0, i);
            let y = line.substring_ascii(i + 1, bytes.len());
            assert(x@ =~= line@.take(i as int));
            assert(y@ =~= line@.skip(i + 1));
            return Some((x, y));
        }
        assert(line@[i as int] != '|');
        i += 1;
    }
    None
}

/// Reads the hexadecimal text of an element.
pub fn field_from_text<F: Field>(token: &str) -> (r: Option<F>)
    ensures
        r == field_from_text_spec::<F>(token@),
{
    match hex_decode(token) {
        Ok(bytes) => {
            let r = F::from_bytes(bytes.as_slice());
            proof {
                match r {
                    Some(a) => {
                        assert(encodes(bytes@, a));
                        let found = choose|b: F| encodes(bytes@, b);
                        F::lemma_bytes_injective(found, a);
                    },
                    None => {
                        assert forall|b: F| !encodes(bytes@, b) by {
                            assert(b.bytes_spec() != bytes@);
                        }
                    },
                }
            }
            r
        },
        Err(_) => None,
    }
}

/// Appends the hexadecimal text of an element.
pub fn push_field_text<F: Field>(text: &mut String, a: &F)
    ensures
        final(text)@ == old(text)@ + field_text(*a),
{
    let bytes = a.to_bytes();
    push_hex(text, &bytes);
}

/// Text with a character outside ASCII is not hexadecimal.
pub proof fn lemma_hex_is_ascii(text: Seq<char>)
    requires
        is_hex(text),
    ensures
        forall|i: int| 0 <= i < text.len() ==> '\0' <= #[trigger] text[i] <= '\u{7f}',
{
    assert forall|i: int| 0 <= i < text.len() implies '\0' <= #[trigger] text[i] <= '\u{7f}' by {
        assert(hex_digit_value(text[i]) is Some);
    }
}

/// Reads a secret from the text of a file: hexadecimal digits, with or without a
/// line feed after them.
pub fn parse_secret<F: Field>(contents: &str) -> (r: Result<F, ParseError>)
    ensures
        match r {
            Ok(secret) => secret_spec::<F>(contents@) == Some(secret),
            Err(e) => secret_spec::<F>(contents@) is None && e.line@ == contents@,
        },
{
    broadcast use is_ascii_spec_bytes;

    if !contents.is_ascii() {
        proof {
            let digits = if contents@.len() > 0 && contents@.last() == '\n' {
                contents@.drop_last()
            } else {
                contents@
            };
            if is_hex(digits) {
                lemma_hex_is_ascii(digits);
                assert forall|i: int| 0 <= i < contents@.len() implies '\0'
                    <= #[trigger] contents@[i] <= '\u{7f}' by {
                    if i < digits.len() {
                        assert(contents@[i] == digits[i]);
                    }
                }
            }
        }
        return Err(ParseError { line: String::from_str(contents) });
    }
    let bytes = contents.as_bytes();
    let len = bytes.len();
    let digits = if len > 0 && bytes[len - 1] == 10 {
        assert(bytes@[len - 1] == contents@[len - 1] as u8);
        assert(contents@.last() == '\n');
        let digits = contents.substring_ascii(0, len - 1);
        assert(digits@ =~= contents@.drop_last());
        digits
    } else {
        proof {
            if len > 0 {
                assert(bytes@[len - 1] == contents@[len - 1] as u8);
                assert('\0' <= contents@[len - 1] <= '\u{7f}');
            }
        }
        contents
    };
    if digits.unicode_len() == 0 {
        return Err(ParseError { line: String::from_str(contents) });
    }
    match field_from_text::<F>(digits) {
        Some(secret) => Ok(secret),
        None => Err(ParseError { line: String::from_str(contents) }),
    }
}

} // verus!
