//! Tint colours: hex codes such as `#d01c11`, which are read from review
//! metadata and written into the names of favicon and shelf images.
use std::str::FromStr;
use vstd::prelude::*;
use vstd::utf8::is_ascii_chars;
use crate::strings::{chars_of, string_from_chars, string_of};

verus! {

/// A colour as red, green and blue components.
#[derive(Debug, Clone, Copy, PartialEq, Eq, Structural)]
pub struct Rgb8 {
    pub red: u8,
    pub green: u8,
    pub blue: u8,
}

/// The value of a hexadecimal digit (either case).
pub open spec fn hex_digit_value(c: char) -> Option<u8> {
    if '0' <= c && c <= '9' {
        Some((c as u32 - '0' as u32) as u8)
    } else if 'a' <= c && c <= 'f' {
        Some((c as u32 - 'a' as u32 + 10) as u8)
    } else if 'A' <= c && c <= 'F' {
        Some((c as u32 - 'A' as u32 + 10) as u8)
    } else {
        None
    }
}

/// What `u8::from_str_radix(s, 16)` gives for a text of one or two
/// characters: hexadecimal digits, after an optional `+` sign.
pub open spec fn radix16_value(s: Seq<char>) -> Option<u8> {
    if s.len() == 1 {
        hex_digit_value(s[0])
    } else if s.len() == 2 && s[0] == '+' {
        hex_digit_value(s[1])
    } else if s.len() == 2 {
        match (hex_digit_value(s[0]), hex_digit_value(s[1])) {
            (Some(h), Some(l)) => Some((h * 16 + l) as u8),
            _ => None,
        }
    } else {
        None
    }
}

/// The colour a hex code stands for, as `palette`'s `Srgb::<u8>::from_str`
/// reads it: an optional `#`, then three or six hexadecimal digits (each
/// digit of a three-digit code is doubled).  A code with any non-ASCII
/// character is never read as a colour.
pub open spec fn hex_colour(s: Seq<char>) -> Option<Rgb8> {
    let code = if s.len() > 0 && s[0] == '#' {
        s.drop_first()
    } else {
        s
    };
    if !is_ascii_chars(s) {
        None
    } else if code.len() == 3 {
        match (
            radix16_value(code.subrange(0, 1)),
            radix16_value(code.subrange(1, 2)),
            radix16_value(code.subrange(2, 3)),
        ) {
            (Some(r), Some(g), Some(b)) => Some(
                Rgb8 { red: (r * 17) as u8, green: (g * 17) as u8, blue: (b * 17) as u8 },
            ),
            _ => None,
        }
    } else if code.len() == 6 {
        match (
            radix16_value(code.subrange(0, 2)),
            radix16_value(code.subrange(2, 4)),
            radix16_value(code.subrange(4, 6)),
        ) {
            (Some(r), Some(g), Some(b)) => Some(Rgb8 { red: r, green: g, blue: b }),
            _ => None,
        }
    } else {
        None
    }
}

/// Reads a hex code with `palette`: `Srgb::<u8>::from_str`.  Claimed, from
/// that function's source: it strips one leading `#`, reads a three-character
/// code digit by digit (multiplying each by 17) and a six-character code in
/// pairs, each with `u8::from_str_radix(_, 16)`, and fails on any other
/// length.  On ASCII text byte offsets and character offsets agree, which is
/// why the text must be ASCII (slicing it cannot panic then).
#[verifier::external_body]
fn palette_from_hex(s: &str) -> (r: Option<Rgb8>)
    requires
        is_ascii_chars(s@),
    ensures
        r == hex_colour(s@),
{
    match palette::Srgb::<u8>::from_str(s) {
        Ok(c) => Some(Rgb8 { red: c.red, green: c.green, blue: c.blue }),
        Err(_) => None,
    }
}

/// Parses a hex string as a colour, e.g. "#d01c11" ~> (208, 28, 17).
/// The hex string must be correctly formatted.
pub fn parse_hex_string(s: &str) -> (r: Rgb8)
    requires
        hex_colour(s@) is Some,
    ensures
        r == hex_colour(s@)->0,
{
    palette_from_hex(s).unwrap()
}

/// Reads a hex string as a colour where it is one: `None` for text that
/// `palette` does not read as a colour.
pub fn try_parse_hex_string(s: &str) -> (r: Option<Rgb8>)
    ensures
        r == hex_colour(s@),
{
    if s.is_ascii() {
        palette_from_hex(s)
    } else {
        None
    }
}

/// The lowercase hexadecimal digit for a value below 16.
pub open spec fn hex_char(n: u8) -> char {
    seq!['0', '1', '2', '3', '4', '5', '6', '7', '8', '9', 'a', 'b', 'c', 'd', 'e', 'f'][n as int]
}

/// A byte as two lowercase hexadecimal digits (`{:02x}`).
pub open spec fn hex_byte(b: u8) -> Seq<char> {
    seq![hex_char(b / 16), hex_char(b % 16)]
}

/// A colour as six lowercase hexadecimal digits, e.g. (208, 28, 17) ~> "d01c11".
/// The names of favicon and shelf images are made of it.
pub open spec fn hex_code_of(c: Rgb8) -> Seq<char> {
    hex_byte(c.red) + hex_byte(c.green) + hex_byte(c.blue)
}

fn push_hex_byte(out: &mut Vec<char>, b: u8)
    ensures
        final(out)@ == old(out)@ + hex_byte(b),
{
    let digits = vec!['0', '1', '2', '3', '4', '5', '6', '7', '8', '9', 'a', 'b', 'c', 'd', 'e', 'f'];
    assert(digits@ =~= seq![
        '0', '1', '2', '3', '4', '5', '6', '7', '8', '9', 'a', 'b', 'c', 'd', 'e', 'f',
    ]);
    out.push(digits[(b / 16) as usize]);
    out.push(digits[(b % 16) as usize]);
    assert(final(out)@ =~= old(out)@ + hex_byte(b));
}

/// The colour as six lowercase hexadecimal digits (`{:02x}{:02x}{:02x}`).
pub fn hex_code(c: Rgb8) -> (r: String)
    ensures
        r@ == hex_code_of(c),
{
    let mut out: Vec<char> = Vec::new();
    push_hex_byte(&mut out, c.red);
    push_hex_byte(&mut out, c.green);
    push_hex_byte(&mut out, c.blue);
    assert(out@ =~= hex_code_of(c));
    string_from_chars(&out)
}

pub open spec fn is_hex_digit(c: char) -> bool {
    hex_digit_value(c) is Some
}

/// `#` followed by exactly six hexadecimal digits, e.g. "#d01c11".
pub open spec fn is_hex_colour_code(s: Seq<char>) -> bool {
    s.len() == 7 && s[0] == '#' && forall|i: int| 1 <= i < 7 ==> is_hex_digit(#[trigger] s[i])
}

fn is_hex_digit_exec(c: char) -> (r: bool)
    ensures
        r == is_hex_digit(c),
{
    ('0' <= c && c <= '9') || ('a' <= c && c <= 'f') || ('A' <= c && c <= 'F')
}

/// Checks that a colour argument is a hex string; the error explains what
/// was expected.
pub fn is_hex_string(s: String) -> (r: Result<(), String>)
    ensures
        r is Ok <==> is_hex_colour_code(s@),
        r matches Err(m) ==> m@ == "Expected a hex string, e.g. #d01c11, got "@ + s@,
{
    let c = chars_of(s.as_str());
    let mut ok = c.len() == 7 && c[0] == '#';
    if ok {
        let mut i: usize = 1;
        while i < 7
            invariant
                c@ == s@,
                c.len() == 7,
                1 <= i <= 7,
                ok == forall|j: int| 1 <= j < i ==> is_hex_digit(#[trigger] c@[j]),
            decreases 7 - i,
        {
            if !is_hex_digit_exec(c[i]) {
                ok = false;
            }
            i = i + 1;
        }
    }
    if ok {
        Ok(())
    } else {
        let mut m = string_of("Expected a hex string, e.g. #d01c11, got ");
        m.append(s.as_str());
        Err(m)
    }
}

fn hex_digit_value_exec(c: char) -> (r: Option<u8>)
    ensures
        r == hex_digit_value(c),
{
    if '0' <= c && c <= '9' {
        Some((c as u32 - '0' as u32) as u8)
    } else if 'a' <= c && c <= 'f' {
        Some((c as u32 - 'a' as u32 + 10) as u8)
    } else if 'A' <= c && c <= 'F' {
        Some((c as u32 - 'A' as u32 + 10) as u8)
    } else {
        None
    }
}

/// `u8::from_str_radix(s, 16)` for a text of one or two characters.
pub fn radix16_value_exec(s: &Vec<char>) -> (r: Option<u8>)
    requires
        1 <= s.len() <= 2,
    ensures
        r == radix16_value(s@),
{
    if s.len() == 1 {
        hex_digit_value_exec(s[0])
    } else if s[0] == '+' {
        hex_digit_value_exec(s[1])
    } else {
        match (hex_digit_value_exec(s[0]), hex_digit_value_exec(s[1])) {
            (Some(h), Some(l)) => Some(h * 16 + l),
            _ => None,
        }
    }
}

proof fn lemma_hex_char_value(n: u8)
    requires
        n < 16,
    ensures
        hex_digit_value(hex_char(n)) == Some(n),
        hex_char(n) != '+',
        '\0' <= hex_char(n) <= '\u{7f}',
{
    if n == 0 {
    }
    else if n == 1 {
    }
    else if n == 2 {
    }
    else if n == 3 {
    }
    else if n == 4 {
    }
    else if n == 5 {
    }
    else if n == 6 {
    }
    else if n == 7 {
    }
    else if n == 8 {
    }
    else if n == 9 {
    }
    else if n == 10 {
    }
    else if n == 11 {
    }
    else if n == 12 {
    }
    else if n == 13 {
    }
    else if n == 14 {
    }
    else if n == 15 {
    }
}

/// Writing a colour as a hex code and reading it back gives the colour.
pub proof fn law_hex_code_round_trip(c: Rgb8)
    ensures
        hex_colour(seq!['#'] + hex_code_of(c)) == Some(c),
        crate::bookish::colours::seven_char_colour(seq!['#'] + hex_code_of(c)) == Some(c),
{
    let s = seq!['#'] + hex_code_of(c);
    let code = hex_code_of(c);
    lemma_hex_char_value(c.red / 16);
    lemma_hex_char_value(c.red % 16);
    lemma_hex_char_value(c.green / 16);
    lemma_hex_char_value(c.green % 16);
    lemma_hex_char_value(c.blue / 16);
    lemma_hex_char_value(c.blue % 16);
    assert(s.drop_first() =~= code);
    assert(code.subrange(0, 2) =~= hex_byte(c.red));
    assert(code.subrange(2, 4) =~= hex_byte(c.green));
    assert(code.subrange(4, 6) =~= hex_byte(c.blue));
    assert(s.subrange(1, 3) =~= hex_byte(c.red));
    assert(s.subrange(3, 5) =~= hex_byte(c.green));
    assert(s.subrange(5, 7) =~= hex_byte(c.blue));
    assert(is_ascii_chars(s)) by {
        assert forall|i: int| 0 <= i < s.len() implies '\0' <= #[trigger] s[i] <= '\u{7f}' by {
            if i == 0 {
            } else if i <= 2 {
                assert(s[i] == hex_byte(c.red)[i - 1]);
            } else if i <= 4 {
                assert(s[i] == hex_byte(c.green)[i - 3]);
            } else {
                assert(s[i] == hex_byte(c.blue)[i - 5]);
            }
        }
    }
    assert(radix16_value(hex_byte(c.red)) == Some(c.red));
    assert(radix16_value(hex_byte(c.green)) == Some(c.green));
    assert(radix16_value(hex_byte(c.blue)) == Some(c.blue));
}

} // verus!
