//! Reading colours in `bookish`, which parsed hex codes by hand.
use vstd::prelude::*;
use vstd::utf8::is_ascii_chars;
use crate::colours::{radix16_value, radix16_value_exec, Rgb8};
use crate::strings::{chars_of, sub_chars};

verus! {

/// The colour of a seven-character code such as "#d01c11": whatever the
/// first character, the three pairs after it are each read with
/// `u8::from_str_radix(_, 16)`.  Only ASCII codes are read (other text of
/// seven bytes cannot be split into pairs this way).
pub open spec fn seven_char_colour(s: Seq<char>) -> Option<Rgb8> {
    if s.len() == 7 && is_ascii_chars(s) {
        match (
            radix16_value(s.subrange(1, 3)),
            radix16_value(s.subrange(3, 5)),
            radix16_value(s.subrange(5, 7)),
        ) {
            (Some(r), Some(g), Some(b)) => Some(Rgb8 { red: r, green: g, blue: b }),
            _ => None,
        }
    } else {
        None
    }
}

/// Parses a hex string as a colour, e.g. "#d01c11" ~> (208, 28, 17).
/// The hex string must be correctly formatted.
pub fn parse_hex_string(s: &str) -> (r: Rgb8)
    requires
        seven_char_colour(s@) is Some,
    ensures
        r == seven_char_colour(s@)->0,
{
    let c = chars_of(s);
    let r = radix16_value_exec(&sub_chars(&c, 1, 3)).unwrap();
    let g = radix16_value_exec(&sub_chars(&c, 3, 5)).unwrap();
    let b = radix16_value_exec(&sub_chars(&c, 5, 7)).unwrap();
    Rgb8 { red: r, green: g, blue: b }
}

} // verus!
