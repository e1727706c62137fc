//! The answers given while adding a review, and what is made of them.
use vstd::prelude::*;
use vstd::utf8::encode_utf8;
use crate::models::Review;
use crate::strings::{
    chars_eq, chars_of, replace_all, replace_chars, split_chars, split_on, str_views,
    string_from_chars, string_of, trim, trim_chars,
};

verus! {

/// Whether an answer to a required question was given (it has a character).
pub fn is_non_empty(input: &str) -> (r: bool)
    ensures
        r == (input@.len() > 0),
{
    input.unicode_len() > 0
}

/// A required answer as it is stored: with surrounding whitespace trimmed.
pub fn trimmed_answer(answer: &str) -> (r: String)
    ensures
        r@ == trim(answer@),
{
    let c = chars_of(answer);
    let t = trim_chars(&c);
    string_from_chars(&t)
}

/// An answer to an optional question: `None` when nothing was typed.
pub fn optional_answer(result: String) -> (r: Option<String>)
    ensures
        result@.len() > 0 ==> r == Some(result),
        result@.len() == 0 ==> r is None,
{
    if result.as_str().unicode_len() > 0 {
        Some(result)
    } else {
        None
    }
}

pub open spec fn is_ascii_digit(c: char) -> bool {
    '0' <= c && c <= '9'
}

pub open spec fn digit_value(c: char) -> int {
    c as int - '0' as int
}

/// Exactly four digits 0-9 (`^[0-9]{4}$`).
pub open spec fn is_year_text(s: Seq<char>) -> bool {
    s.len() == 4 && forall|i: int| 0 <= i < 4 ==> is_ascii_digit(#[trigger] s[i])
}

pub open spec fn year_value(s: Seq<char>) -> int {
    digit_value(s[0]) * 1000 + digit_value(s[1]) * 100 + digit_value(s[2]) * 10 + digit_value(s[3])
}

/// Reads a publication year: `None` unless the answer is four digits.
pub fn parse_year(input: &str) -> (r: Option<u16>)
    ensures
        r is Some <==> is_year_text(input@),
        r matches Some(y) ==> y == year_value(input@),
{
    let c = chars_of(input);
    if c.len() != 4 {
        return None;
    }
    let mut value: u16 = 0;
    let mut i: usize = 0;
    while i < 4
        invariant
            c@ == input@,
            c.len() == 4,
            i <= 4,
            forall|j: int| 0 <= j < i ==> is_ascii_digit(#[trigger] c@[j]),
            value == (if i == 0 {
                0
            } else if i == 1 {
                digit_value(c@[0])
            } else if i == 2 {
                digit_value(c@[0]) * 10 + digit_value(c@[1])
            } else if i == 3 {
                digit_value(c@[0]) * 100 + digit_value(c@[1]) * 10 + digit_value(c@[2])
            } else {
                year_value(c@)
            }),
        decreases 4 - i,
    {
        let ch = c[i];
        if !('0' <= ch && ch <= '9') {
            return None;
        }
        let d = (ch as u32 - '0' as u32) as u16;
        value = value * 10 + d;
        i = i + 1;
    }
    Some(value)
}

/// The rating chosen as a row of stars: a star takes three bytes in UTF-8,
/// so the number of stars is the byte length over three.
pub fn rating_from_stars(choice: &str) -> (r: usize)
    ensures
        r == (encode_utf8(choice@).len() as usize) / 3,
{
    choice.len() / 3
}

/// The terminal code that ends a coloured stretch of text.
pub open spec fn colour_reset() -> Seq<char> {
    seq!['\u{1b}', '[', '0', 'm']
}

/// The tint colour in a line printed by `dominant_colours`: its last
/// space-separated piece, without the terminal colour code.
pub fn tint_colour_from_choice(line: &str) -> (r: String)
    ensures
        r@ == replace_all(split_on(line@, seq![' ']).last(), colour_reset(), seq![]),
{
    let c = chars_of(line);
    let space = vec![' '];
    assert(space@ =~= seq![' ']);
    let pieces = split_chars(&c, &space);
    proof {
        crate::strings::lemma_split_on_nonempty(line@, seq![' ']);
    }
    let last = &pieces[pieces.len() - 1];
    let reset = vec!['\u{1b}', '[', '0', 'm'];
    let nothing: Vec<char> = Vec::new();
    assert(reset@ =~= colour_reset());
    assert(nothing@ =~= Seq::<char>::empty());
    let r = replace_chars(last, &reset, &nothing);
    string_from_chars(&r)
}

/// The tags typed for a review: the trimmed answer split at each space.
pub fn tags_from_answer(answer: &str) -> (r: Vec<String>)
    ensures
        str_views(r@) == split_on(trim(answer@), seq![' ']),
{
    let c = chars_of(answer);
    let t = trim_chars(&c);
    let space = vec![' '];
    assert(space@ =~= seq![' ']);
    let pieces = split_chars(&t, &space);
    let mut out: Vec<String> = Vec::new();
    let mut i: usize = 0;
    while i < pieces.len()
        invariant
            i <= pieces.len(),
            crate::strings::char_views(pieces@) == split_on(trim(answer@), seq![' ']),
            str_views(out@) == crate::strings::char_views(pieces@).take(i as int),
        decreases pieces.len() - i,
    {
        let piece = string_from_chars(&pieces[i]);
        assert(piece@ == crate::strings::char_views(pieces@)[i as int]);
        let ghost before = out@;
        out.push(piece);
        assert(str_views(out@) =~= str_views(before).push(piece@));
        i = i + 1;
        assert(crate::strings::char_views(pieces@).take(i as int) =~= crate::strings::char_views(
            pieces@,
        ).take(i - 1).push(piece@));
    }
    assert(crate::strings::char_views(pieces@).take(pieces.len() as int)
        =~= crate::strings::char_views(pieces@));
    out
}

/// Bytes that are written as themselves in a query string: ASCII letters
/// and digits, and `-`, `.`, `_`, `~`.
pub open spec fn is_unreserved(b: u8) -> bool {
    ||| (0x30 <= b && b <= 0x39)
    ||| (0x41 <= b && b <= 0x5a)
    ||| (0x61 <= b && b <= 0x7a)
    ||| b == 0x2d || b == 0x2e || b == 0x5f || b == 0x7e
}

/// The uppercase hexadecimal digit for a value below 16.
pub open spec fn upper_hex(n: u8) -> char {
    seq!['0', '1', '2', '3', '4', '5', '6', '7', '8', '9', 'A', 'B', 'C', 'D', 'E', 'F'][n as int]
}

/// Percent-encoding of bytes: unreserved bytes as themselves, every other
/// byte as `%` and two uppercase hexadecimal digits.
pub open spec fn percent_encoded(bytes: Seq<u8>) -> Seq<char>
    decreases bytes.len(),
{
    if bytes.len() == 0 {
        seq![]
    } else {
        let b = bytes[0];
        (if is_unreserved(b) {
            seq![b as char]
        } else {
            seq!['%', upper_hex(b / 16), upper_hex(b % 16)]
        }) + percent_encoded(bytes.drop_first())
    }
}

/// Percent-encodes text with `urlencoding::encode`.  Claimed, from that
/// function's source: every byte of the UTF-8 encoding except ASCII letters,
/// digits and `-._~` becomes `%` and two uppercase hexadecimal digits.
#[verifier::external_body]
fn url_encode(s: &str) -> (r: String)
    ensures
        r@ == percent_encoded(encode_utf8(s@)),
{
    urlencoding::encode(s).into_owned()
}

/// The image search that helps to find a cover for the book.
pub open spec fn cover_search_url_of(title: Seq<char>, author: Seq<char>) -> Seq<char> {
    "https://www.google.co.uk/search?safe=images&tbm=isch&as_q="@ + percent_encoded(
        encode_utf8(title + " by "@ + author),
    ) + "&tbs=isz%3Al"@
}

/// The URL of an image search for a book's cover.
pub fn cover_search_url(title: &str, author: &str) -> (r: String)
    ensures
        r@ == cover_search_url_of(title@, author@),
{
    let mut query = string_of(title);
    query.append(" by ");
    query.append(author);
    let encoded = url_encode(query.as_str());
    let mut url = string_of("https://www.google.co.uk/search?safe=images&tbm=isch&as_q=");
    url.append(encoded.as_str());
    url.append("&tbs=isz%3Al");
    url
}

fn text_is(a: &str, b: &str) -> (r: bool)
    ensures
        r == (a@ == b@),
{
    let x = chars_of(a);
    let y = chars_of(b);
    chars_eq(&x, &y)
}

/// Whether to ask who narrated the book: only for audiobooks.
pub fn asks_for_narrator(format: &str) -> (r: bool)
    ensures
        r == (format@ == "audiobook"@),
{
    text_is(format, "audiobook")
}

/// Whether to ask for the ISBNs: only for printed books.
pub fn asks_for_isbns(format: &str) -> (r: bool)
    ensures
        r == (format@ == "paperback"@ || format@ == "hardback"@),
{
    text_is(format, "paperback") || text_is(format, "hardback")
}

/// The question about when reading ended.
pub fn finished_date_question(did_finish: bool) -> (r: String)
    ensures
        did_finish ==> r@ == "When did you finish reading it?"@,
        !did_finish ==> r@ == "When did you stop reading it?"@,
{
    if did_finish {
        string_of("When did you finish reading it?")
    } else {
        string_of("When did you stop reading it?")
    }
}

/// Whether a review still needs tags (it predates tags).
pub fn needs_tags(rev: &Review) -> (r: bool)
    ensures
        r == rev.book.tags is None,
{
    rev.book.tags.is_none()
}

} // verus!
