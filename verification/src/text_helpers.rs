//! Display text for reviews: star ratings, dates, Markdown, and URL slugs.
use vstd::prelude::*;
use vstd::utf8::is_ascii_chars;
use crate::strings::{
    chars_of, extend_chars, replace_all, replace_chars, string_from_chars, trim, trim_chars,
};

verus! {

/// `n` copies of `c`.
pub open spec fn repeat(c: Seq<char>, n: nat) -> Seq<char>
    decreases n,
{
    if n == 0 {
        seq![]
    } else {
        repeat(c, (n - 1) as nat) + c
    }
}

fn push_repeated(out: &mut Vec<char>, piece: &Vec<char>, n: usize)
    ensures
        final(out)@ == old(out)@ + repeat(piece@, n as nat),
{
    let mut i: usize = 0;
    while i < n
        invariant
            i <= n,
            out@ == old(out)@ + repeat(piece@, i as nat),
        decreases n - i,
    {
        let ghost before = out@;
        extend_chars(out, piece);
        i = i + 1;
        assert(out@ =~= old(out)@ + repeat(piece@, i as nat));
    }
}

/// A rating out of five as filled and empty stars, e.g. 3 ~> "★★★☆☆".
pub fn star_rating(rating: usize) -> (r: String)
    requires
        rating <= 5,
    ensures
        r@ == repeat(seq!['★'], rating as nat) + repeat(seq!['☆'], (5 - rating) as nat),
{
    let mut out: Vec<char> = Vec::new();
    let full = vec!['★'];
    let empty = vec!['☆'];
    assert(full@ =~= seq!['★'] && empty@ =~= seq!['☆']);
    push_repeated(&mut out, &full, rating);
    push_repeated(&mut out, &empty, 5 - rating);
    assert(out@ =~= repeat(seq!['★'], rating as nat) + repeat(seq!['☆'], (5 - rating) as nat));
    string_from_chars(&out)
}

/// A rating out of five as stars each followed by a space, e.g. 2 ~> "★ ★ ☆ ☆ ☆ ".
pub fn spread_star_rating(rating: usize) -> (r: String)
    requires
        rating <= 5,
    ensures
        r@ == repeat(seq!['★', ' '], rating as nat) + repeat(seq!['☆', ' '], (5 - rating) as nat),
{
    let mut out: Vec<char> = Vec::new();
    let full = vec!['★', ' '];
    let empty = vec!['☆', ' '];
    assert(full@ =~= seq!['★', ' '] && empty@ =~= seq!['☆', ' ']);
    push_repeated(&mut out, &full, rating);
    push_repeated(&mut out, &empty, 5 - rating);
    assert(out@ =~= repeat(seq!['★', ' '], rating as nat) + repeat(
        seq!['☆', ' '],
        (5 - rating) as nat,
    ));
    string_from_chars(&out)
}

/// The characters of Unicode's `Decimal_Number` category (Unicode 16), the
/// digits that a Unicode-aware `\d` matches: the ASCII digits and the decimal
/// digits of other scripts (Arabic-Indic, Devanagari, fullwidth, ...).
pub open spec fn is_decimal_digit(c: char) -> bool {
    let v = c as u32;
    (0x30 <= v && v <= 0x39) || (0x660 <= v && v <= 0x669) || (0x6F0 <= v && v <= 0x6F9)
        || (0x7C0 <= v && v <= 0x7C9) || (0x966 <= v && v <= 0x96F)
        || (0x9E6 <= v && v <= 0x9EF) || (0xA66 <= v && v <= 0xA6F)
        || (0xAE6 <= v && v <= 0xAEF) || (0xB66 <= v && v <= 0xB6F)
        || (0xBE6 <= v && v <= 0xBEF) || (0xC66 <= v && v <= 0xC6F)
        || (0xCE6 <= v && v <= 0xCEF) || (0xD66 <= v && v <= 0xD6F)
        || (0xDE6 <= v && v <= 0xDEF) || (0xE50 <= v && v <= 0xE59)
        || (0xED0 <= v && v <= 0xED9) || (0xF20 <= v && v <= 0xF29)
        || (0x1040 <= v && v <= 0x1049) || (0x1090 <= v && v <= 0x1099)
        || (0x17E0 <= v && v <= 0x17E9) || (0x1810 <= v && v <= 0x1819)
        || (0x1946 <= v && v <= 0x194F) || (0x19D0 <= v && v <= 0x19D9)
        || (0x1A80 <= v && v <= 0x1A89) || (0x1A90 <= v && v <= 0x1A99)
        || (0x1B50 <= v && v <= 0x1B59) || (0x1BB0 <= v && v <= 0x1BB9)
        || (0x1C40 <= v && v <= 0x1C49) || (0x1C50 <= v && v <= 0x1C59)
        || (0xA620 <= v && v <= 0xA629) || (0xA8D0 <= v && v <= 0xA8D9)
        || (0xA900 <= v && v <= 0xA909) || (0xA9D0 <= v && v <= 0xA9D9)
        || (0xA9F0 <= v && v <= 0xA9F9) || (0xAA50 <= v && v <= 0xAA59)
        || (0xABF0 <= v && v <= 0xABF9) || (0xFF10 <= v && v <= 0xFF19)
        || (0x104A0 <= v && v <= 0x104A9) || (0x10D30 <= v && v <= 0x10D39)
        || (0x10D40 <= v && v <= 0x10D49) || (0x11066 <= v && v <= 0x1106F)
        || (0x110F0 <= v && v <= 0x110F9) || (0x11136 <= v && v <= 0x1113F)
        || (0x111D0 <= v && v <= 0x111D9) || (0x112F0 <= v && v <= 0x112F9)
        || (0x11450 <= v && v <= 0x11459) || (0x114D0 <= v && v <= 0x114D9)
        || (0x11650 <= v && v <= 0x11659) || (0x116C0 <= v && v <= 0x116C9)
        || (0x116D0 <= v && v <= 0x116E3) || (0x11730 <= v && v <= 0x11739)
        || (0x118E0 <= v && v <= 0x118E9) || (0x11950 <= v && v <= 0x11959)
        || (0x11BF0 <= v && v <= 0x11BF9) || (0x11C50 <= v && v <= 0x11C59)
        || (0x11D50 <= v && v <= 0x11D59) || (0x11DA0 <= v && v <= 0x11DA9)
        || (0x11F50 <= v && v <= 0x11F59) || (0x16130 <= v && v <= 0x16139)
        || (0x16A60 <= v && v <= 0x16A69) || (0x16AC0 <= v && v <= 0x16AC9)
        || (0x16B50 <= v && v <= 0x16B59) || (0x16D70 <= v && v <= 0x16D79)
        || (0x1CCF0 <= v && v <= 0x1CCF9) || (0x1D7CE <= v && v <= 0x1D7FF)
        || (0x1E140 <= v && v <= 0x1E149) || (0x1E2F0 <= v && v <= 0x1E2F9)
        || (0x1E4F0 <= v && v <= 0x1E4F9) || (0x1E5F1 <= v && v <= 0x1E5FA)
        || (0x1E950 <= v && v <= 0x1E959) || (0x1FBF0 <= v && v <= 0x1FBF9)
}

/// `YYYY-MM` or `YYYY-MM-DD`, each letter a decimal digit
/// (`^(\d{4})-(\d{2})(-(\d{2}))?$`).
pub open spec fn is_date_shape(s: Seq<char>) -> bool {
    &&& s.len() == 7 || s.len() == 10
    &&& is_decimal_digit(s[0]) && is_decimal_digit(s[1]) && is_decimal_digit(s[2])
        && is_decimal_digit(s[3])
    &&& s[4] == '-'
    &&& is_decimal_digit(s[5]) && is_decimal_digit(s[6])
    &&& s.len() == 10 ==> s[7] == '-' && is_decimal_digit(s[8]) && is_decimal_digit(s[9])
}

/// The English name of a two-digit month number.
pub open spec fn month_name(m: Seq<char>) -> Option<Seq<char>> {
    if m == seq!['0', '1'] {
        Some("January"@)
    } else if m == seq!['0', '2'] {
        Some("February"@)
    } else if m == seq!['0', '3'] {
        Some("March"@)
    } else if m == seq!['0', '4'] {
        Some("April"@)
    } else if m == seq!['0', '5'] {
        Some("May"@)
    } else if m == seq!['0', '6'] {
        Some("June"@)
    } else if m == seq!['0', '7'] {
        Some("July"@)
    } else if m == seq!['0', '8'] {
        Some("August"@)
    } else if m == seq!['0', '9'] {
        Some("September"@)
    } else if m == seq!['1', '0'] {
        Some("October"@)
    } else if m == seq!['1', '1'] {
        Some("November"@)
    } else if m == seq!['1', '2'] {
        Some("December"@)
    } else {
        None
    }
}

/// `s` without its leading zeros (`str::trim_start_matches('0')`).
pub open spec fn strip_leading_zeros(s: Seq<char>) -> Seq<char>
    decreases s.len(),
{
    if s.len() > 0 && s[0] == '0' {
        strip_leading_zeros(s.drop_first())
    } else {
        s
    }
}

/// A date that `render_date` accepts: the right shape, and a real month.
pub open spec fn is_renderable_date(s: Seq<char>) -> bool {
    is_date_shape(s) && month_name(s.subrange(5, 7)) is Some
}

/// "2003-05" ~> "May 2003"; "2003-05-01" ~> "1 May 2003".
pub open spec fn rendered_date(s: Seq<char>) -> Seq<char> {
    let year = s.subrange(0, 4);
    let month = month_name(s.subrange(5, 7))->0;
    if s.len() == 7 {
        month + seq![' '] + year
    } else {
        strip_leading_zeros(s.subrange(8, 10)) + seq![' '] + month + seq![' '] + year
    }
}

fn month_name_exec(a: char, b: char) -> (r: Option<&'static str>)
    ensures
        match month_name(seq![a, b]) {
            Some(m) => r matches Some(x) && x@ == m,
            None => r is None,
        },
{
    if a == '0' {
        if b == '1' {
            Some("January")
        } else if b == '2' {
            Some("February")
        } else if b == '3' {
            Some("March")
        } else if b == '4' {
            Some("April")
        } else if b == '5' {
            Some("May")
        } else if b == '6' {
            Some("June")
        } else if b == '7' {
            Some("July")
        } else if b == '8' {
            Some("August")
        } else if b == '9' {
            Some("September")
        } else {
            assert(forall|m: Seq<char>| m.len() == 2 && m[1] != b ==> seq![a, b] != m);
            None
        }
    } else if a == '1' {
        if b == '0' {
            Some("October")
        } else if b == '1' {
            Some("November")
        } else if b == '2' {
            Some("December")
        } else {
            assert(forall|m: Seq<char>| m.len() == 2 && m[1] != b ==> seq![a, b] != m);
            None
        }
    } else {
        assert(forall|m: Seq<char>| m.len() == 2 && m[0] != a ==> seq![a, b] != m);
        None
    }
}

/// Renders a date as written in review metadata for display.
pub fn render_date(s: &str) -> (r: String)
    requires
        is_renderable_date(s@),
    ensures
        r@ == rendered_date(s@),
{
    let c = chars_of(s);
    assert(c@.subrange(5, 7) =~= seq![c@[5], c@[6]]);
    let month = month_name_exec(c[5], c[6]).unwrap();
    let mc = chars_of(month);
    let mut out: Vec<char> = Vec::new();
    if c.len() == 10 {
        let mut i: usize = 8;
        if c[8] == '0' {
            i = 9;
            assert(c@.subrange(8, 10).drop_first() =~= c@.subrange(9, 10));
            if c[9] == '0' {
                i = 10;
                assert(c@.subrange(9, 10).drop_first() =~= c@.subrange(10, 10));
            }
        }
        assert(strip_leading_zeros(c@.subrange(8, 10)) == c@.subrange(i as int, 10)) by {
            reveal_with_fuel(strip_leading_zeros, 3);
            if i == 10 {
                assert(c@.subrange(10, 10) =~= c@.subrange(i as int, 10));
            }
        }
        let day_start = i;
        let mut k = day_start;
        while k < 10
            invariant
                day_start <= k <= 10,
                c.len() == 10,
                out@ == c@.subrange(day_start as int, k as int),
            decreases 10 - k,
        {
            out.push(c[k]);
            k = k + 1;
            assert(out@ =~= c@.subrange(day_start as int, k as int));
        }
        out.push(' ');
    }
    extend_chars(&mut out, &mc);
    out.push(' ');
    let mut k: usize = 0;
    let ghost before = out@;
    while k < 4
        invariant
            k <= 4,
            c.len() >= 4,
            out@ == before + c@.subrange(0, k as int),
        decreases 4 - k,
    {
        out.push(c[k]);
        k = k + 1;
        assert(out@ =~= before + c@.subrange(0, k as int));
    }
    assert(out@ =~= rendered_date(s@));
    string_from_chars(&out)
}

/// The HTML that the Markdown renderer produces for a text.
pub uninterp spec fn markdown_html(s: Seq<char>) -> Seq<char>;

/// Renders Markdown (all extensions enabled) to HTML with `pulldown_cmark`:
/// `Parser::new_ext` with `Options::all()`, then `html::push_html` into an
/// empty string.  Claimed: the result is `markdown_html` of the input, a
/// function of the input alone.
#[verifier::external_body]
fn push_markdown_html(s: &str) -> (r: String)
    ensures
        r@ == markdown_html(s@),
{
    let parser = pulldown_cmark::Parser::new_ext(s, pulldown_cmark::Options::all());
    let mut body = String::new();
    pulldown_cmark::html::push_html(&mut body, parser);
    body
}

/// Renders Markdown text to HTML.
pub fn markdown(s: &str) -> (r: String)
    ensures
        r@ == markdown_html(s@),
{
    push_markdown_html(s)
}

/// HTML with its paragraph tags removed and surrounding whitespace trimmed.
pub open spec fn without_paragraphs(html: Seq<char>) -> Seq<char> {
    trim(replace_all(replace_all(html, "<p>"@, seq![]), "</p>"@, seq![]))
}

/// Removes `<p>` and `</p>` tags, then trims whitespace, so that a one-line
/// Markdown text can be used inline.
pub fn strip_paragraphs(html: &str) -> (r: String)
    ensures
        r@ == without_paragraphs(html@),
{
    let h = chars_of(html);
    let open_tag = chars_of("<p>");
    let close_tag = chars_of("</p>");
    let nothing: Vec<char> = Vec::new();
    proof {
        reveal_strlit("<p>");
        reveal_strlit("</p>");
    }
    let a = replace_chars(&h, &open_tag, &nothing);
    assert(nothing@ =~= Seq::<char>::empty());
    let b = replace_chars(&a, &close_tag, &nothing);
    let t = trim_chars(&b);
    string_from_chars(&t)
}

/// Renders a short Markdown text (such as a title) to inline HTML: the
/// Markdown renderer's output without paragraph tags.
pub fn smartypants(s: &str) -> (r: String)
    ensures
        r@ == without_paragraphs(markdown_html(s@)),
{
    let html = markdown(s);
    strip_paragraphs(html.as_str())
}

/// The punctuation that separates words in a title.
pub open spec fn is_separator(c: char) -> bool {
    c == '–' || c == '—' || c == '/' || c == ':' || c == ';' || c == ',' || c == '.'
}

/// `s` with each separator replaced by a hyphen.
pub open spec fn separators_to_hyphens(s: Seq<char>) -> Seq<char> {
    s.map_values(|c: char| if is_separator(c) { '-' } else { c })
}

/// ASCII lowercase (on ASCII text this is what `str::to_lowercase` does).
pub open spec fn ascii_lower(c: char) -> char {
    if 'A' <= c && c <= 'Z' {
        ((c as u32) + 32) as char
    } else {
        c
    }
}

/// The characters a slug keeps: lowercase ASCII letters, digits, spaces and hyphens.
pub open spec fn is_slug_char(c: char) -> bool {
    ('a' <= c && c <= 'z') || ('0' <= c && c <= '9') || c == ' ' || c == '-'
}

/// `s` with each run of hyphens shortened to a single hyphen.
pub open spec fn collapse_hyphens(s: Seq<char>) -> Seq<char>
    decreases s.len(),
{
    if s.len() == 0 {
        s
    } else if s.last() == '-' && s.len() >= 2 && s[s.len() - 2] == '-' {
        collapse_hyphens(s.drop_last())
    } else {
        collapse_hyphens(s.drop_last()).push(s.last())
    }
}

/// The slug of ASCII text: lowercased, other characters than letters, digits,
/// spaces and hyphens deleted, spaces turned into hyphens, and runs of
/// hyphens collapsed.
pub open spec fn ascii_slug(t: Seq<char>) -> Seq<char> {
    collapse_hyphens(
        t.map_values(|c: char| ascii_lower(c)).filter(|c: char| is_slug_char(c)).map_values(
            |c: char| if c == ' ' { '-' } else { c },
        ),
    )
}

/// The transliteration of Unicode text to ASCII that `unidecode` produces.
pub uninterp spec fn transliteration(s: Seq<char>) -> Seq<char>;

/// Transliterates text to ASCII with `unidecode::unidecode`.  Claimed, as
/// that function documents: the result is ASCII, and ASCII text is left as it
/// is.  Beyond that the result is only named, as `transliteration` of the input.
#[verifier::external_body]
fn unidecode_text(s: &str) -> (r: String)
    ensures
        r@ == transliteration(s@),
        is_ascii_chars(r@),
        is_ascii_chars(s@) ==> r@ == s@,
{
    unidecode::unidecode(s)
}

/// The slug of a title whose ASCII transliteration is `t`.
pub fn slug_from_ascii(t: &str) -> (r: String)
    requires
        is_ascii_chars(t@),
    ensures
        r@ == ascii_slug(t@),
{
    let c = chars_of(t);
    let ghost lowered = t@.map_values(|c: char| ascii_lower(c));
    let ghost kept = lowered.filter(|c: char| is_slug_char(c));
    let ghost spaced = kept.map_values(|c: char| if c == ' ' { '-' } else { c });
    // lowercase, filter and turn spaces into hyphens
    let mut s: Vec<char> = Vec::new();
    let mut i: usize = 0;
    assert(lowered.take(0).filter(|c: char| is_slug_char(c)) =~= Seq::<char>::empty()) by {
        reveal(Seq::filter);
    }
    while i < c.len()
        invariant
            i <= c.len(),
            c@ == t@,
            is_ascii_chars(t@),
            lowered == t@.map_values(|c: char| ascii_lower(c)),
            s@ == lowered.take(i as int).filter(|c: char| is_slug_char(c)).map_values(
                |c: char| if c == ' ' { '-' } else { c },
            ),
        decreases c.len() - i,
    {
        let ch = c[i];
        let lower = if 'A' <= ch && ch <= 'Z' {
            assert('\0' <= ch <= '\u{7f}');
            let v = (ch as u8) + 32;
            v as char
        } else {
            ch
        };
        assert(lower == ascii_lower(ch)) by {
            if 'A' <= ch && ch <= 'Z' {
                assert((ch as u8) as u32 == ch as u32);
            }
        }
        let ghost before = s@;
        let ghost pf = |c: char| is_slug_char(c);
        proof {
            assert(lowered.take(i + 1) =~= lowered.take(i as int).push(lower));
            lowered.take(i as int).lemma_filter_push(lower, pf);
        }
        if ('a' <= lower && lower <= 'z') || ('0' <= lower && lower <= '9') || lower == ' ' || lower
            == '-' {
            s.push(if lower == ' ' { '-' } else { lower });
            assert(s@ =~= lowered.take(i + 1).filter(pf).map_values(
                |c: char| if c == ' ' { '-' } else { c },
            ));
        } else {
            assert(s@ =~= lowered.take(i + 1).filter(pf).map_values(
                |c: char| if c == ' ' { '-' } else { c },
            ));
        }
        i = i + 1;
    }
    assert(lowered.take(c.len() as int) =~= lowered);
    // collapse runs of hyphens
    let mut out: Vec<char> = Vec::new();
    let mut j: usize = 0;
    assert(s@.take(0) =~= Seq::<char>::empty());
    while j < s.len()
        invariant
            j <= s.len(),
            out@ == collapse_hyphens(s@.take(j as int)),
        decreases s.len() - j,
    {
        let x = s[j];
        let ghost u = s@.take(j + 1);
        assert(u.drop_last() =~= s@.take(j as int));
        if !(x == '-' && j >= 1 && s[j - 1] == '-') {
            out.push(x);
        }
        j = j + 1;
    }
    assert(s@.take(s.len() as int) =~= s@);
    string_from_chars(&out)
}

/// The slug of a title: its separators turned into hyphens, transliterated
/// to ASCII (which leaves ASCII text as it is), then made a slug.
pub open spec fn slug_of(s: Seq<char>) -> Seq<char> {
    let h = separators_to_hyphens(s);
    if is_ascii_chars(h) {
        ascii_slug(h)
    } else {
        ascii_slug(transliteration(h))
    }
}

/// Turns a book title into a slug for URLs and file names, e.g.
/// "On the Origin of Species" ~> "on-the-origin-of-species".
pub fn slugify(s: &str) -> (r: String)
    ensures
        r@ == ascii_slug(transliteration(separators_to_hyphens(s@))),
        r@ == slug_of(s@),
{
    let c = chars_of(s);
    let mut d: Vec<char> = Vec::new();
    let mut i: usize = 0;
    while i < c.len()
        invariant
            i <= c.len(),
            c@ == s@,
            d@ == separators_to_hyphens(s@).take(i as int),
        decreases c.len() - i,
    {
        let ch = c[i];
        if ch == '–' || ch == '—' || ch == '/' || ch == ':' || ch == ';' || ch == ',' || ch == '.' {
            d.push('-');
        } else {
            d.push(ch);
        }
        i = i + 1;
        assert(d@ =~= separators_to_hyphens(s@).take(i as int));
    }
    assert(d@ =~= separators_to_hyphens(s@));
    let punctuated = string_from_chars(&d);
    let ascii = unidecode_text(punctuated.as_str());
    slug_from_ascii(ascii.as_str())
}

/// Each of the separators – — / : ; , . in a title counts as a hyphen: the
/// slug is the same as that of the title with the separator replaced by `-`.
pub proof fn law_separators_count_as_hyphens(s: Seq<char>, i: int)
    requires
        0 <= i < s.len(),
        s[i] == '–' || s[i] == '—' || s[i] == '/' || s[i] == ':' || s[i] == ';' || s[i] == ','
            || s[i] == '.',
    ensures
        slug_of(s) == slug_of(s.update(i, '-')),
{
    assert(separators_to_hyphens(s) =~= separators_to_hyphens(s.update(i, '-')));
}

/// Text that is already made of lowercase ASCII letters, digits and single
/// hyphens is its own slug, e.g. "20-000-leagues"; with the law above, a
/// separator between two words leaves a hyphen between them.
pub proof fn law_plain_slug_is_kept(t: Seq<char>)
    requires
        forall|i: int|
            0 <= i < t.len() ==> {
                let c = #[trigger] t[i];
                ('a' <= c && c <= 'z') || ('0' <= c && c <= '9') || c == '-'
            },
        no_double_hyphens(t),
    ensures
        ascii_slug(t) == t,
        slug_of(t) == t,
{
    let lowered = t.map_values(|c: char| ascii_lower(c));
    assert(lowered =~= t);
    let pf = |c: char| is_slug_char(c);
    assert(t.filter(pf) == t) by {
        assert forall|i: int| 0 <= i <= t.len() implies #[trigger] t.take(i).filter(pf) == t.take(i) by {
            lemma_filter_all(t, pf, i);
        }
        assert(t.take(t.len() as int) =~= t);
    }
    let spaced = t.map_values(|c: char| if c == ' ' { '-' } else { c });
    assert(spaced =~= t);
    lemma_collapse_hyphens(t, |c: char| true);
    assert(separators_to_hyphens(t) =~= t);
    assert(is_ascii_chars(t)) by {
        assert forall|i: int| 0 <= i < t.len() implies '\0' <= #[trigger] t[i] <= '\u{7f}' by {
            let c = t[i];
            assert(('a' <= c && c <= 'z') || ('0' <= c && c <= '9') || c == '-');
        }
    }
}

/// Two texts whose characters are kept or dropped alike, and are alike once
/// spaces are turned into hyphens, give the same kept characters.
proof fn lemma_kept_alike(u: Seq<char>, v: Seq<char>)
    requires
        u.len() == v.len(),
        forall|k: int|
            0 <= k < u.len() ==> is_slug_char(#[trigger] u[k]) == is_slug_char(v[k]) && (
            is_slug_char(u[k]) ==> (if u[k] == ' ' { '-' } else { u[k] }) == (if v[k] == ' ' {
                '-'
            } else {
                v[k]
            })),
    ensures
        u.filter(|c: char| is_slug_char(c)).map_values(|c: char| if c == ' ' { '-' } else { c })
            == v.filter(|c: char| is_slug_char(c)).map_values(
            |c: char| if c == ' ' { '-' } else { c },
        ),
    decreases u.len(),
{
    reveal(Seq::filter);
    let pf = |c: char| is_slug_char(c);
    let gf = |c: char| if c == ' ' { '-' } else { c };
    if u.len() > 0 {
        let (du, dv) = (u.drop_last(), v.drop_last());
        assert forall|k: int| 0 <= k < du.len() implies is_slug_char(#[trigger] du[k]) == is_slug_char(dv[k]) && (
            is_slug_char(du[k]) ==> (if du[k] == ' ' { '-' } else { du[k] }) == (if dv[k] == ' ' {
                '-'
            } else {
                dv[k]
            })) by {
            assert(du[k] == u[k] && dv[k] == v[k]);
        }
        lemma_kept_alike(du, dv);
        let (x, y) = (u.last(), v.last());
        assert(is_slug_char(u[u.len() - 1]) == is_slug_char(v[u.len() - 1]));
        if pf(x) {
            assert(u.filter(pf) == du.filter(pf).push(x));
            assert(v.filter(pf) == dv.filter(pf).push(y));
            assert(du.filter(pf).push(x).map_values(gf) =~= du.filter(pf).map_values(gf).push(gf(x)));
            assert(dv.filter(pf).push(y).map_values(gf) =~= dv.filter(pf).map_values(gf).push(gf(y)));
        } else {
            assert(u.filter(pf) == du.filter(pf));
            assert(v.filter(pf) == dv.filter(pf));
        }
    }
}

/// In an ASCII title an uppercase letter counts as its lowercase letter.
pub proof fn law_slug_ignores_case(s: Seq<char>, i: int)
    requires
        is_ascii_chars(s),
        0 <= i < s.len(),
        'A' <= s[i] && s[i] <= 'Z',
    ensures
        slug_of(s) == slug_of(s.update(i, ((s[i] as u32) + 32) as char)),
{
    let t = s.update(i, ((s[i] as u32) + 32) as char);
    assert(is_ascii_chars(t)) by {
        assert forall|k: int| 0 <= k < t.len() implies '\0' <= #[trigger] t[k] <= '\u{7f}' by {
            if k != i {
                assert(t[k] == s[k]);
            }
        }
    }
    let (hs, ht) = (separators_to_hyphens(s), separators_to_hyphens(t));
    assert(is_ascii_chars(hs)) by {
        assert forall|k: int| 0 <= k < hs.len() implies '\0' <= #[trigger] hs[k] <= '\u{7f}' by {
            assert(s[k] == s[k]);
        }
    }
    assert(is_ascii_chars(ht)) by {
        assert forall|k: int| 0 <= k < ht.len() implies '\0' <= #[trigger] ht[k] <= '\u{7f}' by {
            assert(t[k] == t[k]);
        }
    }
    assert(hs.map_values(|c: char| ascii_lower(c)) =~= ht.map_values(|c: char| ascii_lower(c)));
}

/// In an ASCII title a space counts as a hyphen.
pub proof fn law_slug_spaces_are_hyphens(s: Seq<char>, i: int)
    requires
        is_ascii_chars(s),
        0 <= i < s.len(),
        s[i] == ' ',
    ensures
        slug_of(s) == slug_of(s.update(i, '-')),
{
    let t = s.update(i, '-');
    assert(is_ascii_chars(t)) by {
        assert forall|k: int| 0 <= k < t.len() implies '\0' <= #[trigger] t[k] <= '\u{7f}' by {
            if k != i {
                assert(t[k] == s[k]);
            }
        }
    }
    let (hs, ht) = (separators_to_hyphens(s), separators_to_hyphens(t));
    assert(is_ascii_chars(hs)) by {
        assert forall|k: int| 0 <= k < hs.len() implies '\0' <= #[trigger] hs[k] <= '\u{7f}' by {
            assert(s[k] == s[k]);
        }
    }
    assert(is_ascii_chars(ht)) by {
        assert forall|k: int| 0 <= k < ht.len() implies '\0' <= #[trigger] ht[k] <= '\u{7f}' by {
            assert(t[k] == t[k]);
        }
    }
    let (ls, lt) = (hs.map_values(|c: char| ascii_lower(c)), ht.map_values(|c: char| ascii_lower(c)));
    assert forall|k: int| 0 <= k < ls.len() implies is_slug_char(#[trigger] ls[k]) == is_slug_char(lt[k]) && (
        is_slug_char(ls[k]) ==> (if ls[k] == ' ' { '-' } else { ls[k] }) == (if lt[k] == ' ' {
            '-'
        } else {
            lt[k]
        })) by {
        if k != i {
            assert(ls[k] == lt[k]);
        }
    }
    lemma_kept_alike(ls, lt);
}

proof fn lemma_repeat_one(c: char, n: nat)
    ensures
        repeat(seq![c], n).len() == n,
        forall|i: int| 0 <= i < n ==> #[trigger] repeat(seq![c], n)[i] == c,
    decreases n,
{
    if n > 0 {
        lemma_repeat_one(c, (n - 1) as nat);
    }
}

/// A star rating is five stars, the first `rating` of them filled.
pub proof fn law_star_rating_shape(rating: nat)
    requires
        rating <= 5,
    ensures
        ({
            let r = repeat(seq!['★'], rating) + repeat(seq!['☆'], (5 - rating) as nat);
            &&& r.len() == 5
            &&& forall|i: int| 0 <= i < rating ==> r[i] == '★'
            &&& forall|i: int| rating <= i < 5 ==> r[i] == '☆'
        }),
{
    lemma_repeat_one('★', rating);
    lemma_repeat_one('☆', (5 - rating) as nat);
    let r = repeat(seq!['★'], rating) + repeat(seq!['☆'], (5 - rating) as nat);
    assert forall|i: int| rating <= i < 5 implies r[i] == '☆' by {
        assert(r[i] == repeat(seq!['☆'], (5 - rating) as nat)[i - rating]);
    }
}

/// No two hyphens next to each other.
pub open spec fn no_double_hyphens(s: Seq<char>) -> bool {
    forall|i: int| 0 <= i < s.len() - 1 ==> !(#[trigger] s[i] == '-' && s[i + 1] == '-')
}

proof fn lemma_collapse_hyphens(s: Seq<char>, p: spec_fn(char) -> bool)
    ensures
        s.len() > 0 ==> collapse_hyphens(s).len() > 0 && collapse_hyphens(s).last() == s.last(),
        no_double_hyphens(collapse_hyphens(s)),
        (forall|i: int| 0 <= i < s.len() ==> p(#[trigger] s[i])) ==> forall|i: int|
            0 <= i < collapse_hyphens(s).len() ==> p(#[trigger] collapse_hyphens(s)[i]),
        no_double_hyphens(s) ==> collapse_hyphens(s) == s,
    decreases s.len(),
{
    if s.len() > 0 {
        let d = s.drop_last();
        lemma_collapse_hyphens(d, p);
        if (forall|i: int| 0 <= i < s.len() ==> p(#[trigger] s[i])) {
            assert forall|i: int| 0 <= i < d.len() implies p(#[trigger] d[i]) by {
                assert(d[i] == s[i]);
            }
        }
        if no_double_hyphens(s) {
            assert forall|i: int| 0 <= i < d.len() - 1 implies !(#[trigger] d[i] == '-' && d[i
                + 1] == '-') by {
                assert(d[i] == s[i] && d[i + 1] == s[i + 1]);
            }
            assert(d.push(s.last()) =~= s);
        }
        if s.last() == '-' && s.len() >= 2 && s[s.len() - 2] == '-' {
            assert(d.last() == '-');
            if no_double_hyphens(s) {
                assert(!(s[s.len() - 2] == '-' && s[s.len() - 1] == '-'));
            }
        } else {
            let cd = collapse_hyphens(d);
            let r = cd.push(s.last());
            assert forall|i: int| 0 <= i < r.len() - 1 implies !(#[trigger] r[i] == '-' && r[i
                + 1] == '-') by {
                if i == r.len() - 2 {
                    assert(r[i] == cd.last());
                    assert(cd.last() == d.last());
                    assert(d.last() == s[s.len() - 2]);
                } else {
                    assert(r[i] == cd[i] && r[i + 1] == cd[i + 1]);
                }
            }
        }
    }
}

/// A slug is made only of lowercase ASCII letters, digits and hyphens, and
/// never has two hyphens in a row.
pub proof fn law_slug_characters(t: Seq<char>)
    ensures
        forall|i: int|
            0 <= i < ascii_slug(t).len() ==> {
                let c = #[trigger] ascii_slug(t)[i];
                ('a' <= c && c <= 'z') || ('0' <= c && c <= '9') || c == '-'
            },
        no_double_hyphens(ascii_slug(t)),
{
    let kept = t.map_values(|c: char| ascii_lower(c)).filter(|c: char| is_slug_char(c));
    let u = kept.map_values(|c: char| if c == ' ' { '-' } else { c });
    let p = |c: char| ('a' <= c && c <= 'z') || ('0' <= c && c <= '9') || c == '-';
    assert forall|i: int| 0 <= i < u.len() implies p(#[trigger] u[i]) by {
        t.map_values(|c: char| ascii_lower(c)).lemma_filter_pred(|c: char| is_slug_char(c), i);
    }
    lemma_collapse_hyphens(u, p);
}

/// Slugifying a slug changes nothing.
pub proof fn law_slugify_of_slug(s: Seq<char>)
    ensures
        slug_of(slug_of(s)) == slug_of(s),
{
    let h = separators_to_hyphens(s);
    let t = if is_ascii_chars(h) { h } else { transliteration(h) };
    let r = ascii_slug(t);
    assert(slug_of(s) == r);
    law_slug_of_slug(t);
    law_slug_characters(t);
    assert(is_ascii_chars(r)) by {
        assert forall|i: int| 0 <= i < r.len() implies '\0' <= #[trigger] r[i] <= '\u{7f}' by {
            let c = r[i];
            assert(('a' <= c && c <= 'z') || ('0' <= c && c <= '9') || c == '-');
        }
    }
    assert(separators_to_hyphens(r) == r);
}

/// Making a slug of a slug changes nothing.
pub proof fn law_slug_of_slug(t: Seq<char>)
    ensures
        ascii_slug(ascii_slug(t)) == ascii_slug(t),
        separators_to_hyphens(ascii_slug(t)) == ascii_slug(t),
{
    let s = ascii_slug(t);
    law_slug_characters(t);
    let lowered = s.map_values(|c: char| ascii_lower(c));
    assert(lowered =~= s);
    let pf = |c: char| is_slug_char(c);
    assert(s.filter(pf) == s) by {
        assert forall|i: int| 0 <= i <= s.len() implies #[trigger] s.take(i).filter(pf) == s.take(i) by {
            lemma_filter_all(s, pf, i);
        }
        assert(s.take(s.len() as int) =~= s);
    }
    let spaced = s.map_values(|c: char| if c == ' ' { '-' } else { c });
    assert(spaced =~= s);
    lemma_collapse_hyphens(s, |c: char| true);
    assert(separators_to_hyphens(s) =~= s);
}

proof fn lemma_filter_all(s: Seq<char>, p: spec_fn(char) -> bool, i: int)
    requires
        0 <= i <= s.len(),
        forall|k: int| 0 <= k < s.len() ==> p(#[trigger] s[k]),
    ensures
        s.take(i).filter(p) == s.take(i),
    decreases i,
{
    reveal(Seq::filter);
    if i > 0 {
        lemma_filter_all(s, p, i - 1);
        assert(s.take(i).drop_last() =~= s.take(i - 1));
    } else {
        assert(s.take(0) =~= Seq::<char>::empty());
    }
}

} // verus!
