//! The data model of a review: the book, its cover, and when and how it was read.
//!
//! These mirror the YAML front matter of the review files; the program around
//! the library reads and writes that YAML and converts to and from these types.
use vstd::prelude::*;
use vstd::utf8::{encode_scalar, encode_utf8, char_is_scalar};

verus! {

/// Used as `skip_serializing_if` for `ReviewMetadata::did_not_finish`.
pub fn is_false(b: &bool) -> (r: bool)
    ensures
        r == !*b,
{
    !*b
}

/// Used as the serde default of `ReviewMetadata::did_not_finish`.
pub fn default_as_false() -> (r: bool)
    ensures
        !r,
{
    false
}

pub struct Cover {
    pub name: String,
    pub tint_color: String,
}

pub struct Book {
    pub author: Option<String>,
    pub narrator: Option<String>,
    pub editor: Option<String>,
    pub retold_by: Option<String>,
    pub translated_by: Option<String>,
    pub illustrator: Option<String>,
    pub cover: Cover,
    pub title: String,
    /// This has to represent 4-digit years.
    pub publication_year: u16,
    pub series: Option<String>,
    pub isbn10: Option<String>,
    pub isbn13: Option<String>,
    pub tags: Option<Vec<String>>,
}

pub struct ReviewMetadata {
    pub date_read: String,
    pub format: Option<String>,
    pub rating: Option<usize>,
    pub did_not_finish: bool,
    pub date_order: Option<usize>,
}

pub struct Metadata {
    pub book: Book,
    pub review: Option<ReviewMetadata>,
}

pub struct DerivedCoverInfo {
    pub width: u32,
    pub height: u32,
}

pub struct Review {
    pub book: Book,
    pub review: Option<ReviewMetadata>,
    pub text: String,
    pub slug: String,
    /// The path of the review's source file.
    pub path: String,
    pub derived_cover_info: DerivedCoverInfo,
}

pub struct FrontMatter {
    pub book: Book,
    pub review: ReviewMetadata,
}

/// The number of bytes in the UTF-8 encoding of `s`.
pub open spec fn utf8_len(s: Seq<char>) -> nat {
    encode_utf8(s).len()
}

pub proof fn lemma_utf8_len_push(s: Seq<char>, c: char)
    ensures
        utf8_len(s.push(c)) == utf8_len(s) + encode_scalar(c as u32).len(),
    decreases s.len(),
{
    let t = s.push(c);
    if s.len() > 0 {
        lemma_utf8_len_push(s.drop_first(), c);
        assert(t.drop_first() =~= s.drop_first().push(c));
        assert(t[0] == s[0]);
        assert(encode_utf8(t) == encode_scalar(s[0] as u32) + encode_utf8(s.drop_first().push(c)));
        assert(encode_utf8(s) == encode_scalar(s[0] as u32) + encode_utf8(s.drop_first()));
    } else {
        assert(t.drop_first() =~= Seq::<char>::empty());
        assert(encode_utf8(t) == encode_scalar(c as u32) + encode_utf8(t.drop_first()));
        assert(encode_utf8(t.drop_first()) =~= Seq::<u8>::empty());
        assert(encode_utf8(s) =~= Seq::<u8>::empty());
    }
}

/// The number of bytes in the UTF-8 encoding of `c` (`char::len_utf8`).
pub fn utf8_width(c: char) -> (n: usize)
    ensures
        n == encode_scalar(c as u32).len(),
        1 <= n <= 4,
{
    proof {
        char_is_scalar(c);
    }
    let v = c as u32;
    if v <= 0x7f {
        1
    } else if v <= 0x7ff {
        2
    } else if v <= 0xffff {
        3
    } else {
        4
    }
}

/// The year in which a review's book was read: the first four bytes of its
/// date, or "another time" for books read before dates were recorded.
/// Slicing a string at a byte offset that splits a character panics, so when
/// there is a date its first characters must take up exactly four bytes.
pub fn year_read(rev: &Review) -> (r: &str)
    requires
        rev.review is Some ==> exists|k: int|
            0 <= k <= rev.review->0.date_read@.len() && #[trigger] utf8_len(
                rev.review->0.date_read@.take(k),
            ) == 4,
    ensures
        rev.review is None ==> r@ == "another time"@,
        rev.review is Some ==> utf8_len(r@) == 4 && rev.review->0.date_read@.take(r@.len() as int)
            == r@,
{
    match &rev.review {
        Some(meta) => {
            let d = meta.date_read.as_str();
            let n = d.unicode_len();
            let mut k: usize = 0;
            let mut bytes: usize = 0;
            assert(d@.take(0) =~= Seq::<char>::empty());
            while bytes < 4
                invariant
                    n == d@.len(),
                    k <= n,
                    d@ == meta.date_read@,
                    bytes == utf8_len(d@.take(k as int)),
                    bytes <= 4,
                    exists|j: int| 0 <= j <= d@.len() && #[trigger] utf8_len(d@.take(j)) == 4,
                    forall|j: int| 0 <= j < k ==> #[trigger] utf8_len(d@.take(j)) < 4,
                decreases n - k,
            {
                if k == n {
                    proof {
                        let j = choose|j: int| 0 <= j <= d@.len() && #[trigger] utf8_len(d@.take(j)) == 4;
                        assert(j == k as int || j < k);
                        assert(false);
                    }
                }
                let c = d.get_char(k);
                let w = utf8_width(c);
                proof {
                    assert(d@.take(k + 1) =~= d@.take(k as int).push(c));
                    lemma_utf8_len_push(d@.take(k as int), c);
                }
                if bytes + w > 4 {
                    proof {
                        let j = choose|j: int| 0 <= j <= d@.len() && #[trigger] utf8_len(d@.take(j)) == 4;
                        // every prefix at least as long as k + 1 is too long
                        assert forall|m: int| k < m <= d@.len() implies utf8_len(d@.take(m)) > 4 by {
                            lemma_utf8_len_monotone(d@, k + 1, m);
                        }
                        assert(j <= k);
                        assert(false);
                    }
                }
                bytes = bytes + w;
                k = k + 1;
            }
            d.substring_char(0, k)
        },
        None => "another time",
    }
}

proof fn lemma_utf8_len_monotone(s: Seq<char>, a: int, b: int)
    requires
        0 <= a <= b <= s.len(),
    ensures
        utf8_len(s.take(a)) <= utf8_len(s.take(b)),
    decreases b - a,
{
    if a < b {
        lemma_utf8_len_monotone(s, a, b - 1);
        assert(s.take(b) =~= s.take(b - 1).push(s[b - 1]));
        lemma_utf8_len_push(s.take(b - 1), s[b - 1]);
    }
}

} // verus!
