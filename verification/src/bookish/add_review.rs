//! The cover image file name that `bookish` gave a new review.
use vstd::prelude::*;
use crate::strings::{chars_of, split_chars, split_on, string_from_chars, lemma_split_on_nonempty};
use crate::text_helpers::{ascii_slug, separators_to_hyphens, slugify, transliteration};

verus! {

/// The file name of a downloaded cover: the slug of the book's title, then
/// the extension of the cover's URL (what follows its last `.`).
pub fn cover_file_name(title: &str, cover_url: &str) -> (r: String)
    ensures
        r@ == ascii_slug(transliteration(separators_to_hyphens(title@))) + seq!['.'] + split_on(
            cover_url@,
            seq!['.'],
        ).last(),
{
    let mut name = slugify(title);
    let u = chars_of(cover_url);
    let dot = vec!['.'];
    assert(dot@ =~= seq!['.']);
    let pieces = split_chars(&u, &dot);
    proof {
        lemma_split_on_nonempty(cover_url@, seq!['.']);
    }
    let extension = string_from_chars(&pieces[pieces.len() - 1]);
    name.append(".");
    name.append(extension.as_str());
    proof {
        reveal_strlit(".");
        assert("."@ =~= seq!['.']);
    }
    name
}

} // verus!
