//! Tags, and the autocompletion of tags when adding a review.
//!
//! A review's tags are typed as a space-separated list.  While the list is
//! typed, the completer suggests tags that are already in use elsewhere: at
//! most fifteen of them, never one already typed, and, while a word is being
//! typed, only tags that contain it.
use vstd::prelude::*;
use vstd::relations::sorted_by;
use crate::models::Review;
use crate::strings::{
    chars_eq, chars_of, char_views, contains_chars, contains_seq, is_whitespace, is_ws,
    lemma_last_word_is_suffix, lex_order, sort_strings, split_words, str_views, string_from_chars,
    sub_chars, words, lemma_lex_total_ordering,
};

verus! {

/// At most this many tags are suggested at once.
pub const MAX_SUGGESTIONS: usize = 15;

#[derive(Clone)]
pub struct TagCompleter {
    tags: Vec<String>,
    suggestions: Vec<String>,
    prefix: String,
}

/// The word being typed: the last word of the input, unless the input is
/// empty or ends in whitespace.
pub open spec fn current_word(input: Seq<char>) -> Option<Seq<char>> {
    if input.len() == 0 || is_ws(input.last()) {
        None
    } else {
        Some(words(input).last())
    }
}

/// Whether a known tag may be suggested for this input: it has not been typed
/// already, and it contains the word being typed (if any).
pub open spec fn is_candidate(input: Seq<char>, tag: Seq<char>) -> bool {
    &&& !words(input).contains(tag)
    &&& match current_word(input) {
        None => true,
        Some(w) => contains_seq(tag, w),
    }
}

pub open spec fn candidate_pred(input: Seq<char>) -> spec_fn(Seq<char>) -> bool {
    |tag: Seq<char>| is_candidate(input, tag)
}

/// The first candidates, at most `MAX_SUGGESTIONS` of them, in the order the
/// tags are known.
pub open spec fn first_candidates(tags: Seq<Seq<char>>, input: Seq<char>) -> Seq<Seq<char>> {
    let c = tags.filter(candidate_pred(input));
    if c.len() <= MAX_SUGGESTIONS {
        c
    } else {
        c.take(MAX_SUGGESTIONS as int)
    }
}

/// The suggestions for an input: every known tag, in the order given, for an
/// empty input (the initial prompt offers all options); else the first
/// candidates in lexicographic order.
pub open spec fn expected_suggestions(tags: Seq<Seq<char>>, input: Seq<char>) -> Seq<Seq<char>> {
    if input.len() == 0 {
        tags
    } else {
        first_candidates(tags, input).sort_by(lex_order())
    }
}

/// What stands before the word being typed; a completion is appended to it.
pub open spec fn expected_prefix(input: Seq<char>) -> Seq<char> {
    match current_word(input) {
        None => input,
        Some(w) => input.take(input.len() - w.len()),
    }
}

/// The text that replaces the input when `choice` is completed after `prefix`.
pub open spec fn completion_text(prefix: Seq<char>, choice: Seq<char>) -> Seq<char> {
    if prefix.len() == 0 {
        choice + seq![' ']
    } else if is_ws(prefix.last()) {
        prefix + choice + seq![' ']
    } else {
        prefix + seq![' '] + choice + seq![' ']
    }
}

impl TagCompleter {
    pub closed spec fn known_tags(&self) -> Seq<Seq<char>> {
        str_views(self.tags@)
    }

    pub closed spec fn current_suggestions(&self) -> Seq<Seq<char>> {
        str_views(self.suggestions@)
    }

    pub closed spec fn current_prefix(&self) -> Seq<char> {
        self.prefix@
    }

    /// A completer for the given known tags; before any input every tag is a
    /// suggestion, in the order given.
    pub fn new(tags: Vec<String>) -> (r: Self)
        ensures
            r.known_tags() == str_views(tags@),
            r.current_suggestions() == str_views(tags@),
            r.current_prefix() == Seq::<char>::empty(),
    {
        let known = tags.clone();
        proof {
            assert(str_views(known@) =~= str_views(tags@));
        }
        TagCompleter { tags: known, suggestions: tags, prefix: String::new() }
    }

    /// The suggestions for the input (the completion list that is shown).
    pub fn get_suggestions(&mut self, input: &str) -> (r: Result<Vec<String>, String>)
        ensures
            final(self).known_tags() == old(self).known_tags(),
            final(self).current_suggestions() == expected_suggestions(
                old(self).known_tags(),
                input@,
            ),
            final(self).current_prefix() == expected_prefix(input@),
            r is Ok,
            r matches Ok(v) && str_views(v@) == expected_suggestions(old(self).known_tags(), input@),
    {
        update_based_on_input(self, input);
        let out = self.suggestions.clone();
        proof {
            assert(str_views(out@) =~= str_views(self.suggestions@));
        }
        Ok(out)
    }

    /// The text that replaces the input when a completion is accepted: the
    /// selected suggestion, or else the first suggestion, appended to the
    /// text before the word being typed.  `None` when there is nothing to
    /// complete with.
    pub fn get_completion(&mut self, input: &str, selected_suggestion: Option<String>) -> (r:
        Result<Option<String>, String>)
        ensures
            final(self).known_tags() == old(self).known_tags(),
            final(self).current_suggestions() == expected_suggestions(
                old(self).known_tags(),
                input@,
            ),
            final(self).current_prefix() == expected_prefix(input@),
            ({
                let choice: Option<Seq<char>> = match selected_suggestion {
                    Some(s) => Some(s@),
                    None => if final(self).current_suggestions().len() > 0 {
                        Some(final(self).current_suggestions()[0])
                    } else {
                        None
                    },
                };
                match choice {
                    None => r == Ok::<Option<String>, String>(None),
                    Some(c) => r matches Ok(Some(t)) && t@ == completion_text(
                        expected_prefix(input@),
                        c,
                    ),
                }
            }),
    {
        update_based_on_input(self, input);
        let completion = match selected_suggestion {
            None => if self.suggestions.len() > 0 {
                Some(self.suggestions[0].clone())
            } else {
                None
            },
            Some(suggestion) => Some(suggestion),
        };
        match completion {
            Some(c) => {
                let mut text = String::new();
                let pc = chars_of(self.prefix.as_str());
                if pc.len() == 0 {
                    text.append(c.as_str());
                    text.append(" ");
                } else {
                    text.append(self.prefix.as_str());
                    if !is_whitespace(pc[pc.len() - 1]) {
                        text.append(" ");
                    }
                    text.append(c.as_str());
                    text.append(" ");
                }
                proof {
                    reveal_strlit(" ");
                    assert(text@ =~= completion_text(self.prefix@, c@));
                }
                Ok(Some(text))
            },
            None => Ok(None),
        }
    }
}

/// Recomputes the suggestions and the prefix of a completer for the input.
pub fn update_based_on_input(tag_completer: &mut TagCompleter, input: &str)
    ensures
        final(tag_completer).known_tags() == old(tag_completer).known_tags(),
        final(tag_completer).current_suggestions() == expected_suggestions(
            old(tag_completer).known_tags(),
            input@,
        ),
        final(tag_completer).current_prefix() == expected_prefix(input@),
{
    let ic = chars_of(input);
    if ic.len() == 0 {
        tag_completer.prefix = String::new();
        let all = tag_completer.tags.clone();
        proof {
            assert(str_views(all@) =~= str_views(tag_completer.tags@));
        }
        tag_completer.suggestions = all;
        return ;
    }
    // The tags that have been typed already, and the word being typed.

    let used = split_words(&ic);
    let last_char_is_space = is_whitespace(ic[ic.len() - 1]);
    let ghost pred = candidate_pred(input@);
    proof {
        if !last_char_is_space {
            lemma_last_word_is_suffix(input@);
        }
    }
    let mut this_tag: Vec<char> = Vec::new();
    if !last_char_is_space {
        this_tag = sub_chars(&used[used.len() - 1], 0, used[used.len() - 1].len());
    }
    let prefix_len: usize = ic.len() - this_tag.len();
    let prefix_chars = sub_chars(&ic, 0, prefix_len);
    tag_completer.prefix = string_from_chars(&prefix_chars);
    proof {
        assert(prefix_chars@ =~= expected_prefix(input@));
    }
    let tags = &tag_completer.tags;
    let ghost all = str_views(tags@);
    let mut picked: Vec<String> = Vec::new();
    let mut i: usize = 0;
    assert(all.take(0) =~= Seq::<Seq<char>>::empty());
    assert(str_views(picked@) =~= all.take(0).filter(pred)) by {
        reveal(Seq::filter);
    }
    while i < tags.len() && picked.len() < MAX_SUGGESTIONS
        invariant
            i <= tags.len(),
            all == str_views(tags@),
            pred == candidate_pred(input@),
            ic@ == input@,
            char_views(used@) == words(input@),
            last_char_is_space ==> current_word(input@) is None,
            !last_char_is_space ==> current_word(input@) == Some(this_tag@),
            picked.len() <= MAX_SUGGESTIONS,
            str_views(picked@) == all.take(i as int).filter(pred),
        decreases tags.len() - i,
    {
        let tc = chars_of(tags[i].as_str());
        let mut is_used = false;
        let mut j: usize = 0;
        while j < used.len()
            invariant
                j <= used.len(),
                is_used == exists|k: int| 0 <= k < j && used@[k]@ == tc@,
            decreases used.len() - j,
        {
            if chars_eq(&used[j], &tc) {
                is_used = true;
            }
            j = j + 1;
        }
        proof {
            if is_used {
                let k = choose|k: int| 0 <= k < j && used@[k]@ == tc@;
                assert(char_views(used@)[k] == tc@);
            }
            if words(input@).contains(tc@) {
                let k = choose|k: int| 0 <= k < words(input@).len() && words(input@)[k] == tc@;
                assert(used@[k]@ == tc@);
            }
        }
        let matches_word = if last_char_is_space {
            true
        } else {
            contains_chars(&tc, &this_tag)
        };
        let ghost before = picked@;
        if !is_used && matches_word {
            picked.push(tags[i].clone());
        }
        proof {
            assert(all.take(i + 1) =~= all.take(i as int).push(tc@));
            all.take(i as int).lemma_filter_push(tc@, pred);
            assert(pred(tc@) == (!is_used && matches_word));
            if !is_used && matches_word {
                assert(str_views(picked@) =~= str_views(before).push(tc@));
            } else {
                assert(picked@ == before);
            }
        }
        i = i + 1;
    }
    proof {
        let c = all.filter(pred);
        if picked.len() < MAX_SUGGESTIONS {
            assert(all.take(i as int) =~= all);
        } else {
            all.take(i as int).lemma_filter_monotone(all, pred);
            assert(all.take(i as int).is_prefix_of(all));
            assert(c.take(MAX_SUGGESTIONS as int) =~= str_views(picked@));
        }
        assert(str_views(picked@) == first_candidates(all, input@));
    }
    tag_completer.suggestions = sort_strings(&picked);
}

/// The tags of a review's book (none if it has no tag list).
pub open spec fn tags_of(r: Review) -> Seq<Seq<char>> {
    match r.book.tags {
        Some(ts) => str_views(ts@),
        None => seq![],
    }
}

/// Appends `t` to `used` unless it is there already.
fn push_unique(used: &mut Vec<String>, t: &String)
    requires
        str_views(old(used)@).no_duplicates(),
    ensures
        str_views(final(used)@).no_duplicates(),
        forall|x: Seq<char>|
            str_views(final(used)@).contains(x) <==> (str_views(old(used)@).contains(x) || x
                == t@),
{
    let tc = chars_of(t.as_str());
    let mut k: usize = 0;
    while k < used.len()
        invariant
            k <= used.len(),
            used@ == old(used)@,
            str_views(old(used)@).no_duplicates(),
            tc@ == t@,
            forall|m: int| 0 <= m < k ==> used@[m]@ != tc@,
        decreases used.len() - k,
    {
        let uc = chars_of(used[k].as_str());
        if chars_eq(&uc, &tc) {
            proof {
                assert(str_views(used@)[k as int] == t@);
            }
            return ;
        }
        k = k + 1;
    }
    let ghost before = used@;
    used.push(t.clone());
    proof {
        let b = str_views(before);
        let a = str_views(used@);
        assert(a =~= b.push(t@));
        assert forall|x: int, y: int| 0 <= x < y < a.len() implies a[x] != a[y] by {
            if y == a.len() - 1 {
                assert(before[x]@ != tc@);
            }
        }
        assert forall|x: Seq<char>| a.contains(x) <==> (b.contains(x) || x == t@) by {
            if a.contains(x) && x != t@ {
                let m = choose|m: int| 0 <= m < a.len() && a[m] == x;
                assert(b[m] == x);
            }
            if b.contains(x) {
                let m = choose|m: int| 0 <= m < b.len() && b[m] == x;
                assert(a[m] == x);
            }
            if x == t@ {
                assert(a[a.len() - 1] == x);
            }
        }
    }
}

/// The tags used by any of the reviews, each once.
pub fn get_used_tags(reviews: &Vec<Review>) -> (r: Vec<String>)
    ensures
        str_views(r@).no_duplicates(),
        forall|t: Seq<char>|
            str_views(r@).contains(t) <==> exists|i: int|
                0 <= i < reviews@.len() && #[trigger] tags_of(reviews@[i]).contains(t),
{
    let mut used: Vec<String> = Vec::new();
    let mut i: usize = 0;
    while i < reviews.len()
        invariant
            i <= reviews.len(),
            str_views(used@).no_duplicates(),
            forall|t: Seq<char>|
                str_views(used@).contains(t) <==> exists|a: int|
                    0 <= a < i && #[trigger] tags_of(reviews@[a]).contains(t),
        decreases reviews.len() - i,
    {
        let ghost at_start = str_views(used@);
        match &reviews[i].book.tags {
            Some(ts) => {
                let mut j: usize = 0;
                while j < ts.len()
                    invariant
                        j <= ts.len(),
                        str_views(used@).no_duplicates(),
                        forall|t: Seq<char>|
                            #[trigger] str_views(used@).contains(t) <==> (at_start.contains(t)
                                || exists|b: int| 0 <= b < j && ts@[b]@ == t),
                    decreases ts.len() - j,
                {
                    let ghost before = str_views(used@);
                    push_unique(&mut used, &ts[j]);
                    proof {
                        assert forall|t: Seq<char>|
                            str_views(used@).contains(t) <==> (at_start.contains(t) || exists|
                                b: int,
                            | 0 <= b < j + 1 && ts@[b]@ == t) by {
                            if str_views(used@).contains(t) {
                                if t == ts@[j as int]@ {
                                    assert(0 <= j < j + 1 && ts@[j as int]@ == t);
                                } else if !at_start.contains(t) {
                                    assert(before.contains(t));
                                    let b = choose|b: int| 0 <= b < j && ts@[b]@ == t;
                                    assert(0 <= b < j + 1 && ts@[b]@ == t);
                                }
                            }
                            if exists|b: int| 0 <= b < j + 1 && ts@[b]@ == t {
                                let b = choose|b: int| 0 <= b < j + 1 && ts@[b]@ == t;
                                if b < j {
                                    assert(exists|b2: int| 0 <= b2 < j && ts@[b2]@ == t);
                                    assert(before.contains(t));
                                }
                            }
                            if at_start.contains(t) {
                                assert(before.contains(t));
                            }
                        }
                    }
                    j = j + 1;
                }
                proof {
                    assert(tags_of(reviews@[i as int]) == str_views(ts@));
                    assert forall|t: Seq<char>|
                        str_views(used@).contains(t) <==> exists|a: int|
                            0 <= a < i + 1 && #[trigger] tags_of(reviews@[a]).contains(t) by {
                        if str_views(used@).contains(t) {
                            if at_start.contains(t) {
                                let a = choose|a: int|
                                    0 <= a < i && #[trigger] tags_of(reviews@[a]).contains(t);
                                assert(0 <= a < i + 1 && tags_of(reviews@[a]).contains(t));
                            } else {
                                let b = choose|b: int| 0 <= b < j && ts@[b]@ == t;
                                assert(str_views(ts@)[b] == t);
                                assert(tags_of(reviews@[i as int]).contains(t));
                            }
                        }
                        if exists|a: int|
                            0 <= a < i + 1 && #[trigger] tags_of(reviews@[a]).contains(t) {
                            let a = choose|a: int|
                                0 <= a < i + 1 && #[trigger] tags_of(reviews@[a]).contains(t);
                            if a < i {
                                assert(at_start.contains(t));
                            } else {
                                let b = choose|b: int|
                                    0 <= b < str_views(ts@).len() && str_views(ts@)[b] == t;
                                assert(ts@[b]@ == t);
                            }
                        }
                    }
                }
            },
            None => {
                proof {
                    assert(tags_of(reviews@[i as int]) == Seq::<Seq<char>>::empty());
                    assert forall|t: Seq<char>|
                        str_views(used@).contains(t) <==> exists|a: int|
                            0 <= a < i + 1 && #[trigger] tags_of(reviews@[a]).contains(t) by {
                        if exists|a: int| 0 <= a < i + 1 && #[trigger] tags_of(reviews@[a]).contains(t) {
                            let a = choose|a: int| 0 <= a < i + 1 && #[trigger] tags_of(reviews@[a]).contains(t);
                            assert(a != i);
                        }
                    }
                }
            },
        }
        i = i + 1;
    }
    used
}

/// Sorting keeps exactly the elements that were there.
proof fn lemma_sorted_contains(s: Seq<Seq<char>>, t: Seq<char>)
    ensures
        s.sort_by(lex_order()).contains(t) <==> s.contains(t),
{
    lemma_lex_total_ordering();
    s.lemma_sort_by_ensures(lex_order());
    vstd::seq_lib::to_multiset_contains(s, t);
    vstd::seq_lib::to_multiset_contains(s.sort_by(lex_order()), t);
}

/// A candidate among the first ones is a candidate among all the known tags.
proof fn lemma_first_candidates(tags: Seq<Seq<char>>, input: Seq<char>, t: Seq<char>)
    requires
        first_candidates(tags, input).contains(t),
    ensures
        tags.contains(t),
        is_candidate(input, t),
{
    let c = tags.filter(candidate_pred(input));
    assert(c.contains(t)) by {
        if c.len() > MAX_SUGGESTIONS {
            let k = choose|k: int|
                0 <= k < first_candidates(tags, input).len() && first_candidates(tags, input)[k]
                    == t;
            assert(c[k] == t);
        }
    }
    let k = choose|k: int| 0 <= k < c.len() && c[k] == t;
    tags.lemma_filter_pred(candidate_pred(input), k);
    tags.lemma_filter_contains_rev(candidate_pred(input), t);
}

/// Every suggestion is one of the known tags.
pub proof fn law_suggestions_are_known_tags(tags: Seq<Seq<char>>, input: Seq<char>, t: Seq<char>)
    requires
        expected_suggestions(tags, input).contains(t),
    ensures
        tags.contains(t),
{
    if input.len() > 0 {
        lemma_sorted_contains(first_candidates(tags, input), t);
        lemma_first_candidates(tags, input, t);
    }
}

/// A tag that has been typed already is not suggested again.
pub proof fn law_typed_tags_are_not_suggested(tags: Seq<Seq<char>>, input: Seq<char>, t: Seq<char>)
    requires
        words(input).contains(t),
    ensures
        !expected_suggestions(tags, input).contains(t),
{
    if input.len() == 0 {
        assert(words(input) == Seq::<Seq<char>>::empty());
    } else {
        lemma_sorted_contains(first_candidates(tags, input), t);
        if first_candidates(tags, input).contains(t) {
            lemma_first_candidates(tags, input, t);
        }
    }
}

/// While a word is being typed, every suggestion contains it.
pub proof fn law_suggestions_contain_current_word(
    tags: Seq<Seq<char>>,
    input: Seq<char>,
    t: Seq<char>,
)
    requires
        current_word(input) is Some,
        expected_suggestions(tags, input).contains(t),
    ensures
        contains_seq(t, current_word(input)->0),
{
    lemma_sorted_contains(first_candidates(tags, input), t);
    lemma_first_candidates(tags, input, t);
}

/// Once something has been typed, at most fifteen tags are suggested.
pub proof fn law_at_most_fifteen_suggestions(tags: Seq<Seq<char>>, input: Seq<char>)
    requires
        input.len() > 0,
    ensures
        expected_suggestions(tags, input).len() <= MAX_SUGGESTIONS,
{
    lemma_lex_total_ordering();
    let f = first_candidates(tags, input);
    f.lemma_sort_by_ensures(lex_order());
    vstd::seq_lib::to_multiset_len(f);
    vstd::seq_lib::to_multiset_len(f.sort_by(lex_order()));
}

/// Once something has been typed, suggestions are listed in lexicographic order.
pub proof fn law_suggestions_are_sorted(tags: Seq<Seq<char>>, input: Seq<char>)
    requires
        input.len() > 0,
    ensures
        sorted_by(expected_suggestions(tags, input), lex_order()),
{
    lemma_lex_total_ordering();
    first_candidates(tags, input).lemma_sort_by_ensures(lex_order());
}

/// The prefix of a completion followed by the word being typed is the input:
/// accepting a completion replaces exactly the word being typed.
pub proof fn law_prefix_then_current_word_is_input(input: Seq<char>)
    ensures
        match current_word(input) {
            None => expected_prefix(input) == input,
            Some(w) => expected_prefix(input) + w == input,
        },
{
    if let Some(w) = current_word(input) {
        lemma_last_word_is_suffix(input);
        assert(input.take(input.len() - w.len()) + w =~= input);
    }
}


/// Once something has been typed, every known tag that has not been typed
/// and that contains the word being typed (if one is being typed) is
/// suggested, wherever it stands among the known tags, unless fifteen
/// suggestions are shown already.
pub proof fn law_every_candidate_is_suggested_unless_full(
    tags: Seq<Seq<char>>,
    input: Seq<char>,
    t: Seq<char>,
)
    requires
        input.len() > 0,
        tags.contains(t),
        !words(input).contains(t),
        !is_ws(input.last()) ==> contains_seq(t, words(input).last()),
    ensures
        expected_suggestions(tags, input).contains(t) || expected_suggestions(tags, input).len()
            == MAX_SUGGESTIONS,
{
    let p = candidate_pred(input);
    assert(p(t));
    let k = choose|k: int| 0 <= k < tags.len() && tags[k] == t;
    tags.lemma_filter_contains(p, k);
    let c = tags.filter(p);
    let f = first_candidates(tags, input);
    lemma_sorted_contains(f, t);
    lemma_lex_total_ordering();
    f.lemma_sort_by_ensures(lex_order());
    vstd::seq_lib::to_multiset_len(f);
    vstd::seq_lib::to_multiset_len(f.sort_by(lex_order()));
    if c.len() <= MAX_SUGGESTIONS {
        assert(f == c);
    } else {
        assert(f.len() == MAX_SUGGESTIONS);
    }
}

/// Before anything is typed, every known tag is suggested, in the order
/// the tags are known.
pub proof fn law_empty_input_suggests_every_tag(tags: Seq<Seq<char>>)
    ensures
        expected_suggestions(tags, Seq::<char>::empty()) == tags,
{
}

/// Accepting a completion keeps everything typed before the word being
/// typed, unchanged, and puts the chosen tag and a space in place of that
/// word (with a space before the tag if the earlier text does not end in
/// whitespace).
pub proof fn law_completion_keeps_earlier_tags(input: Seq<char>, choice: Seq<char>)
    ensures
        ({
            let typed = match current_word(input) {
                Some(w) => w.len(),
                None => 0,
            };
            let before = input.take(input.len() - typed);
            let gap = if before.len() == 0 || is_ws(before.last()) {
                Seq::<char>::empty()
            } else {
                seq![' ']
            };
            &&& 0 <= typed <= input.len()
            &&& completion_text(expected_prefix(input), choice) == before + gap + choice + seq![
                ' ',
            ]
        }),
{
    if let Some(w) = current_word(input) {
        lemma_last_word_is_suffix(input);
    } else {
        assert(input.take(input.len() as int) =~= input);
    }
    let before = expected_prefix(input);
    if before.len() == 0 {
        assert(Seq::<char>::empty() + Seq::<char>::empty() + choice + seq![' '] =~= choice
            + seq![' ']);
    } else if is_ws(before.last()) {
        assert(before + Seq::<char>::empty() + choice + seq![' '] =~= before + choice + seq![' ']);
    }
}

/// Every tag of every review's book is collected, whether or not the book
/// has a date read, and nothing else is: `used` stands for what
/// `get_used_tags` gives.
pub proof fn law_used_tags_are_the_books_tags(reviews: Seq<Review>, used: Seq<Seq<char>>)
    requires
        forall|t: Seq<char>|
            used.contains(t) <==> exists|i: int|
                0 <= i < reviews.len() && #[trigger] tags_of(reviews[i]).contains(t),
    ensures
        forall|i: int, k: int|
            0 <= i < reviews.len() && reviews[i].book.tags is Some && 0 <= k
                < reviews[i].book.tags->0.len() ==> used.contains(
                #[trigger] reviews[i].book.tags->0@[k]@,
            ),
        forall|t: Seq<char>|
            used.contains(t) ==> exists|i: int, k: int|
                0 <= i < reviews.len() && reviews[i].book.tags is Some && 0 <= k
                    < reviews[i].book.tags->0.len() && #[trigger] reviews[i].book.tags->0@[k]@ == t,
{
    assert forall|i: int, k: int|
        0 <= i < reviews.len() && reviews[i].book.tags is Some && 0 <= k
            < reviews[i].book.tags->0.len() implies used.contains(
        #[trigger] reviews[i].book.tags->0@[k]@,
    ) by {
        let ts = reviews[i].book.tags->0;
        assert(str_views(ts@)[k] == ts@[k]@);
        assert(tags_of(reviews[i]).contains(ts@[k]@));
    }
    assert forall|t: Seq<char>| used.contains(t) implies exists|i: int, k: int|
        0 <= i < reviews.len() && reviews[i].book.tags is Some && 0 <= k
            < reviews[i].book.tags->0.len() && #[trigger] reviews[i].book.tags->0@[k]@ == t by {
        let i = choose|i: int| 0 <= i < reviews.len() && #[trigger] tags_of(reviews[i]).contains(t);
        let ts = reviews[i].book.tags->0;
        let k = choose|k: int| 0 <= k < str_views(ts@).len() && str_views(ts@)[k] == t;
        assert(reviews[i].book.tags->0@[k]@ == t);
    }
}

} // verus!
