//! Decisions made while building the HTML pages of the site: the order in
//! which reviews are listed, which pages to rebuild, which stale pages to
//! remove, how a review file is split into front matter and text, and where a
//! cover goes in its square thumbnail.
use vstd::prelude::*;
use vstd::relations::sorted_by;
use crate::models::Review;
use crate::strings::{
    chars_eq, chars_of, lemma_lex_antisymmetric, lemma_lex_reflexive, lemma_lex_total,
    lemma_lex_transitive, lemma_split_on_first, lex_le, lex_le_exec, occurs_at, occurs_at_exec, replace_all,
    replace_chars, split_chars, split_on, str_views, string_from_chars, sub_chars,
};

verus! {

/// A full build rebuilds every page; an incremental build skips the review
/// pages whose source has not changed since the page was written.
#[derive(Debug, PartialEq, Eq, Structural)]
pub enum HtmlRenderMode {
    Incremental,
    Full,
}

/// `None` sorts before any number.
pub open spec fn order_le(a: Option<usize>, b: Option<usize>) -> bool {
    match (a, b) {
        (None, _) => true,
        (Some(_), None) => false,
        (Some(x), Some(y)) => x <= y,
    }
}

/// The order in which reviews are sorted, oldest first: books read at another
/// time (without review metadata) come first, by publication year; then the
/// others by the date they were read, and by their order within a date.
pub open spec fn review_le(a: Review, b: Review) -> bool {
    match (a.review, b.review) {
        (None, None) => a.book.publication_year <= b.book.publication_year,
        (None, Some(_)) => true,
        (Some(_), None) => false,
        (Some(x), Some(y)) => if x.date_read@ == y.date_read@ {
            order_le(x.date_order, y.date_order)
        } else {
            lex_le(x.date_read@, y.date_read@)
        },
    }
}

pub open spec fn review_order() -> spec_fn(Review, Review) -> bool {
    |a: Review, b: Review| review_le(a, b)
}

/// Neither review sorts before the other.
pub open spec fn same_place(a: Review, b: Review) -> bool {
    review_le(a, b) && review_le(b, a)
}

pub open spec fn same_place_as(x: Review) -> spec_fn(Review) -> bool {
    |r: Review| same_place(x, r)
}

/// `sorted` is what a stable sort by `review_le` makes of `original`: it is
/// sorted, and the reviews of each place keep their relative order.
pub open spec fn is_stable_sort(sorted: Seq<Review>, original: Seq<Review>) -> bool {
    &&& sorted_by(sorted, review_order())
    &&& sorted.to_multiset() == original.to_multiset()
    &&& forall|x: Review| #[trigger]
        sorted.filter(same_place_as(x)) == original.filter(same_place_as(x))
}

pub proof fn lemma_review_le_total(a: Review, b: Review)
    ensures
        review_le(a, b) || review_le(b, a),
{
    if let (Some(x), Some(y)) = (a.review, b.review) {
        lemma_lex_total(x.date_read@, y.date_read@);
    }
}

pub proof fn lemma_review_le_reflexive(a: Review)
    ensures
        review_le(a, a),
{
    if let Some(x) = a.review {
        lemma_lex_reflexive(x.date_read@);
    }
}

pub proof fn lemma_review_le_transitive(a: Review, b: Review, c: Review)
    requires
        review_le(a, b),
        review_le(b, c),
    ensures
        review_le(a, c),
{
    if let (Some(x), Some(y), Some(z)) = (a.review, b.review, c.review) {
        let (dx, dy, dz) = (x.date_read@, y.date_read@, z.date_read@);
        if dx == dy && dy == dz {
        } else if dx == dy {
            assert(lex_le(dx, dz));
        } else if dy == dz {
            assert(lex_le(dx, dz));
        } else {
            lemma_lex_transitive(dx, dy, dz);
            if dx == dz {
                lemma_lex_antisymmetric(dx, dy);
            }
        }
    }
}

fn order_le_exec(a: Option<usize>, b: Option<usize>) -> (r: bool)
    ensures
        r == order_le(a, b),
{
    match (a, b) {
        (None, _) => true,
        (Some(_), None) => false,
        (Some(x), Some(y)) => x <= y,
    }
}

/// Whether `a` may come before `b` in the oldest-first order.
pub fn review_le_exec(a: &Review, b: &Review) -> (r: bool)
    ensures
        r == review_le(*a, *b),
{
    match (&a.review, &b.review) {
        (None, None) => a.book.publication_year <= b.book.publication_year,
        (None, Some(_)) => true,
        (Some(_), None) => false,
        (Some(x), Some(y)) => {
            let dx = chars_of(x.date_read.as_str());
            let dy = chars_of(y.date_read.as_str());
            if chars_eq(&dx, &dy) {
                order_le_exec(x.date_order, y.date_order)
            } else {
                lex_le_exec(&dx, &dy)
            }
        },
    }
}

proof fn lemma_filter_none<A>(s: Seq<A>, p: spec_fn(A) -> bool)
    requires
        forall|k: int| 0 <= k < s.len() ==> !p(s[k]),
    ensures
        s.filter(p) == Seq::<A>::empty(),
    decreases s.len(),
{
    reveal(Seq::filter);
    if s.len() > 0 {
        lemma_filter_none(s.drop_last(), p);
    }
}

/// Sorts reviews oldest first with a stable sort (`slice::sort_by`).
pub fn sort_reviews(reviews: Vec<Review>) -> (r: Vec<Review>)
    ensures
        is_stable_sort(r@, reviews@),
{
    let ghost orig = reviews@;
    let ghost f = review_order();
    let mut rest = reviews;
    let mut out: Vec<Review> = Vec::new();
    let mut i: usize = 0;
    let n = rest.len();
    proof {
        assert forall|x: Review| #[trigger]
            out@.filter(same_place_as(x)) == orig.take(0).filter(same_place_as(x)) by {
            reveal(Seq::filter);
            assert(orig.take(0) =~= Seq::<Review>::empty());
        }
        assert(orig.take(0) =~= Seq::<Review>::empty());
        assert(orig.skip(0) =~= orig);
    }
    while rest.len() > 0
        invariant
            f == review_order(),
            i + rest.len() == orig.len(),
            orig.len() <= usize::MAX,
            rest@ == orig.skip(i as int),
            sorted_by(out@, f),
            out@.to_multiset() == orig.take(i as int).to_multiset(),
            forall|x: Review| #[trigger]
                out@.filter(same_place_as(x)) == orig.take(i as int).filter(same_place_as(x)),
        decreases rest.len(),
    {
        let x = rest.remove(0);
        let mut p: usize = 0;
        while p < out.len()
            invariant
                p <= out.len(),
                forall|k: int| 0 <= k < p ==> review_le(#[trigger] out@[k], x),
            ensures
                p <= out.len(),
                forall|k: int| 0 <= k < p ==> review_le(#[trigger] out@[k], x),
                p < out.len() ==> !review_le(out@[p as int], x),
            decreases out.len() - p,
        {
            if !review_le_exec(&out[p], &x) {
                break;
            }
            p = p + 1;
        }
        let ghost old_out = out@;
        proof {
            assert forall|k: int| p <= k < old_out.len() implies !review_le(
                #[trigger] old_out[k],
                x,
            ) by {
                if k > p {
                    assert(f(old_out[p as int], old_out[k]));
                    if review_le(old_out[k], x) {
                        lemma_review_le_transitive(old_out[p as int], old_out[k], x);
                    }
                }
            }
            assert forall|k: int| p <= k < old_out.len() implies review_le(
                x,
                #[trigger] old_out[k],
            ) by {
                lemma_review_le_total(x, old_out[k]);
            }
        }
        out.insert(p, x);
        proof {
            let nv = out@;
            assert(nv =~= old_out.insert(p as int, x));
            assert(orig[i as int] == x);
            assert(orig.take(i + 1) =~= orig.take(i as int).push(x));
            assert(orig.skip(i + 1) =~= rest@);
            assert forall|a: int, b: int| 0 <= a < b < nv.len() implies #[trigger] f(
                nv[a],
                nv[b],
            ) by {
                if b < p {
                    assert(f(old_out[a], old_out[b]));
                } else if b == p {
                } else if a == p {
                } else if a < p {
                    lemma_review_le_transitive(old_out[a], x, old_out[b - 1]);
                } else {
                    assert(f(old_out[a - 1], old_out[b - 1]));
                }
            }
            vstd::seq_lib::to_multiset_insert(old_out, p as int, x);
            vstd::seq_lib::to_multiset_build(orig.take(i as int), x);
            let left = old_out.take(p as int);
            let right = old_out.skip(p as int);
            assert(old_out =~= left + right);
            assert(nv =~= left + seq![x] + right);
            assert forall|y: Review| #[trigger]
                nv.filter(same_place_as(y)) == orig.take(i + 1).filter(same_place_as(y)) by {
                let pr = same_place_as(y);
                Seq::filter_distributes_over_add(left, right, pr);
                Seq::filter_distributes_over_add(left + seq![x], right, pr);
                Seq::filter_distributes_over_add(left, seq![x], pr);
                orig.take(i as int).lemma_filter_push(x, pr);
                assert(seq![x] =~= Seq::<Review>::empty().push(x));
                Seq::<Review>::empty().lemma_filter_push(x, pr);
                assert(Seq::<Review>::empty().filter(pr) =~= Seq::<Review>::empty()) by {
                    reveal(Seq::filter);
                }
                if pr(x) {
                    assert forall|k: int| 0 <= k < right.len() implies !pr(right[k]) by {
                        assert(right[k] == old_out[p + k]);
                        assert(!review_le(old_out[p + k], x));
                        if same_place(y, right[k]) {
                            lemma_review_le_transitive(right[k], y, x);
                        }
                    }
                    lemma_filter_none(right, pr);
                    assert(nv.filter(pr) =~= left.filter(pr) + seq![x]);
                    assert(old_out.filter(pr) =~= left.filter(pr));
                } else {
                    assert(nv.filter(pr) =~= left.filter(pr) + right.filter(pr));
                }
            }
        }
        i = i + 1;
    }
    proof {
        assert(orig.take(orig.len() as int) =~= orig);
    }
    out
}

/// Orders reviews for listing on the site, newest first: a stable sort
/// oldest first, then reversed.
pub fn order_reviews(reviews: Vec<Review>) -> (r: Vec<Review>)
    ensures
        is_stable_sort(r@.reverse(), reviews@),
{
    let mut sorted = sort_reviews(reviews);
    let ghost s = sorted@;
    let mut out: Vec<Review> = Vec::new();
    while sorted.len() > 0
        invariant
            s.len() == sorted.len() + out.len(),
            sorted@ == s.take(sorted.len() as int),
            out@ == s.skip(sorted.len() as int).reverse(),
        decreases sorted.len(),
    {
        let x = sorted.pop().unwrap();
        out.push(x);
        assert(out@ =~= s.skip(sorted.len() as int).reverse());
        assert(sorted@ =~= s.take(sorted.len() as int));
    }
    proof {
        assert(s.skip(0) =~= s);
        assert(out@.reverse() =~= s);
    }
    out
}

/// Whether a review gets a page of its own: books read at another time
/// (without review metadata) only appear in the listings.
pub fn has_review_page(r: &Review) -> (b: bool)
    ensures
        b == r.review is Some,
{
    r.review.is_some()
}

/// Whether to write a review's page: always in a full build; in an
/// incremental build unless the page is known to be newer than its source
/// (`None`: the modification times could not be compared).
pub fn should_write_page(mode: &HtmlRenderMode, source_is_newer: Option<bool>) -> (r: bool)
    ensures
        r == (*mode == HtmlRenderMode::Full || source_is_newer != Some(false)),
{
    match mode {
        HtmlRenderMode::Full => true,
        HtmlRenderMode::Incremental => match source_is_newer {
            Some(b) => b,
            None => true,
        },
    }
}

/// The HTML files found in the output that this build did not write, and so
/// are left over from an earlier version of the site.
pub fn stale_pages(html_files: &Vec<String>, written: &Vec<String>) -> (r: Vec<String>)
    ensures
        str_views(r@) == str_views(html_files@).filter(
            |f: Seq<char>| !str_views(written@).contains(f),
        ),
{
    let ghost keep = |f: Seq<char>| !str_views(written@).contains(f);
    let ghost all = str_views(html_files@);
    let mut out: Vec<String> = Vec::new();
    let mut i: usize = 0;
    assert(str_views(out@) =~= all.take(0).filter(keep)) by {
        reveal(Seq::filter);
    }
    while i < html_files.len()
        invariant
            i <= html_files.len(),
            all == str_views(html_files@),
            keep == (|f: Seq<char>| !str_views(written@).contains(f)),
            str_views(out@) == all.take(i as int).filter(keep),
        decreases html_files.len() - i,
    {
        let fc = chars_of(html_files[i].as_str());
        let mut found = false;
        let mut j: usize = 0;
        while j < written.len()
            invariant
                j <= written.len(),
                found == exists|k: int| 0 <= k < j && written@[k]@ == fc@,
            decreases written.len() - j,
        {
            let wc = chars_of(written[j].as_str());
            if chars_eq(&wc, &fc) {
                found = true;
            }
            j = j + 1;
        }
        proof {
            if found {
                let k = choose|k: int| 0 <= k < j && written@[k]@ == fc@;
                assert(str_views(written@)[k] == fc@);
            }
            if str_views(written@).contains(fc@) {
                let k = choose|k: int|
                    0 <= k < str_views(written@).len() && str_views(written@)[k] == fc@;
                assert(written@[k]@ == fc@);
            }
            assert(all.take(i + 1) =~= all.take(i as int).push(fc@));
            all.take(i as int).lemma_filter_push(fc@, keep);
        }
        let ghost before = out@;
        if !found {
            out.push(html_files[i].clone());
            assert(str_views(out@) =~= str_views(before).push(fc@));
        }
        i = i + 1;
    }
    assert(all.take(html_files.len() as int) =~= all);
    out
}

/// Splits the text of a review file into its YAML front matter, between
/// the first and second `---`, and its Markdown text, everything after the
/// second `---` (so a `---` in the text itself is kept); `None` if there are
/// fewer than two `---`.
pub fn split_front_matter(md: &str) -> (r: Option<(String, String)>)
    ensures
        r is Some <==> split_on(md@, "---"@).len() >= 3,
        r matches Some((front, text)) ==> {
            let before = split_on(md@, "---"@)[0];
            &&& front@ == split_on(md@, "---"@)[1]
            &&& md@ == before + "---"@ + front@ + "---"@ + text@
            &&& text@ == md@.skip((before.len() + front@.len() + 6) as int)
        },
{
    let m = chars_of(md);
    let sep = chars_of("---");
    proof {
        reveal_strlit("---");
    }
    let parts = split_chars(&m, &sep);
    if parts.len() < 3 {
        return None;
    }
    proof {
        let s = md@;
        let k = "---"@;
        lemma_split_on_first(s, k);
        let p0 = split_on(s, k)[0];
        let rest = s.skip((p0.len() + 3) as int);
        lemma_split_on_first(rest, k);
        let p1 = split_on(rest, k)[0];
        assert(p1 == split_on(s, k)[1]);
        assert(parts@[0]@ == p0 && parts@[1]@ == p1);
        assert(rest.len() == s.len() - (p0.len() + 3));
        assert(p0.len() + p1.len() + 6 <= s.len());
        assert(m@.len() == s.len());
        assert(rest.skip((p1.len() + 3) as int) =~= s.skip((p0.len() + p1.len() + 6) as int));
        assert(s =~= p0 + k + p1 + k + s.skip((p0.len() + p1.len() + 6) as int));
    }
    let front_start = parts[0].len();
    let front_len = parts[1].len();
    assert(front_start + front_len + 6 <= m.len());
    let start = front_start + front_len + 6;
    let front = string_from_chars(&parts[1]);
    let text_chars = sub_chars(&m, start, m.len());
    let text = string_from_chars(&text_chars);
    Some((front, text))
}

/// The slug of a review: its file name with ".md" removed.
pub fn slug_from_file_name(name: &str) -> (r: String)
    ensures
        r@ == replace_all(name@, ".md"@, seq![]),
{
    let n = chars_of(name);
    let ext = chars_of(".md");
    let nothing: Vec<char> = Vec::new();
    proof {
        reveal_strlit(".md");
    }
    assert(nothing@ =~= Seq::<char>::empty());
    let s = replace_chars(&n, &ext, &nothing);
    string_from_chars(&s)
}

/// The side of a square thumbnail, in pixels (240px, doubled for retina screens).
pub const THUMBNAIL_SIZE: u32 = 480;

/// Where a cover that fits in the square goes so that it is centred: across
/// for a portrait cover, down for a landscape one.
pub fn square_offsets(width: u32, height: u32) -> (r: (u32, u32))
    requires
        width <= THUMBNAIL_SIZE,
        height <= THUMBNAIL_SIZE,
    ensures
        width < height ==> r.0 == (THUMBNAIL_SIZE - width) / 2 && r.1 == 0,
        width > height ==> r.0 == 0 && r.1 == (THUMBNAIL_SIZE - height) / 2,
        width == height ==> r.0 == 0 && r.1 == 0,
{
    if width < height {
        ((THUMBNAIL_SIZE - width) / 2, 0)
    } else if width > height {
        (0, (THUMBNAIL_SIZE - height) / 2)
    } else {
        (0, 0)
    }
}

/// The site lists reviews newest first: a review never comes before one
/// that sorts after it.
pub proof fn law_listed_newest_first(listed: Seq<Review>, original: Seq<Review>, i: int, j: int)
    requires
        is_stable_sort(listed.reverse(), original),
        0 <= i < j < listed.len(),
    ensures
        review_le(listed[j], listed[i]),
{
    let s = listed.reverse();
    let n = listed.len() as int;
    assert(s[n - 1 - j] == listed[j]);
    assert(s[n - 1 - i] == listed[i]);
    assert(review_order()(s[n - 1 - j], s[n - 1 - i]));
}

/// How two reviews of the listing are placed (`listed` stands for what
/// `order_reviews` gives): for a review listed before another, the later one
/// is undated if the earlier one is; two dated reviews with different dates
/// read are listed by their whole date read, later dates first; with the
/// same date read, a larger place in the day's order comes first (no place
/// counts as the smallest); and undated books are listed by publication
/// year, later years first.
pub proof fn law_listing_order(listed: Seq<Review>, original: Seq<Review>, i: int, j: int)
    requires
        is_stable_sort(listed.reverse(), original),
        0 <= i < j < listed.len(),
    ensures
        listed[i].review is None ==> listed[j].review is None,
        (listed[i].review, listed[j].review) matches (Some(a), Some(b)) ==> {
            &&& a.date_read@ != b.date_read@ ==> lex_le(b.date_read@, a.date_read@)
                && !lex_le(a.date_read@, b.date_read@)
            &&& a.date_read@ == b.date_read@ ==> match (a.date_order, b.date_order) {
                (_, None) => true,
                (None, Some(_)) => false,
                (Some(x), Some(y)) => y <= x,
            }
        },
        listed[i].review is None && listed[j].review is None
            ==> listed[j].book.publication_year <= listed[i].book.publication_year,
{
    law_listed_newest_first(listed, original, i, j);
    if let (Some(a), Some(b)) = (listed[i].review, listed[j].review) {
        if a.date_read@ != b.date_read@ && lex_le(a.date_read@, b.date_read@) {
            lemma_lex_antisymmetric(a.date_read@, b.date_read@);
        }
    }
}

/// Books read at another time (without review metadata) are listed after
/// every book with a date.
pub proof fn law_undated_reviews_listed_last(
    listed: Seq<Review>,
    original: Seq<Review>,
    i: int,
    j: int,
)
    requires
        is_stable_sort(listed.reverse(), original),
        0 <= i < j < listed.len(),
        listed[i].review is None,
    ensures
        listed[j].review is None,
{
    law_listed_newest_first(listed, original, i, j);
}

proof fn lemma_filter_drop_first<A>(s: Seq<A>, p: spec_fn(A) -> bool)
    requires
        s.len() > 0,
    ensures
        p(s[0]) ==> s.filter(p) == seq![s[0]] + s.drop_first().filter(p),
        !p(s[0]) ==> s.filter(p) == s.drop_first().filter(p),
{
    assert(s =~= seq![s[0]] + s.drop_first());
    s.drop_first().lemma_filter_prepend(s[0], p);
    assert(Seq::<A>::empty() + s.drop_first().filter(p) =~= s.drop_first().filter(p));
}

proof fn lemma_sorted_same_places_equal(a: Seq<Review>, b: Seq<Review>)
    requires
        sorted_by(a, review_order()),
        sorted_by(b, review_order()),
        a.len() == b.len(),
        forall|x: Review| #[trigger] a.filter(same_place_as(x)) == b.filter(same_place_as(x)),
    ensures
        a == b,
    decreases a.len(),
{
    if a.len() == 0 {
        assert(a =~= b);
    } else {
        let x = a[0];
        let p = same_place_as(x);
        lemma_review_le_reflexive(x);
        lemma_filter_drop_first(a, p);
        assert(a.filter(p)[0] == x);
        assert(b.filter(p).len() > 0);
        // the first of b in x's place is b's first element
        let bf = b.filter(p);
        assert(b.filter(p).contains(bf[0]));
        b.lemma_filter_contains_rev(p, bf[0]);
        let k = choose|k: int| 0 <= k < b.len() && b[k] == bf[0];
        b.lemma_filter_pred(p, 0);
        // b[0] sorts no later than x, and x no later than b[0]
        assert(a.filter(p) == b.filter(p));
        assert(same_place(x, b[k]));
        assert(review_le(b[0], b[k])) by {
            if k > 0 {
                assert(review_order()(b[0], b[k]));
            } else {
                lemma_review_le_reflexive(b[0]);
            }
        }
        // b[0] is somewhere in a, so x sorts no later than it
        let q = same_place_as(b[0]);
        lemma_review_le_reflexive(b[0]);
        lemma_filter_drop_first(b, q);
        assert(b.filter(q)[0] == b[0]);
        assert(a.filter(q) == b.filter(q));
        assert(a.filter(q).contains(b[0]));
        a.lemma_filter_contains_rev(q, b[0]);
        let m = choose|m: int| 0 <= m < a.len() && a[m] == b[0];
        assert(review_le(x, b[0])) by {
            if m > 0 {
                assert(review_order()(a[0], a[m]));
            }
        }
        lemma_review_le_transitive(b[0], b[k], x);
        assert(p(b[0]));
        lemma_filter_drop_first(b, p);
        assert(x == b[0]);
        assert forall|y: Review| #[trigger]
            a.drop_first().filter(same_place_as(y)) == b.drop_first().filter(same_place_as(y)) by {
            let r = same_place_as(y);
            lemma_filter_drop_first(a, r);
            lemma_filter_drop_first(b, r);
            assert(a.filter(r) == b.filter(r));
            if r(x) {
                assert(a.drop_first().filter(r) =~= a.filter(r).drop_first());
                assert(b.drop_first().filter(r) =~= b.filter(r).drop_first());
            }
        }
        assert forall|i: int, j: int| 0 <= i < j < a.drop_first().len() implies #[trigger] review_order()(
            a.drop_first()[i],
            a.drop_first()[j],
        ) by {
            assert(review_order()(a[i + 1], a[j + 1]));
        }
        assert forall|i: int, j: int| 0 <= i < j < b.drop_first().len() implies #[trigger] review_order()(
            b.drop_first()[i],
            b.drop_first()[j],
        ) by {
            assert(review_order()(b[i + 1], b[j + 1]));
        }
        lemma_sorted_same_places_equal(a.drop_first(), b.drop_first());
        assert forall|i: int| 0 <= i < a.len() implies a[i] == b[i] by {
            if i > 0 {
                assert(a[i] == a.drop_first()[i - 1]);
                assert(b[i] == b.drop_first()[i - 1]);
            }
        }
        assert(a =~= b);
    }
}

/// The order of the listing is fully determined: any two stable sorts of
/// the same reviews are the same sequence.
pub proof fn law_stable_sort_is_unique(a: Seq<Review>, b: Seq<Review>, original: Seq<Review>)
    requires
        is_stable_sort(a, original),
        is_stable_sort(b, original),
    ensures
        a == b,
{
    vstd::seq_lib::to_multiset_len(a);
    vstd::seq_lib::to_multiset_len(b);
    lemma_sorted_same_places_equal(a, b);
}

#[verifier::external_type_specification]
#[verifier::external_body]
pub struct ExHTMLMinifierError(html_minifier::HTMLMinifierError);

/// The minified form of an HTML page, where the minifier accepts the page.
pub uninterp spec fn minified_html(html: Seq<char>) -> Option<Seq<u8>>;

/// Minifies a page with `html_minifier`: `HTMLMinifier::new()`, `digest` of
/// the whole page, then `get_html`.  Claimed: whether it succeeds, and the
/// bytes it gives, are `minified_html` of the page, a function of the page
/// alone.
#[verifier::external_body]
fn minify_with_html_minifier(html: &str) -> (r: Result<Vec<u8>, html_minifier::HTMLMinifierError>)
    ensures
        r is Ok <==> minified_html(html@) is Some,
        r matches Ok(v) ==> v@ == minified_html(html@)->0,
{
    let mut minifier = html_minifier::HTMLMinifier::new();
    minifier.digest(html)?;
    Ok(minifier.get_html().to_vec())
}

/// The bytes written for a rendered page: the page minified.
pub fn minify_html(html: &str) -> (r: Result<Vec<u8>, html_minifier::HTMLMinifierError>)
    ensures
        r is Ok <==> minified_html(html@) is Some,
        r matches Ok(v) ==> v@ == minified_html(html@)->0,
{
    minify_with_html_minifier(html)
}

} // verus!
