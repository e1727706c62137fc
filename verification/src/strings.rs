//! Character-level models of the string operations the site generator uses,
//! and executable versions of them that are proved to follow the models.
use vstd::prelude::*;
use vstd::relations::{sorted_by, total_ordering};

verus! {

/// The characters with the Unicode `White_Space` property, which is what
/// `char::is_whitespace` (and so `str::trim` and `str::split_whitespace`) test.
pub open spec fn is_ws(c: char) -> bool {
    ||| ('\u{9}' <= c && c <= '\u{d}')
    ||| c == ' '
    ||| c == '\u{85}'
    ||| c == '\u{a0}'
    ||| c == '\u{1680}'
    ||| ('\u{2000}' <= c && c <= '\u{200a}')
    ||| c == '\u{2028}'
    ||| c == '\u{2029}'
    ||| c == '\u{202f}'
    ||| c == '\u{205f}'
    ||| c == '\u{3000}'
}

/// Executable test for Unicode whitespace.
pub fn is_whitespace(c: char) -> (b: bool)
    ensures
        b == is_ws(c),
{
    ('\u{9}' <= c && c <= '\u{d}') || c == ' ' || c == '\u{85}' || c == '\u{a0}' || c == '\u{1680}'
        || ('\u{2000}' <= c && c <= '\u{200a}') || c == '\u{2028}' || c == '\u{2029}' || c
        == '\u{202f}' || c == '\u{205f}' || c == '\u{3000}'
}

/// `s` with its leading whitespace removed.
pub open spec fn trim_start(s: Seq<char>) -> Seq<char>
    decreases s.len(),
{
    if s.len() > 0 && is_ws(s[0]) {
        trim_start(s.drop_first())
    } else {
        s
    }
}

/// `s` with its trailing whitespace removed.
pub open spec fn trim_end(s: Seq<char>) -> Seq<char>
    decreases s.len(),
{
    if s.len() > 0 && is_ws(s.last()) {
        trim_end(s.drop_last())
    } else {
        s
    }
}

/// `s` with leading and trailing whitespace removed, as `str::trim` does.
pub open spec fn trim(s: Seq<char>) -> Seq<char> {
    trim_end(trim_start(s))
}

/// The whitespace-separated words of `s`, as `str::split_whitespace` yields
/// them: each word is a maximal run of non-whitespace characters.
pub open spec fn words(s: Seq<char>) -> Seq<Seq<char>>
    decreases s.len(),
{
    if s.len() == 0 {
        seq![]
    } else {
        let prev = words(s.drop_last());
        let c = s.last();
        if is_ws(c) {
            prev
        } else if s.len() >= 2 && !is_ws(s[s.len() - 2]) && prev.len() > 0 {
            prev.update(prev.len() - 1, prev.last().push(c))
        } else {
            prev.push(seq![c])
        }
    }
}

/// `needle` occurs as a contiguous piece of `hay` (`str::contains`).
pub open spec fn occurs_at(hay: Seq<char>, needle: Seq<char>, i: int) -> bool {
    0 <= i && i + needle.len() <= hay.len() && hay.subrange(i, i + needle.len()) == needle
}

pub open spec fn contains_seq(hay: Seq<char>, needle: Seq<char>) -> bool {
    exists|i: int| occurs_at(hay, needle, i)
}

/// Lexicographic order on character sequences.  On strings this is the order
/// of `String`'s `Ord`, since UTF-8 preserves the order of code points.
pub open spec fn lex_le(a: Seq<char>, b: Seq<char>) -> bool
    decreases a.len(),
{
    if a.len() == 0 {
        true
    } else if b.len() == 0 {
        false
    } else if a[0] != b[0] {
        a[0] < b[0]
    } else {
        lex_le(a.drop_first(), b.drop_first())
    }
}

pub open spec fn lex_order() -> spec_fn(Seq<char>, Seq<char>) -> bool {
    |a: Seq<char>, b: Seq<char>| lex_le(a, b)
}

/// Every occurrence of `pat` in `s` (taken left to right, without overlaps)
/// replaced by `rep`, as `str::replace` does.  `pat` is non-empty.
pub open spec fn replace_all(s: Seq<char>, pat: Seq<char>, rep: Seq<char>) -> Seq<char>
    decreases s.len(),
{
    if s.len() == 0 || pat.len() == 0 {
        s
    } else if pat.len() <= s.len() && s.take(pat.len() as int) == pat {
        rep + replace_all(s.skip(pat.len() as int), pat, rep)
    } else {
        seq![s[0]] + replace_all(s.drop_first(), pat, rep)
    }
}

/// The pieces of `s` between occurrences of the non-empty separator `sep`, as
/// `str::split` yields them (there is always at least one piece).
pub open spec fn split_on(s: Seq<char>, sep: Seq<char>) -> Seq<Seq<char>>
    decreases s.len(),
{
    if sep.len() == 0 || s.len() == 0 {
        seq![s]
    } else if sep.len() <= s.len() && s.take(sep.len() as int) == sep {
        seq![Seq::<char>::empty()] + split_on(s.skip(sep.len() as int), sep)
    } else {
        let rest = split_on(s.drop_first(), sep);
        rest.update(0, seq![s[0]] + rest[0])
    }
}

pub proof fn lemma_split_on_nonempty(s: Seq<char>, sep: Seq<char>)
    ensures
        split_on(s, sep).len() >= 1,
    decreases s.len(),
{
    if sep.len() == 0 || s.len() == 0 {
    } else if sep.len() <= s.len() && s.take(sep.len() as int) == sep {
        lemma_split_on_nonempty(s.skip(sep.len() as int), sep);
    } else {
        lemma_split_on_nonempty(s.drop_first(), sep);
    }
}

/// Where text splits into at least two pieces, it is its first piece, the
/// separator, and then the rest of the text, which splits into the other
/// pieces.
pub proof fn lemma_split_on_first(s: Seq<char>, sep: Seq<char>)
    requires
        split_on(s, sep).len() >= 2,
    ensures
        ({
            let p0 = split_on(s, sep)[0];
            let rest = s.skip((p0.len() + sep.len()) as int);
            &&& p0.len() + sep.len() <= s.len()
            &&& s == p0 + sep + rest
            &&& split_on(rest, sep) == split_on(s, sep).drop_first()
        }),
    decreases s.len(),
{
    if sep.len() == 0 || s.len() == 0 {
    } else if sep.len() <= s.len() && s.take(sep.len() as int) == sep {
        let rest = s.skip(sep.len() as int);
        assert(split_on(s, sep)[0] =~= Seq::<char>::empty());
        assert(s =~= Seq::<char>::empty() + sep + rest);
        assert(split_on(s, sep).drop_first() =~= split_on(rest, sep));
    } else {
        let t = s.drop_first();
        let r = split_on(t, sep);
        lemma_split_on_nonempty(t, sep);
        assert(split_on(s, sep) == r.update(0, seq![s[0]] + r[0]));
        lemma_split_on_first(t, sep);
        let q0 = r[0];
        let p0 = seq![s[0]] + q0;
        assert(split_on(s, sep)[0] == p0);
        assert(s.skip((p0.len() + sep.len()) as int) =~= t.skip((q0.len() + sep.len()) as int));
        assert(s =~= seq![s[0]] + t);
        assert(s =~= p0 + sep + t.skip((q0.len() + sep.len()) as int));
        assert(split_on(s, sep).drop_first() =~= r.drop_first());
    }
}

/// The characters of a string slice, one by one.
pub fn chars_of(s: &str) -> (v: Vec<char>)
    ensures
        v@ == s@,
{
    let n = s.unicode_len();
    let mut v: Vec<char> = Vec::new();
    let mut i: usize = 0;
    while i < n
        invariant
            n == s@.len(),
            i <= n,
            v@ == s@.take(i as int),
        decreases n - i,
    {
        let c = s.get_char(i);
        v.push(c);
        i = i + 1;
        assert(v@ =~= s@.take(i as int));
    }
    assert(v@ =~= s@);
    v
}

/// Collects characters into a `String` (`Iterator::collect`).
#[verifier::external_body]
pub(crate) fn string_from_chars(v: &Vec<char>) -> (s: String)
    ensures
        s@ == v@,
{
    v.iter().collect()
}

/// Builds a `String` from a string slice (`str::to_string`).
pub fn string_of(s: &str) -> (r: String)
    ensures
        r@ == s@,
{
    let v = chars_of(s);
    string_from_chars(&v)
}

/// Whether two character sequences are equal.
pub fn chars_eq(a: &Vec<char>, b: &Vec<char>) -> (r: bool)
    ensures
        r == (a@ == b@),
{
    if a.len() != b.len() {
        return false;
    }
    let mut i: usize = 0;
    while i < a.len()
        invariant
            a.len() == b.len(),
            i <= a.len(),
            forall|j: int| 0 <= j < i ==> a@[j] == b@[j],
        decreases a.len() - i,
    {
        if a[i] != b[i] {
            return false;
        }
        i = i + 1;
    }
    assert(a@ =~= b@);
    true
}

/// The subrange `v[lo..hi]` of a character vector.
pub fn sub_chars(v: &Vec<char>, lo: usize, hi: usize) -> (r: Vec<char>)
    requires
        lo <= hi <= v.len(),
    ensures
        r@ == v@.subrange(lo as int, hi as int),
{
    let mut r: Vec<char> = Vec::new();
    let mut i = lo;
    while i < hi
        invariant
            lo <= i <= hi <= v.len(),
            r@ == v@.subrange(lo as int, i as int),
        decreases hi - i,
    {
        r.push(v[i]);
        i = i + 1;
        assert(r@ =~= v@.subrange(lo as int, i as int));
    }
    r
}

/// Whether `needle` occurs in `hay` at position `i`.
pub fn occurs_at_exec(hay: &Vec<char>, needle: &Vec<char>, i: usize) -> (r: bool)
    ensures
        r == occurs_at(hay@, needle@, i as int),
{
    if i > hay.len() || needle.len() > hay.len() - i {
        return false;
    }
    let mut k: usize = 0;
    while k < needle.len()
        invariant
            i + needle.len() <= hay.len(),
            k <= needle.len(),
            forall|j: int| 0 <= j < k ==> hay@[i + j] == needle@[j],
        decreases needle.len() - k,
    {
        if hay[i + k] != needle[k] {
            assert(hay@.subrange(i as int, i + needle.len())[k as int] != needle@[k as int]);
            return false;
        }
        k = k + 1;
    }
    assert(hay@.subrange(i as int, i + needle@.len()) =~= needle@);
    true
}

/// Whether `needle` occurs anywhere in `hay` (`str::contains`).
pub fn contains_chars(hay: &Vec<char>, needle: &Vec<char>) -> (r: bool)
    ensures
        r == contains_seq(hay@, needle@),
{
    if needle.len() > hay.len() {
        return false;
    }
    let last = hay.len() - needle.len();
    let mut i: usize = 0;
    while i <= last
        invariant
            last == hay.len() - needle.len(),
            i <= last + 1,
            forall|j: int| 0 <= j < i ==> !occurs_at(hay@, needle@, j),
        decreases last + 1 - i,
    {
        if occurs_at_exec(hay, needle, i) {
            return true;
        }
        if i == last {
            assert forall|j: int| !occurs_at(hay@, needle@, j) by {
                if 0 <= j <= last {
                }
            }
            return false;
        }
        i = i + 1;
    }
    false
}

/// The character sequences of a vector of strings.
pub open spec fn str_views(v: Seq<String>) -> Seq<Seq<char>> {
    v.map_values(|x: String| x@)
}

/// The character sequences of a vector of character vectors.
pub open spec fn char_views(v: Seq<Vec<char>>) -> Seq<Seq<char>> {
    v.map_values(|x: Vec<char>| x@)
}

pub proof fn lemma_lex_reflexive(a: Seq<char>)
    ensures
        lex_le(a, a),
    decreases a.len(),
{
    if a.len() > 0 {
        lemma_lex_reflexive(a.drop_first());
    }
}

pub proof fn lemma_lex_antisymmetric(a: Seq<char>, b: Seq<char>)
    requires
        lex_le(a, b),
        lex_le(b, a),
    ensures
        a == b,
    decreases a.len(),
{
    if a.len() > 0 && b.len() > 0 {
        lemma_lex_antisymmetric(a.drop_first(), b.drop_first());
        assert(a =~= seq![a[0]] + a.drop_first());
        assert(b =~= seq![b[0]] + b.drop_first());
    }
}

pub proof fn lemma_lex_transitive(a: Seq<char>, b: Seq<char>, c: Seq<char>)
    requires
        lex_le(a, b),
        lex_le(b, c),
    ensures
        lex_le(a, c),
    decreases a.len(),
{
    if a.len() > 0 && b.len() > 0 && c.len() > 0 {
        if a[0] == b[0] && b[0] == c[0] {
            lemma_lex_transitive(a.drop_first(), b.drop_first(), c.drop_first());
        }
    }
}

pub proof fn lemma_lex_total(a: Seq<char>, b: Seq<char>)
    ensures
        lex_le(a, b) || lex_le(b, a),
    decreases a.len(),
{
    if a.len() > 0 && b.len() > 0 && a[0] == b[0] {
        lemma_lex_total(a.drop_first(), b.drop_first());
    }
}

pub proof fn lemma_lex_total_ordering()
    ensures
        total_ordering(lex_order()),
{
    let f = lex_order();
    assert forall|a: Seq<char>| #[trigger] f(a, a) by {
        lemma_lex_reflexive(a);
    }
    assert forall|a: Seq<char>, b: Seq<char>| #[trigger] f(a, b) && #[trigger] f(b, a) implies a
        == b by {
        lemma_lex_antisymmetric(a, b);
    }
    assert forall|a: Seq<char>, b: Seq<char>, c: Seq<char>|
        #[trigger] f(a, b) && #[trigger] f(b, c) implies f(a, c) by {
        lemma_lex_transitive(a, b, c);
    }
    assert forall|a: Seq<char>, b: Seq<char>| #[trigger] f(a, b) || #[trigger] f(b, a) by {
        lemma_lex_total(a, b);
    }
}

/// Whether `a` comes no later than `b` in lexicographic order.
pub fn lex_le_exec(a: &Vec<char>, b: &Vec<char>) -> (r: bool)
    ensures
        r == lex_le(a@, b@),
{
    let mut i: usize = 0;
    assert(a@.skip(0) =~= a@ && b@.skip(0) =~= b@);
    while i < a.len() && i < b.len()
        invariant
            i <= a.len(),
            i <= b.len(),
            forall|j: int| 0 <= j < i ==> a@[j] == b@[j],
            lex_le(a@, b@) == lex_le(a@.skip(i as int), b@.skip(i as int)),
        decreases a.len() - i,
    {
        if a[i] != b[i] {
            return a[i] < b[i];
        }
        assert(a@.skip(i as int).drop_first() =~= a@.skip(i + 1));
        assert(b@.skip(i as int).drop_first() =~= b@.skip(i + 1));
        i = i + 1;
    }
    i == a.len()
}

/// Sorts strings in lexicographic order (`slice::sort` on `String`s).
pub fn sort_strings(v: &Vec<String>) -> (r: Vec<String>)
    ensures
        str_views(r@) == str_views(v@).sort_by(lex_order()),
{
    proof {
        lemma_lex_total_ordering();
    }
    let ghost f = lex_order();
    let mut out: Vec<String> = Vec::new();
    let mut i: usize = 0;
    assert(str_views(out@) =~= str_views(v@.take(0)));
    while i < v.len()
        invariant
            i <= v.len(),
            f == lex_order(),
            total_ordering(f),
            sorted_by(str_views(out@), f),
            str_views(out@).to_multiset() == str_views(v@.take(i as int)).to_multiset(),
        decreases v.len() - i,
    {
        let x = v[i].clone();
        let xc = chars_of(x.as_str());
        let mut p: usize = 0;
        while p < out.len()
            invariant
                p <= out.len(),
                xc@ == x@,
                forall|k: int| 0 <= k < p ==> lex_le(#[trigger] out@[k]@, x@),
            ensures
                p <= out.len(),
                forall|k: int| 0 <= k < p ==> lex_le(#[trigger] out@[k]@, x@),
                p < out.len() ==> !lex_le(out@[p as int]@, x@),
            decreases out.len() - p,
        {
            let oc = chars_of(out[p].as_str());
            if !lex_le_exec(&oc, &xc) {
                break;
            }
            p = p + 1;
        }
        let ghost old_out = out@;
        let ghost ov = str_views(old_out);
        proof {
            assert forall|k: int| p <= k < ov.len() implies lex_le(x@, #[trigger] ov[k]) by {
                if p < ov.len() {
                    // out[p] is strictly greater than x; everything after is at least out[p]
                    assert(!lex_le(ov[p as int], x@));
                    lemma_lex_total(ov[p as int], x@);
                    if k > p {
                        assert(f(ov[p as int], ov[k]));
                        lemma_lex_transitive(x@, ov[p as int], ov[k]);
                    }
                }
            }
        }
        out.insert(p, x);
        proof {
            let nv = str_views(out@);
            assert(nv =~= ov.insert(p as int, x@));
            assert forall|a: int, b: int| 0 <= a < b < nv.len() implies #[trigger] f(
                nv[a],
                nv[b],
            ) by {
                if b < p {
                    assert(f(ov[a], ov[b]));
                } else if b == p {
                    assert(lex_le(old_out[a]@, x@));
                } else if a == p {
                    assert(lex_le(x@, ov[b - 1]));
                } else if a < p {
                    assert(lex_le(old_out[a]@, x@));
                    assert(lex_le(x@, ov[b - 1]));
                    lemma_lex_transitive(ov[a], x@, ov[b - 1]);
                } else {
                    assert(f(ov[a - 1], ov[b - 1]));
                }
            }
            assert(str_views(v@.take(i + 1)) =~= str_views(v@.take(i as int)).push(x@));
            vstd::seq_lib::to_multiset_insert(ov, p as int, x@);
            vstd::seq_lib::to_multiset_build(str_views(v@.take(i as int)), x@);
        }
        i = i + 1;
    }
    proof {
        assert(v@.take(v.len() as int) =~= v@);
        let sv = str_views(v@);
        sv.lemma_sort_by_ensures(f);
        vstd::seq_lib::lemma_sorted_unique(str_views(out@), sv.sort_by(f), f);
    }
    out
}

/// A word ends the text: the text ends in a non-whitespace character, and the
/// last of its words is exactly its trailing run of non-whitespace.
pub proof fn lemma_last_word_is_suffix(s: Seq<char>)
    requires
        s.len() > 0,
        !is_ws(s.last()),
    ensures
        words(s).len() > 0,
        words(s).last().len() <= s.len(),
        s.skip(s.len() - words(s).last().len()) == words(s).last(),
        words(s).last().len() > 0,
        words(s).last().len() < s.len() ==> is_ws(s[s.len() - words(s).last().len() - 1]),
    decreases s.len(),
{
    let prev = words(s.drop_last());
    let c = s.last();
    if s.len() >= 2 && !is_ws(s[s.len() - 2]) {
        let d = s.drop_last();
        assert(d.last() == s[s.len() - 2]);
        lemma_last_word_is_suffix(d);
        let w = prev.last();
        assert(words(s) == prev.update(prev.len() - 1, w.push(c)));
        assert(s.skip(s.len() - (w.len() + 1)) =~= d.skip(d.len() - w.len()).push(c));
    } else {
        assert(words(s) == prev.push(seq![c]));
        assert(s.skip(s.len() - 1) =~= seq![c]);
    }
}

/// Splits text at whitespace (`str::split_whitespace`).
pub fn split_words(s: &Vec<char>) -> (r: Vec<Vec<char>>)
    ensures
        char_views(r@) == words(s@),
{
    let mut acc: Vec<Vec<char>> = Vec::new();
    let mut cur: Vec<char> = Vec::new();
    let mut i: usize = 0;
    assert(s@.take(0) =~= Seq::<char>::empty());
    while i < s.len()
        invariant
            i <= s.len(),
            words(s@.take(i as int)) == (if cur.len() > 0 {
                char_views(acc@).push(cur@)
            } else {
                char_views(acc@)
            }),
            cur.len() > 0 ==> i > 0 && !is_ws(s@[i - 1]),
            cur.len() == 0 && i > 0 ==> is_ws(s@[i - 1]),
        decreases s.len() - i,
    {
        let c = s[i];
        let ghost t = s@.take(i + 1);
        assert(t.drop_last() =~= s@.take(i as int));
        assert(t.last() == c);
        if is_whitespace(c) {
            if cur.len() > 0 {
                let w = cur;
                let ghost before = acc@;
                acc.push(w);
                cur = Vec::new();
                assert(char_views(acc@) =~= char_views(before).push(w@));
            }
        } else {
            if cur.len() > 0 {
                assert(t[t.len() - 2] == s@[i - 1]);
                let ghost before = cur@;
                cur.push(c);
                assert(char_views(acc@).push(before).update(char_views(acc@).len() as int, before.push(c))
                    =~= char_views(acc@).push(cur@));
            } else {
                cur.push(c);
                assert(cur@ =~= seq![c]);
            }
        }
        i = i + 1;
    }
    assert(s@.take(s.len() as int) =~= s@);
    if cur.len() > 0 {
        let w = cur;
        let ghost before = acc@;
        acc.push(w);
        assert(char_views(acc@) =~= char_views(before).push(w@));
    }
    acc
}

/// Appends the characters of `s` to `out`.
pub fn extend_chars(out: &mut Vec<char>, s: &Vec<char>)
    ensures
        final(out)@ == old(out)@ + s@,
{
    let mut i: usize = 0;
    while i < s.len()
        invariant
            i <= s.len(),
            out@ == old(out)@ + s@.take(i as int),
        decreases s.len() - i,
    {
        out.push(s[i]);
        i = i + 1;
        assert(out@ =~= old(out)@ + s@.take(i as int));
    }
    assert(s@.take(s.len() as int) =~= s@);
}

proof fn lemma_replace_all_step(s: Seq<char>, pat: Seq<char>, rep: Seq<char>, i: int)
    requires
        0 <= i < s.len(),
        pat.len() > 0,
    ensures
        occurs_at(s, pat, i) ==> replace_all(s.skip(i), pat, rep) == rep + replace_all(
            s.skip(i + pat.len()),
            pat,
            rep,
        ),
        !occurs_at(s, pat, i) ==> replace_all(s.skip(i), pat, rep) == seq![s[i]] + replace_all(
            s.skip(i + 1),
            pat,
            rep,
        ),
{
    let t = s.skip(i);
    if occurs_at(s, pat, i) {
        assert(t.take(pat.len() as int) =~= s.subrange(i, i + pat.len()));
        assert(t.skip(pat.len() as int) =~= s.skip(i + pat.len()));
    } else {
        if pat.len() <= t.len() {
            assert(t.take(pat.len() as int) =~= s.subrange(i, i + pat.len()));
        }
        assert(t.drop_first() =~= s.skip(i + 1));
    }
}

/// Replaces each occurrence of `pat` by `rep`, left to right (`str::replace`).
pub fn replace_chars(s: &Vec<char>, pat: &Vec<char>, rep: &Vec<char>) -> (r: Vec<char>)
    requires
        pat.len() > 0,
    ensures
        r@ == replace_all(s@, pat@, rep@),
{
    let mut out: Vec<char> = Vec::new();
    let mut i: usize = 0;
    assert(s@.skip(0) =~= s@);
    while i < s.len()
        invariant
            i <= s.len(),
            pat.len() > 0,
            out@ + replace_all(s@.skip(i as int), pat@, rep@) == replace_all(s@, pat@, rep@),
        decreases s.len() - i,
    {
        proof {
            lemma_replace_all_step(s@, pat@, rep@, i as int);
        }
        if occurs_at_exec(s, pat, i) {
            let ghost before = out@;
            extend_chars(&mut out, rep);
            i = i + pat.len();
            assert(before + (rep@ + replace_all(s@.skip(i as int), pat@, rep@)) =~= out@
                + replace_all(s@.skip(i as int), pat@, rep@));
        } else {
            let ghost before = out@;
            out.push(s[i]);
            i = i + 1;
            assert(before + (seq![s@[i - 1]] + replace_all(s@.skip(i as int), pat@, rep@))
                =~= out@ + replace_all(s@.skip(i as int), pat@, rep@));
        }
    }
    assert(s@.skip(i as int) =~= Seq::<char>::empty());
    assert(out@ + Seq::<char>::empty() =~= out@);
    out
}

proof fn lemma_trim_start_skip(s: Seq<char>, a: int)
    requires
        0 <= a <= s.len(),
        forall|k: int| 0 <= k < a ==> is_ws(s[k]),
        a == s.len() || !is_ws(s[a]),
    ensures
        trim_start(s) == s.skip(a),
    decreases a,
{
    if a == 0 {
        assert(s.skip(0) =~= s);
    } else {
        lemma_trim_start_skip(s.drop_first(), a - 1);
        assert(s.drop_first().skip(a - 1) =~= s.skip(a));
    }
}

proof fn lemma_trim_end_take(s: Seq<char>, b: int)
    requires
        0 <= b <= s.len(),
        forall|k: int| b <= k < s.len() ==> is_ws(s[k]),
        b == 0 || !is_ws(s[b - 1]),
    ensures
        trim_end(s) == s.take(b),
    decreases s.len() - b,
{
    if b == s.len() {
        assert(s.take(b) =~= s);
    } else {
        lemma_trim_end_take(s.drop_last(), b);
        assert(s.drop_last().take(b) =~= s.take(b));
    }
}

/// Removes leading and trailing whitespace (`str::trim`).
pub fn trim_chars(s: &Vec<char>) -> (r: Vec<char>)
    ensures
        r@ == trim(s@),
{
    let mut a: usize = 0;
    while a < s.len() && is_whitespace(s[a])
        invariant
            a <= s.len(),
            forall|k: int| 0 <= k < a ==> is_ws(s@[k]),
        decreases s.len() - a,
    {
        a = a + 1;
    }
    proof {
        lemma_trim_start_skip(s@, a as int);
    }
    let mut b: usize = s.len();
    while b > a && is_whitespace(s[b - 1])
        invariant
            a <= b <= s.len(),
            forall|k: int| b <= k < s.len() ==> is_ws(s@[k]),
        decreases b,
    {
        b = b - 1;
    }
    proof {
        let t = s@.skip(a as int);
        lemma_trim_end_take(t, b - a);
        assert(t.take(b - a) =~= s@.subrange(a as int, b as int));
    }
    sub_chars(s, a, b)
}

/// `ps` with `cur` put in front of its first piece.
pub open spec fn prepend_to_first(cur: Seq<char>, ps: Seq<Seq<char>>) -> Seq<Seq<char>> {
    ps.update(0, cur + ps[0])
}

proof fn lemma_split_on_step(s: Seq<char>, sep: Seq<char>, i: int)
    requires
        0 <= i < s.len(),
        sep.len() > 0,
    ensures
        occurs_at(s, sep, i) ==> split_on(s.skip(i), sep) == seq![Seq::<char>::empty()]
            + split_on(s.skip(i + sep.len()), sep),
        !occurs_at(s, sep, i) ==> split_on(s.skip(i), sep) == prepend_to_first(
            seq![s[i]],
            split_on(s.skip(i + 1), sep),
        ),
{
    let t = s.skip(i);
    if occurs_at(s, sep, i) {
        assert(t.take(sep.len() as int) =~= s.subrange(i, i + sep.len()));
        assert(t.skip(sep.len() as int) =~= s.skip(i + sep.len()));
    } else {
        if sep.len() <= t.len() {
            assert(t.take(sep.len() as int) =~= s.subrange(i, i + sep.len()));
        }
        assert(t.drop_first() =~= s.skip(i + 1));
    }
}

/// Splits text at each occurrence of a non-empty separator (`str::split`).
pub fn split_chars(s: &Vec<char>, sep: &Vec<char>) -> (r: Vec<Vec<char>>)
    requires
        sep.len() > 0,
    ensures
        char_views(r@) == split_on(s@, sep@),
{
    let mut parts: Vec<Vec<char>> = Vec::new();
    let mut cur: Vec<char> = Vec::new();
    let mut i: usize = 0;
    proof {
        assert(s@.skip(0) =~= s@);
        lemma_split_on_nonempty(s@, sep@);
        assert(prepend_to_first(cur@, split_on(s@, sep@)) =~= split_on(s@, sep@));
        assert(char_views(parts@) + split_on(s@, sep@) =~= split_on(s@, sep@));
    }
    while i < s.len()
        invariant
            i <= s.len(),
            sep.len() > 0,
            split_on(s@, sep@) == char_views(parts@) + prepend_to_first(
                cur@,
                split_on(s@.skip(i as int), sep@),
            ),
        decreases s.len() - i,
    {
        proof {
            lemma_split_on_step(s@, sep@, i as int);
        }
        if occurs_at_exec(s, sep, i) {
            let ghost old_parts = char_views(parts@);
            let ghost old_cur = cur@;
            let piece = cur;
            parts.push(piece);
            cur = Vec::new();
            i = i + sep.len();
            proof {
                let rest = split_on(s@.skip(i as int), sep@);
                lemma_split_on_nonempty(s@.skip(i as int), sep@);
                assert(char_views(parts@) =~= old_parts.push(old_cur));
                assert(prepend_to_first(cur@, rest) =~= rest);
                assert(old_parts + prepend_to_first(old_cur, seq![Seq::<char>::empty()] + rest)
                    =~= char_views(parts@) + prepend_to_first(cur@, rest));
            }
        } else {
            let ghost old_cur = cur@;
            cur.push(s[i]);
            i = i + 1;
            proof {
                let rest = split_on(s@.skip(i as int), sep@);
                lemma_split_on_nonempty(s@.skip(i as int), sep@);
                let c = s@[i - 1];
                assert(cur@ == old_cur.push(c));
                assert(old_cur + (seq![c] + rest[0]) =~= cur@ + rest[0]);
                assert(prepend_to_first(seq![c], rest)[0] == seq![c] + rest[0]);
                assert(prepend_to_first(old_cur, prepend_to_first(seq![c], rest))
                    =~= prepend_to_first(cur@, rest));
            }
        }
    }
    proof {
        assert(s@.skip(i as int) =~= Seq::<char>::empty());
        assert(split_on(Seq::<char>::empty(), sep@) == seq![Seq::<char>::empty()]);
    }
    let ghost old_parts = char_views(parts@);
    let ghost last = cur@;
    parts.push(cur);
    proof {
        assert(prepend_to_first(last, seq![Seq::<char>::empty()]) =~= seq![last]);
        assert(char_views(parts@) =~= old_parts.push(last));
    }
    parts
}

} // verus!
