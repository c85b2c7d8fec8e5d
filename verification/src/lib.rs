//! A small line-oriented substring search library.
//!
//! Content is split into lines at `'\n'`; a line is returned when it
//! contains the query as a contiguous substring, either exactly or after
//! both sides are lowercased character by character. Matching lines come
//! back unmodified, in source order.

use vstd::prelude::*;
use vstd::std_specs::iter::IteratorSpec;

pub mod config;

verus! {

/// Scanning `s` left to right: the completed lines so far, and the
/// fragment accumulated since the last `'\n'` (or since the start).
pub open spec fn lines_partial(s: Seq<char>) -> (Seq<Seq<char>>, Seq<char>)
    decreases s.len(),
{
    if s.len() == 0 {
        (Seq::empty(), Seq::empty())
    } else {
        let prefix = lines_partial(s.drop_last());
        if s.last() == '\n' {
            (prefix.0.push(prefix.1), Seq::empty())
        } else {
            (prefix.0, prefix.1.push(s.last()))
        }
    }
}

/// The lines of `s`: maximal `'\n'`-free pieces, where a nonempty
/// fragment after the last `'\n'` counts as a final line.
pub open spec fn spec_lines(s: Seq<char>) -> Seq<Seq<char>> {
    let (done, rest) = lines_partial(s);
    if rest.len() > 0 {
        done.push(rest)
    } else {
        done
    }
}

/// `needle` occurs in `hay` as a contiguous substring.
pub open spec fn contains_substring(hay: Seq<char>, needle: Seq<char>) -> bool {
    exists|i: int|
        0 <= i && i + needle.len() <= hay.len() && #[trigger] hay.subrange(i, i + needle.len())
            == needle
}

/// What lowercasing one character yields (an uncased character yields
/// itself; a few characters lowercase to more than one).
pub uninterp spec fn lower_of(c: char) -> Seq<char>;

/// Lowercasing a whole string: each character is lowercased on its own
/// (no context-sensitive folding) and the results are concatenated.
pub open spec fn lower_seq(s: Seq<char>) -> Seq<char>
    decreases s.len(),
{
    if s.len() == 0 {
        Seq::empty()
    } else {
        lower_seq(s.drop_last()) + lower_of(s.last())
    }
}

/// The predicate a line must meet under case-sensitive search:
/// it contains `query` exactly.
pub open spec fn exact_pred(query: Seq<char>) -> spec_fn(Seq<char>) -> bool {
    |line: Seq<char>| contains_substring(line, query)
}

/// The predicate a line must meet under case-insensitive search:
/// lowercased, it contains the lowercased `query`.
pub open spec fn folded_pred(query: Seq<char>) -> spec_fn(Seq<char>) -> bool {
    |line: Seq<char>| contains_substring(lower_seq(line), lower_seq(query))
}

/// The lines of `content` that contain `query` exactly, in source order.
pub open spec fn sensitive_matches(query: Seq<char>, content: Seq<char>) -> Seq<Seq<char>> {
    spec_lines(content).filter(exact_pred(query))
}

/// The lines of `content` that contain `query` after character-wise lowercasing
/// of both sides, in source order.
pub open spec fn insensitive_matches(query: Seq<char>, content: Seq<char>) -> Seq<Seq<char>> {
    spec_lines(content).filter(folded_pred(query))
}

/// The characters of `s` as a vector.
fn chars_of(s: &str) -> (r: Vec<char>)
    ensures
        r@ == s@,
{
    broadcast use vstd::string::group_string_axioms;

    let mut it = s.chars();
    let mut r: Vec<char> = Vec::new();
    loop
        invariant
            r@ + it.remaining() =~= s@,
            it.decrease() is Some,
        ensures
            r@ == s@,
        decreases it.decrease()->0,
    {
        match it.next() {
            Some(c) => {
                r.push(c);
            },
            None => {
                proof {
                    assert(r@ =~= r@ + it.remaining());
                }
                break ;
            },
        }
    }
    r
}

/// Relies on char::to_lowercase: the Unicode lowercase mapping of one
/// character, a function of that character alone.
#[verifier::external_body]
fn char_lower(c: char) -> (r: Vec<char>)
    ensures
        r@ == lower_of(c),
{
    c.to_lowercase().collect()
}

/// Lowercase every character of `v`, in order.
fn lower_chars(v: &Vec<char>) -> (r: Vec<char>)
    ensures
        r@ == lower_seq(v@),
{
    let mut r: Vec<char> = Vec::new();
    let mut i: usize = 0;
    while i < v.len()
        invariant
            i <= v@.len(),
            r@ =~= lower_seq(v@.take(i as int)),
        decreases v@.len() - i,
    {
        let ghost prior = r@;
        let mut piece = char_lower(v[i]);
        r.append(&mut piece);
        proof {
            assert(v@.take(i as int + 1).drop_last() =~= v@.take(i as int));
            assert(v@.take(i as int + 1).last() == v@[i as int]);
            assert(r@ =~= prior + lower_of(v@[i as int]));
        }
        i += 1;
    }
    proof {
        assert(v@.take(v@.len() as int) =~= v@);
    }
    r
}

/// `needle` occurs in `hay` starting at position `i`.
fn occurs_at(hay: &Vec<char>, needle: &Vec<char>, i: usize) -> (b: bool)
    requires
        i + needle@.len() <= hay@.len(),
    ensures
        b == (hay@.subrange(i as int, i + needle@.len()) == needle@),
{
    let hlen: usize = hay.len();
    let nlen: usize = needle.len();
    let mut k: usize = 0;
    while k < nlen
        invariant
            hlen == hay@.len(),
            nlen == needle@.len(),
            i + nlen <= hlen,
            k <= nlen,
            forall|m: int| 0 <= m < k ==> hay@[i + m] == needle@[m],
        decreases nlen - k,
    {
        if hay[i + k] != needle[k] {
            proof {
                assert(hay@.subrange(i as int, i + needle@.len())[k as int] != needle@[k as int]);
            }
            return false;
        }
        k += 1;
    }
    proof {
        assert(hay@.subrange(i as int, i + needle@.len()) =~= needle@);
    }
    true
}

/// `needle` occurs somewhere in `hay` as a contiguous substring.
fn contains_chars(hay: &Vec<char>, needle: &Vec<char>) -> (b: bool)
    ensures
        b == contains_substring(hay@, needle@),
{
    if needle.len() == 0 {
        proof {
            assert(hay@.subrange(0, 0 + needle@.len() as int) =~= needle@);
        }
        return true;
    }
    if needle.len() > hay.len() {
        return false;
    }
    let hlen: usize = hay.len();
    let end: usize = hlen - needle.len();
    let mut i: usize = 0;
    while i <= end
        invariant
            hlen == hay@.len(),
            1 <= needle@.len() <= hay@.len(),
            end == hay@.len() - needle@.len(),
            i <= end + 1,
            forall|j: int|
                0 <= j < i ==> #[trigger] hay@.subrange(j, j + needle@.len()) != needle@,
        decreases end + 1 - i,
    {
        if occurs_at(hay, needle, i) {
            return true;
        }
        i += 1;
    }
    false
}

/// Split `content` into its lines, as slices of the original text.
fn split_lines<'a>(content: &'a str) -> (r: Vec<&'a str>)
    ensures
        r.deep_view() == spec_lines(content@),
{
    let cs = chars_of(content);
    let n: usize = cs.len();
    let mut r: Vec<&'a str> = Vec::new();
    let mut start: usize = 0;
    let mut j: usize = 0;
    while j < n
        invariant
            cs@ == content@,
            n == content@.len(),
            start <= j <= n,
            r.deep_view() =~= lines_partial(content@.take(j as int)).0,
            content@.subrange(start as int, j as int) =~= lines_partial(
                content@.take(j as int),
            ).1,
        decreases n - j,
    {
        let ghost t = content@.take(j as int);
        let ghost t2 = content@.take(j as int + 1);
        proof {
            assert(t2.drop_last() =~= t);
            assert(t2.last() == content@[j as int]);
        }
        if cs[j] == '\n' {
            let ghost prior = r.deep_view();
            let line = content.substring_char(start, j);
            r.push(line);
            proof {
                assert(r.deep_view() =~= prior.push(line@));
                assert(content@.subrange(j as int + 1, j as int + 1) =~= lines_partial(t2).1);
            }
            start = j + 1;
        } else {
            proof {
                assert(content@.subrange(start as int, j as int + 1) =~= content@.subrange(
                    start as int,
                    j as int,
                ).push(content@[j as int]));
            }
        }
        j += 1;
    }
    proof {
        assert(content@.take(n as int) =~= content@);
    }
    if start < n {
        let ghost prior = r.deep_view();
        let line = content.substring_char(start, n);
        r.push(line);
        proof {
            assert(line@.len() > 0);
            assert(r.deep_view() =~= prior.push(line@));
        }
    }
    r
}

/// Every line of `content` that contains `query` as an exact substring,
/// unmodified and in source order.
pub fn search_case_sensitive<'a>(query: &str, content: &'a str) -> (r: Vec<&'a str>)
    ensures
        r.deep_view() == sensitive_matches(query@, content@),
{
    let q = chars_of(query);
    let lines = split_lines(content);
    let mut r: Vec<&'a str> = Vec::new();
    let mut i: usize = 0;
    while i < lines.len()
        invariant
            q@ == query@,
            lines.deep_view() == spec_lines(content@),
            lines.deep_view().len() == lines@.len(),
            i <= lines@.len(),
            r.deep_view() =~= spec_lines(content@).take(i as int).filter(exact_pred(query@)),
        decreases lines@.len() - i,
    {
        let ghost s = spec_lines(content@);
        let ghost prior = r.deep_view();
        proof {
            reveal_with_fuel(Seq::<_>::filter, 1);
            assert(s.take(i as int + 1).drop_last() =~= s.take(i as int));
            assert(s.take(i as int + 1).last() == lines@[i as int]@);
        }
        let lc = chars_of(lines[i]);
        if contains_chars(&lc, &q) {
            r.push(lines[i]);
            proof {
                assert(r.deep_view() =~= prior.push(lines@[i as int]@));
            }
        }
        i += 1;
    }
    proof {
        assert(spec_lines(content@).take(lines@.len() as int) =~= spec_lines(content@));
    }
    r
}

/// Every line of `content` that contains `query` after character-wise lowercasing
/// of both sides; the lines come back in their original casing and order.
pub fn search_case_insensitive<'a>(query: &str, content: &'a str) -> (r: Vec<&'a str>)
    ensures
        r.deep_view() == insensitive_matches(query@, content@),
{
    let q = chars_of(query);
    let lq = lower_chars(&q);
    let lines = split_lines(content);
    let mut r: Vec<&'a str> = Vec::new();
    let mut i: usize = 0;
    while i < lines.len()
        invariant
            lq@ == lower_seq(query@),
            lines.deep_view() == spec_lines(content@),
            lines.deep_view().len() == lines@.len(),
            i <= lines@.len(),
            r.deep_view() =~= spec_lines(content@).take(i as int).filter(folded_pred(query@)),
        decreases lines@.len() - i,
    {
        let ghost s = spec_lines(content@);
        let ghost prior = r.deep_view();
        proof {
            reveal_with_fuel(Seq::<_>::filter, 1);
            assert(s.take(i as int + 1).drop_last() =~= s.take(i as int));
            assert(s.take(i as int + 1).last() == lines@[i as int]@);
        }
        let lc = chars_of(lines[i]);
        let ll = lower_chars(&lc);
        if contains_chars(&ll, &lq) {
            r.push(lines[i]);
            proof {
                assert(r.deep_view() =~= prior.push(lines@[i as int]@));
            }
        }
        i += 1;
    }
    proof {
        assert(spec_lines(content@).take(lines@.len() as int) =~= spec_lines(content@));
    }
    r
}

/// Run the search a configuration asks for: case-insensitive when its
/// flag is set, case-sensitive otherwise.
pub fn search<'a>(config: &config::Config, contents: &'a str) -> (r: Vec<&'a str>)
    ensures
        config.spec_case_insensitive() ==> r.deep_view() == insensitive_matches(
            config.spec_query(),
            contents@,
        ),
        !config.spec_case_insensitive() ==> r.deep_view() == sensitive_matches(
            config.spec_query(),
            contents@,
        ),
{
    if *config.get_case_insensitive() {
        search_case_insensitive(config.get_query(), contents)
    } else {
        search_case_sensitive(config.get_query(), contents)
    }
}

/// `sub` can be obtained from `sup` by deleting elements, keeping the
/// order of the rest.
pub open spec fn is_subsequence<A>(sub: Seq<A>, sup: Seq<A>) -> bool
    decreases sub.len() + sup.len(),
{
    if sub.len() == 0 {
        true
    } else if sup.len() == 0 {
        false
    } else if sub.last() == sup.last() {
        is_subsequence(sub.drop_last(), sup.drop_last())
    } else {
        is_subsequence(sub, sup.drop_last())
    }
}

/// A subsequence of `sup` is still one after `sup` grows at the end.
proof fn lemma_subsequence_push<A>(sub: Seq<A>, sup: Seq<A>, x: A)
    requires
        is_subsequence(sub, sup),
    ensures
        is_subsequence(sub, sup.push(x)),
    decreases 2 * sup.len() + 1,
{
    if sub.len() == 0 {
    } else {
        assert(sup.push(x).drop_last() =~= sup);
        if sub.last() == x {
            lemma_subsequence_drop_last(sub, sup);
        }
    }
}

/// Dropping the last element of `sub` keeps it a subsequence of `sup`.
proof fn lemma_subsequence_drop_last<A>(sub: Seq<A>, sup: Seq<A>)
    requires
        is_subsequence(sub, sup),
        sub.len() > 0,
    ensures
        is_subsequence(sub.drop_last(), sup),
    decreases 2 * sup.len(),
{
    if sub.last() == sup.last() {
        lemma_subsequence_push(sub.drop_last(), sup.drop_last(), sup.last());
        assert(sup.drop_last().push(sup.last()) =~= sup);
    } else {
        lemma_subsequence_drop_last(sub, sup.drop_last());
        lemma_subsequence_push(sub.drop_last(), sup.drop_last(), sup.last());
        assert(sup.drop_last().push(sup.last()) =~= sup);
    }
}

/// What a filter keeps is a subsequence of what it was given.
proof fn lemma_filter_is_subsequence<A>(s: Seq<A>, pred: spec_fn(A) -> bool)
    ensures
        is_subsequence(s.filter(pred), s),
    decreases s.len(),
{
    reveal_with_fuel(Seq::filter, 1);
    if s.len() == 0 {
    } else {
        lemma_filter_is_subsequence(s.drop_last(), pred);
        let sub = s.drop_last().filter(pred);
        if pred(s.last()) {
            assert(sub.push(s.last()).drop_last() =~= sub);
        } else {
            lemma_subsequence_push(sub, s.drop_last(), s.last());
            assert(s.drop_last().push(s.last()) =~= s);
        }
    }
}

/// Every element a filter keeps occurs in what it was given.
proof fn lemma_filter_member_of_source<A>(s: Seq<A>, pred: spec_fn(A) -> bool)
    ensures
        forall|i: int|
            0 <= i < s.filter(pred).len() ==> s.contains(#[trigger] s.filter(pred)[i]),
    decreases s.len(),
{
    reveal_with_fuel(Seq::filter, 1);
    if s.len() == 0 {
    } else {
        lemma_filter_member_of_source(s.drop_last(), pred);
        let sub = s.drop_last().filter(pred);
        assert forall|i: int| 0 <= i < s.filter(pred).len() implies s.contains(
            s.filter(pred)[i],
        ) by {
            if i < sub.len() {
                assert(s.drop_last().contains(sub[i]));
                let j = choose|j: int|
                    0 <= j < s.drop_last().len() && s.drop_last()[j] == sub[i];
                assert(s[j] == sub[i]);
            } else {
                assert(s.filter(pred)[i] == s.last());
                assert(s[s.len() - 1] == s.last());
            }
        }
    }
}

/// A filter whose predicate holds of every element keeps them all.
proof fn lemma_filter_keeps_all<A>(s: Seq<A>, pred: spec_fn(A) -> bool)
    requires
        forall|i: int| 0 <= i < s.len() ==> pred(#[trigger] s[i]),
    ensures
        s.filter(pred) == s,
    decreases s.len(),
{
    reveal_with_fuel(Seq::filter, 1);
    if s.len() == 0 {
    } else {
        lemma_filter_keeps_all(s.drop_last(), pred);
        assert(pred(s[s.len() - 1]));
        assert(s.drop_last().push(s.last()) =~= s);
    }
}

/// Lowercasing a concatenation lowercases the parts.
proof fn lemma_lower_seq_concat(a: Seq<char>, b: Seq<char>)
    ensures
        lower_seq(a + b) == lower_seq(a) + lower_seq(b),
    decreases b.len(),
{
    if b.len() == 0 {
        assert(a + b =~= a);
        assert(lower_seq(a) + lower_seq(b) =~= lower_seq(a));
    } else {
        lemma_lower_seq_concat(a, b.drop_last());
        assert((a + b).drop_last() =~= a + b.drop_last());
        assert((a + b).last() == b.last());
        assert(lower_seq(a) + lower_seq(b.drop_last()) + lower_of(b.last()) =~= lower_seq(a) + (
        lower_seq(b.drop_last()) + lower_of(b.last())));
    }
}

/// Lowercasing both sides, character by character, preserves substring
/// containment.
proof fn lemma_lower_preserves_substring(hay: Seq<char>, needle: Seq<char>)
    requires
        contains_substring(hay, needle),
    ensures
        contains_substring(lower_seq(hay), lower_seq(needle)),
{
    let i = choose|i: int|
        0 <= i && i + needle.len() <= hay.len() && #[trigger] hay.subrange(i, i + needle.len())
            == needle;
    let pre = hay.subrange(0, i);
    let post = hay.subrange(i + needle.len() as int, hay.len() as int);
    assert(hay =~= (pre + needle) + post);
    lemma_lower_seq_concat(pre + needle, post);
    lemma_lower_seq_concat(pre, needle);
    let lh = lower_seq(hay);
    let lpre = lower_seq(pre);
    let ln = lower_seq(needle);
    let lpost = lower_seq(post);
    assert(lh == (lpre + ln) + lpost);
    let lp = lpre.len() as int;
    assert forall|k: int| 0 <= k < ln.len() implies lh.subrange(lp, lp + ln.len() as int)[k]
        == ln[k] by {
        assert(((lpre + ln) + lpost)[lp + k] == (lpre + ln)[lp + k]);
        assert((lpre + ln)[lp + k] == ln[k]);
    }
    assert(lh.subrange(lp, lp + ln.len() as int) =~= ln);
}

/// Every line a case-sensitive search returns contains the query; every
/// line of the content that contains the query is returned; and the
/// returned lines keep their source order.
pub proof fn lemma_sensitive_sound_and_complete(query: Seq<char>, content: Seq<char>)
    ensures
        forall|i: int|
            0 <= i < sensitive_matches(query, content).len() ==> contains_substring(
                #[trigger] sensitive_matches(query, content)[i],
                query,
            ),
        forall|j: int|
            0 <= j < spec_lines(content).len() && contains_substring(
                #[trigger] spec_lines(content)[j],
                query,
            ) ==> sensitive_matches(query, content).contains(spec_lines(content)[j]),
        is_subsequence(sensitive_matches(query, content), spec_lines(content)),
{
    broadcast use vstd::seq_lib::group_filter_ensures;

    let s = spec_lines(content);
    let pred = exact_pred(query);
    assert forall|i: int| 0 <= i < s.filter(pred).len() implies contains_substring(
        s.filter(pred)[i],
        query,
    ) by {
        assert(pred(s.filter(pred)[i]));
    }
    assert forall|j: int|
        0 <= j < s.len() && contains_substring(s[j], query) implies s.filter(pred).contains(
        s[j],
    ) by {
        assert(pred(s[j]));
    }
    lemma_filter_is_subsequence(s, pred);
}

/// Whatever a case-sensitive search returns, a case-insensitive search
/// on the same query and content returns as well.
pub proof fn lemma_insensitive_superset(query: Seq<char>, content: Seq<char>)
    ensures
        forall|i: int|
            0 <= i < sensitive_matches(query, content).len() ==> insensitive_matches(
                query,
                content,
            ).contains(#[trigger] sensitive_matches(query, content)[i]),
{
    broadcast use vstd::seq_lib::group_filter_ensures;

    let s = spec_lines(content);
    let sm = sensitive_matches(query, content);
    lemma_filter_member_of_source(s, exact_pred(query));
    assert forall|i: int| 0 <= i < sm.len() implies insensitive_matches(query, content).contains(
        sm[i],
    ) by {
        assert(exact_pred(query)(sm[i]));
        assert(contains_substring(sm[i], query));
        lemma_lower_preserves_substring(sm[i], query);
        assert(folded_pred(query)(sm[i]));
        assert(s.contains(sm[i]));
        let j = choose|j: int| 0 <= j < s.len() && s[j] == sm[i];
        assert(s.filter(folded_pred(query)).contains(s[j]));
    }
}

/// Searching is a function of query and content alone: two results of
/// the same search on identical inputs are identical, in content and
/// in order.
pub proof fn lemma_search_deterministic(
    query: Seq<char>,
    content: Seq<char>,
    r1: Seq<Seq<char>>,
    r2: Seq<Seq<char>>,
)
    requires
        (r1 == sensitive_matches(query, content) && r2 == sensitive_matches(query, content)) || (
        r1 == insensitive_matches(query, content) && r2 == insensitive_matches(query, content)),
    ensures
        r1 == r2,
{
}

/// An empty query matches every line, in either mode; an empty content
/// has no lines, so every search of it comes back empty.
pub proof fn lemma_search_boundaries(query: Seq<char>, content: Seq<char>)
    ensures
        query.len() == 0 ==> sensitive_matches(query, content) == spec_lines(content),
        query.len() == 0 ==> insensitive_matches(query, content) == spec_lines(content),
        content.len() == 0 ==> sensitive_matches(query, content) == Seq::<Seq<char>>::empty(),
        content.len() == 0 ==> insensitive_matches(query, content) == Seq::<Seq<char>>::empty(),
{
    let s = spec_lines(content);
    if query.len() == 0 {
        assert forall|i: int| 0 <= i < s.len() implies exact_pred(query)(#[trigger] s[i]) by {
            assert(s[i].subrange(0, 0 + query.len() as int) =~= query);
        }
        assert forall|i: int| 0 <= i < s.len() implies folded_pred(query)(#[trigger] s[i]) by {
            assert(lower_seq(s[i]).subrange(0, 0 + lower_seq(query).len() as int) =~= lower_seq(
                query,
            ));
        }
        lemma_filter_keeps_all(s, exact_pred(query));
        lemma_filter_keeps_all(s, folded_pred(query));
    }
    if content.len() == 0 {
        reveal_with_fuel(Seq::<_>::filter, 1);
        assert(s =~= Seq::<Seq<char>>::empty());
    }
}

} // verus!
