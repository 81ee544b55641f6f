//! Ranks candidates by how well they match what has been typed.

use crate::completion::Suggestion;
use crate::text::{
    chars_of, lemma_text_lt_total, lemma_text_lt_transitive, lemma_width_push, lemma_width_take,
    lower, lower_char, str_precedes, text_lt, utf8_len, width,
};
use vstd::prelude::*;

verus! {

/// Whether two characters are equal up to the case of ASCII letters.
pub open spec fn alike(a: char, b: char) -> bool {
    lower(a) == lower(b)
}

/// The first position at or behind `i` whose character is like `c`, or the
/// length.
pub open spec fn next_like(text: Seq<char>, i: int, c: char) -> int
    decreases text.len() - i,
{
    if i >= text.len() {
        text.len() as int
    } else if alike(text[i], c) {
        i
    } else {
        next_like(text, i + 1, c)
    }
}

/// Whether a word begins at position `k`.
pub open spec fn word_start(text: Seq<char>, k: int) -> bool {
    k == 0 || text[k - 1] == '-' || text[k - 1] == '_' || text[k - 1] == '/' || text[k - 1] == '.'
        || text[k - 1] == ' '
}

/// What a match of `c` at position `k` counts: 10; 2 more for the same case; 8
/// more right behind the last match, 6 more at the start of a word; less its
/// byte offset, of which no more than 20 count.
pub open spec fn gain(text: Seq<char>, k: int, c: char, last: Option<int>) -> int {
    let offset = width(text.take(k)) as int;
    10 + (if text[k] == c {
        2int
    } else {
        0
    }) + (if last == Some(offset - 1) {
        8int
    } else {
        0
    }) + (if word_start(text, k) {
        6int
    } else {
        0
    }) - (if offset < 20 {
        offset
    } else {
        20
    })
}

/// The score of `query[j..]` in `text[i..]`, each character matched as early as
/// can be; none where that is no subsequence. `last` is the byte offset of the
/// match before.
pub open spec fn score(text: Seq<char>, query: Seq<char>, i: int, j: int, last: Option<int>) -> Option<
    int,
>
    decreases query.len() - j,
{
    if j >= query.len() {
        Some(0)
    } else {
        let k = next_like(text, i, query[j]);
        if k >= text.len() {
            None
        } else {
            match score(text, query, k + 1, j + 1, Some(width(text.take(k)) as int)) {
                Some(rest) => Some(gain(text, k, query[j], last) + rest),
                None => None,
            }
        }
    }
}

/// The score of `query` in `text`.
pub open spec fn total_score(text: Seq<char>, query: Seq<char>) -> Option<int> {
    score(text, query, 0, 0, None)
}

/// The better of two scores; any score is better than none.
pub open spec fn better(a: Option<int>, b: Option<int>) -> Option<int> {
    match (a, b) {
        (Some(x), Some(y)) => Some(
            if x < y {
                y
            } else {
                x
            },
        ),
        (Some(x), None) => Some(x),
        (None, _) => b,
    }
}

/// A candidate's score: the better of those of its text and its display.
pub open spec fn rank(c: Suggestion, query: Seq<char>) -> Option<int> {
    better(total_score(c.text@, query), total_score(c.display@, query))
}

/// Whether `a` comes before `b`: the higher score first, then the shorter
/// display, then the display that precedes in the order of text.
pub open spec fn before(a: Suggestion, b: Suggestion, query: Seq<char>) -> bool {
    let x = rank(a, query)->0;
    let y = rank(b, query)->0;
    let m = width(a.display@);
    let n = width(b.display@);
    x > y || (x == y && (m < n || (m == n && text_lt(a.display@, b.display@))))
}

/// The number of leading elements that come before `x`.
pub open spec fn place(s: Seq<Suggestion>, x: Suggestion, query: Seq<char>) -> int
    decreases s.len(),
{
    if s.len() > 0 && before(s[0], x, query) {
        1 + place(s.skip(1), x, query)
    } else {
        0
    }
}

/// The matching candidates, best first; those that rank alike in the order
/// given.
pub open spec fn ranked(s: Seq<Suggestion>, query: Seq<char>) -> Seq<Suggestion>
    decreases s.len(),
{
    if s.len() == 0 {
        seq![]
    } else {
        let rest = ranked(s.skip(1), query);
        if rank(s[0], query) is Some {
            rest.insert(place(rest, s[0], query), s[0])
        } else {
            rest
        }
    }
}

/// What the first position with a like character is.
pub proof fn lemma_next_like(text: Seq<char>, i: int, c: char, k: int)
    requires
        0 <= i <= k <= text.len(),
        forall|j: int| i <= j < k ==> !alike(#[trigger] text[j], c),
        k < text.len() ==> alike(text[k], c),
    ensures
        next_like(text, i, c) == k,
    decreases k - i,
{
    if i < k {
        assert(!alike(text[i], c));
        lemma_next_like(text, i + 1, c, k);
    }
}

/// The score of `query` in `text`, however large.
fn wide_score(text: &str, query: &str) -> (r: Option<i128>)
    ensures
        match r {
            Some(v) => total_score(text@, query@) == Some(v as int) && -10 * query@.len() <= v <= 26
                * query@.len(),
            None => total_score(text@, query@) is None,
        },
{
    let t: Vec<char> = chars_of(text);
    let q: Vec<char> = chars_of(query);
    let size: usize = text.as_bytes().len();
    let ghost whole: int = size as int;
    assert(whole == width(t@));
    let mut i: usize = 0;
    let mut offset: usize = 0;
    let mut j: usize = 0;
    let mut last: Option<usize> = None;
    let ghost mut last_at: Option<int> = None;
    let mut acc: i128 = 0;
    assert(t@.take(0) =~= Seq::<char>::empty());
    while j < q.len()
        invariant
            t@ == text@,
            q@ == query@,
            j <= q@.len(),
            i <= t@.len(),
            whole == width(t@),
            whole <= usize::MAX,
            offset == width(t@.take(i as int)),
            match last {
                Some(x) => last_at == Some(x as int),
                None => last_at is None,
            },
            -10 * j <= acc <= 26 * j,
            match score(t@, q@, i as int, j as int, last_at) {
                Some(rest) => total_score(t@, q@) == Some(acc + rest),
                None => total_score(t@, q@) is None,
            },
        decreases q@.len() - j,
    {
        let c: char = q[j];
        let mut k: usize = i;
        let ghost from = i as int;
        while k < t.len() && lower_char(t[k]) != lower_char(c)
            invariant
                0 <= from <= k <= t@.len(),
                whole == width(t@),
                whole <= usize::MAX,
                offset == width(t@.take(k as int)),
                forall|m: int| from <= m < k ==> !alike(#[trigger] t@[m], c),
            decreases t@.len() - k,
        {
            proof {
                lemma_width_push(t@.take(k as int), t@[k as int]);
                assert(t@.take(k as int).push(t@[k as int]) =~= t@.take(k + 1));
                lemma_width_take(t@, k + 1, k + 1);
            }
            offset = offset + utf8_len(t[k]);
            k = k + 1;
        }
        proof {
            lemma_next_like(t@, from, c, k as int);
        }
        if k >= t.len() {
            return None;
        }
        let mut add: i128 = 10;
        if t[k] == c {
            add = add + 2;
        }
        let adjacent: bool = match last {
            Some(prev) => offset > 0 && prev == offset - 1,
            None => false,
        };
        if adjacent {
            add = add + 8;
        }
        if k == 0 || t[k - 1] == '-' || t[k - 1] == '_' || t[k - 1] == '/' || t[k - 1] == '.' || t[k
            - 1] == ' ' {
            add = add + 6;
        }
        let distance: i128 = if offset < 20 {
            offset as i128
        } else {
            20
        };
        add = add - distance;
        assert(add == gain(t@, k as int, c, last_at));
        acc = acc + add;
        last = Some(offset);
        proof {
            last_at = Some(offset as int);
            lemma_width_push(t@.take(k as int), t@[k as int]);
            assert(t@.take(k as int).push(t@[k as int]) =~= t@.take(k + 1));
            lemma_width_take(t@, k + 1, k + 1);
        }
        offset = offset + utf8_len(t[k]);
        i = k + 1;
        j = j + 1;
    }
    Some(acc)
}

/// The score of `query` as a subsequence of `text`: none where it is not one.
pub fn score_subsequence(text: &str, query: &str) -> (r: Option<i32>)
    requires
        26 * query@.len() <= i32::MAX,
    ensures
        match r {
            Some(v) => total_score(text@, query@) == Some(v as int),
            None => total_score(text@, query@) is None,
        },
{
    match wide_score(text, query) {
        Some(v) => Some(v as i32),
        None => None,
    }
}

/// A candidate's score.
fn candidate_score(c: &Suggestion, query: &str) -> (r: Option<i128>)
    ensures
        match r {
            Some(v) => rank(*c, query@) == Some(v as int),
            None => rank(*c, query@) is None,
        },
{
    let a: Option<i128> = wide_score(c.text.as_str(), query);
    let b: Option<i128> = wide_score(c.display.as_str(), query);
    match (a, b) {
        (Some(x), Some(y)) => if x < y {
            Some(y)
        } else {
            Some(x)
        },
        (Some(x), None) => Some(x),
        (None, b) => b,
    }
}

/// Whether `a`, whose score is `x`, comes before `b`, whose score is `y`.
fn comes_before(a: &Suggestion, x: i128, b: &Suggestion, y: i128, Ghost(query): Ghost<Seq<char>>) -> (r:
    bool)
    requires
        rank(*a, query) == Some(x as int),
        rank(*b, query) == Some(y as int),
    ensures
        r == before(*a, *b, query),
{
    if x != y {
        return x > y;
    }
    let m: usize = a.display.as_str().as_bytes().len();
    let n: usize = b.display.as_str().as_bytes().len();
    if m != n {
        return m < n;
    }
    str_precedes(a.display.as_str(), b.display.as_str())
}

proof fn lemma_place(s: Seq<Suggestion>, x: Suggestion, query: Seq<char>, p: int)
    requires
        0 <= p <= s.len(),
        forall|k: int| 0 <= k < p ==> before(#[trigger] s[k], x, query),
        p < s.len() ==> !before(s[p], x, query),
    ensures
        place(s, x, query) == p,
    decreases p,
{
    if p > 0 {
        assert(before(s[0], x, query));
        assert forall|k: int| 0 <= k < p - 1 implies before(
            #[trigger] s.skip(1)[k],
            x,
            query,
        ) by {
            assert(s.skip(1)[k] == s[k + 1]);
        }
        lemma_place(s.skip(1), x, query, p - 1);
    }
}

/// The candidates that match `query`, best first. All of them, as they are,
/// where the query is empty.
pub fn fuzzy_filter(candidates: Vec<Suggestion>, query: &str) -> (r: Vec<Suggestion>)
    ensures
        r@ == (if query@.len() == 0 {
            candidates@
        } else {
            ranked(candidates@, query@)
        }),
{
    if query.is_empty() {
        return candidates;
    }
    let ghost all = candidates@;
    let ghost q = query@;
    let mut left: Vec<Suggestion> = candidates;
    let mut out: Vec<Suggestion> = Vec::new();
    let mut scores: Vec<i128> = Vec::new();
    assert(all.skip(all.len() as int) =~= Seq::<Suggestion>::empty());
    loop
        invariant
            q == query@,
            left@.len() <= all.len(),
            left@ == all.take(left@.len() as int),
            out@ == ranked(all.skip(left@.len() as int), q),
            scores@.len() == out@.len(),
            forall|k: int|
                0 <= k < out@.len() ==> rank(#[trigger] out@[k], q) == Some(scores@[k] as int),
        ensures
            left@.len() == 0,
            out@ == ranked(all.skip(left@.len() as int), q),
        decreases left@.len(),
    {
        let ghost n = left@.len() as int;
        match left.pop() {
            None => {
                break;
            },
            Some(c) => {
                proof {
                    assert(c == all[n - 1]);
                    assert(left@ =~= all.take(n - 1));
                    assert(all.skip(n - 1)[0] == c);
                    assert(all.skip(n - 1).skip(1) =~= all.skip(n));
                }
                match candidate_score(&c, query) {
                    Some(v) => {
                        let mut p: usize = 0;
                        while p < out.len() && comes_before(&out[p], scores[p], &c, v, Ghost(q))
                            invariant
                                p <= out@.len(),
                                scores@.len() == out@.len(),
                                rank(c, q) == Some(v as int),
                                forall|k: int|
                                    0 <= k < out@.len() ==> rank(#[trigger] out@[k], q) == Some(
                                        scores@[k] as int,
                                    ),
                                forall|k: int| 0 <= k < p ==> before(#[trigger] out@[k], c, q),
                            decreases out@.len() - p,
                        {
                            p = p + 1;
                        }
                        proof {
                            lemma_place(out@, c, q, p as int);
                        }
                        out.insert(p, c);
                        scores.insert(p, v);
                    },
                    None => {},
                }
            },
        }
    }
    assert(all.skip(0) =~= all);
    out
}

proof fn lemma_before_order(a: Suggestion, b: Suggestion, c: Suggestion, query: Seq<char>)
    ensures
        !before(a, a, query),
        before(a, b, query) ==> !before(b, a, query),
        before(a, b, query) && before(b, c, query) ==> before(a, c, query),
        !before(b, a, query) && !before(c, b, query) ==> !before(c, a, query),
{
    lemma_text_lt_total(a.display@, a.display@);
    lemma_text_lt_total(a.display@, b.display@);
    lemma_text_lt_total(b.display@, c.display@);
    lemma_text_lt_total(a.display@, c.display@);
    if text_lt(a.display@, b.display@) && text_lt(b.display@, c.display@) {
        lemma_text_lt_transitive(a.display@, b.display@, c.display@);
    }
    if text_lt(c.display@, a.display@) && text_lt(a.display@, b.display@) {
        lemma_text_lt_transitive(c.display@, a.display@, b.display@);
    }
    if text_lt(b.display@, c.display@) && text_lt(c.display@, a.display@) {
        lemma_text_lt_transitive(b.display@, c.display@, a.display@);
    }
}

/// What the place of a candidate in a list is.
pub proof fn lemma_place_bounds(s: Seq<Suggestion>, x: Suggestion, query: Seq<char>)
    ensures
        0 <= place(s, x, query) <= s.len(),
        forall|k: int| 0 <= k < place(s, x, query) ==> before(#[trigger] s[k], x, query),
        place(s, x, query) < s.len() ==> !before(s[place(s, x, query)], x, query),
    decreases s.len(),
{
    if s.len() > 0 && before(s[0], x, query) {
        lemma_place_bounds(s.skip(1), x, query);
        assert forall|k: int| 0 <= k < place(s, x, query) implies before(
            #[trigger] s[k],
            x,
            query,
        ) by {
            if k > 0 {
                assert(s[k] == s.skip(1)[k - 1]);
            }
        }
    }
}

/// The list is in order: no candidate stands behind one that it comes before.
pub proof fn law_ranked_in_order(s: Seq<Suggestion>, query: Seq<char>, i: int, j: int)
    requires
        0 <= i < j < ranked(s, query).len(),
    ensures
        !before(ranked(s, query)[j], ranked(s, query)[i], query),
    decreases s.len(),
{
    let rest = ranked(s.skip(1), query);
    if rank(s[0], query) is Some {
        let x = s[0];
        let p = place(rest, x, query);
        let all = rest.insert(p, x);
        lemma_place_bounds(rest, x, query);
        if i == p {
            lemma_before_order(x, rest[p], rest[j - 1], query);
            if p < j - 1 {
                law_ranked_in_order(s.skip(1), query, p, j - 1);
            }
        } else if j == p {
            lemma_before_order(rest[i], x, x, query);
        } else {
            let i0 = if i < p {
                i
            } else {
                i - 1
            };
            let j0 = if j < p {
                j
            } else {
                j - 1
            };
            law_ranked_in_order(s.skip(1), query, i0, j0);
        }
    } else {
        law_ranked_in_order(s.skip(1), query, i, j);
    }
}

/// The list holds the matching candidates, each as often as it was given.
pub proof fn law_ranked_keeps_matches(s: Seq<Suggestion>, query: Seq<char>)
    ensures
        ranked(s, query).to_multiset() == s.filter(
            |c: Suggestion| rank(c, query) is Some,
        ).to_multiset(),
    decreases s.len(),
{
    broadcast use vstd::seq_lib::group_to_multiset_ensures;

    let keep = |c: Suggestion| rank(c, query) is Some;
    if s.len() == 0 {
        reveal(Seq::filter);
        assert(ranked(s, query) =~= s.filter(keep));
    } else {
        let rest = ranked(s.skip(1), query);
        law_ranked_keeps_matches(s.skip(1), query);
        assert(s =~= seq![s[0]] + s.skip(1));
        crate::text::lemma_filter_split(seq![s[0]], s.skip(1), keep);
        reveal_with_fuel(Seq::filter, 2);
        assert(seq![s[0]].drop_last() =~= Seq::<Suggestion>::empty());
        vstd::seq_lib::lemma_multiset_commutative(seq![s[0]].filter(keep), s.skip(1).filter(keep));
        if keep(s[0]) {
            lemma_place_bounds(rest, s[0], query);
            vstd::seq_lib::to_multiset_insert(rest, place(rest, s[0], query), s[0]);
            assert(seq![s[0]].filter(keep) =~= seq![s[0]]);
            assert(seq![s[0]] =~= Seq::<Suggestion>::empty().push(s[0]));
            assert(ranked(s, query).to_multiset() =~= s.filter(keep).to_multiset());
        } else {
            assert(seq![s[0]].filter(keep) =~= Seq::<Suggestion>::empty());
            assert(ranked(s, query).to_multiset() =~= s.filter(keep).to_multiset());
        }
    }
}

/// `at` are increasing positions at or behind `i` at which the characters of
/// `query[j..]` are found in `text`, one behind the other.
pub open spec fn found_at(text: Seq<char>, query: Seq<char>, i: int, j: int, at: Seq<int>) -> bool {
    &&& at.len() == query.len() - j
    &&& forall|m: int|
        0 <= m < at.len() ==> i <= #[trigger] at[m] < text.len() && alike(text[at[m]], query[j + m])
    &&& forall|m: int, n: int| 0 <= m < n < at.len() ==> #[trigger] at[m] < #[trigger] at[n]
}

/// Whether the characters of a query are found in a text in their order, up to
/// the case of ASCII letters.
pub open spec fn is_subsequence(text: Seq<char>, query: Seq<char>) -> bool {
    exists|at: Seq<int>| found_at(text, query, 0, 0, at)
}

proof fn lemma_next_like_is(text: Seq<char>, i: int, c: char)
    requires
        0 <= i <= text.len(),
    ensures
        i <= next_like(text, i, c) <= text.len(),
        next_like(text, i, c) < text.len() ==> alike(text[next_like(text, i, c)], c),
        forall|k: int| i <= k < next_like(text, i, c) ==> !alike(#[trigger] text[k], c),
    decreases text.len() - i,
{
    if i < text.len() && !alike(text[i], c) {
        lemma_next_like_is(text, i + 1, c);
    }
}

proof fn lemma_score_finds(text: Seq<char>, query: Seq<char>, i: int, j: int, last: Option<int>) -> (at:
    Seq<int>)
    requires
        0 <= i <= text.len(),
        0 <= j <= query.len(),
        score(text, query, i, j, last) is Some,
    ensures
        found_at(text, query, i, j, at),
    decreases query.len() - j,
{
    if j >= query.len() {
        Seq::<int>::empty()
    } else {
        let k = next_like(text, i, query[j]);
        lemma_next_like_is(text, i, query[j]);
        let rest = lemma_score_finds(
            text,
            query,
            k + 1,
            j + 1,
            Some(width(text.take(k)) as int),
        );
        let at = seq![k] + rest;
        assert forall|m: int| 0 <= m < at.len() implies i <= #[trigger] at[m] < text.len() && alike(
            text[at[m]],
            query[j + m],
        ) by {
            if m > 0 {
                assert(at[m] == rest[m - 1]);
                assert(alike(text[rest[m - 1]], query[j + 1 + (m - 1)]));
            }
        }
        assert forall|m: int, n: int| 0 <= m < n < at.len() implies #[trigger] at[m]
            < #[trigger] at[n] by {
            assert(at[n] == rest[n - 1]);
            if m > 0 {
                assert(at[m] == rest[m - 1]);
            }
        }
        at
    }
}

proof fn lemma_found_scores(
    text: Seq<char>,
    query: Seq<char>,
    i: int,
    j: int,
    last: Option<int>,
    at: Seq<int>,
)
    requires
        0 <= i <= text.len(),
        0 <= j <= query.len(),
        found_at(text, query, i, j, at),
    ensures
        score(text, query, i, j, last) is Some,
    decreases query.len() - j,
{
    if j < query.len() {
        let k = next_like(text, i, query[j]);
        lemma_next_like_is(text, i, query[j]);
        assert(i <= at[0] < text.len() && alike(text[at[0]], query[j + 0]));
        assert(k <= at[0]);
        let rest = at.skip(1);
        assert forall|m: int| 0 <= m < rest.len() implies k + 1 <= #[trigger] rest[m] < text.len()
            && alike(text[rest[m]], query[j + 1 + m]) by {
            assert(rest[m] == at[m + 1]);
            assert(at[0] < at[m + 1]);
            assert(alike(text[at[m + 1]], query[j + (m + 1)]));
        }
        assert forall|m: int, n: int| 0 <= m < n < rest.len() implies #[trigger] rest[m]
            < #[trigger] rest[n] by {
            assert(at[m + 1] < at[n + 1]);
        }
        lemma_found_scores(text, query, k + 1, j + 1, Some(width(text.take(k)) as int), rest);
    }
}

/// There is a score exactly where the query is a subsequence of the text.
pub proof fn law_score_iff_subsequence(text: Seq<char>, query: Seq<char>)
    ensures
        total_score(text, query) is Some <==> is_subsequence(text, query),
{
    if total_score(text, query) is Some {
        let at = lemma_score_finds(text, query, 0, 0, None);
        assert(found_at(text, query, 0, 0, at));
    }
    if is_subsequence(text, query) {
        let at = choose|at: Seq<int>| found_at(text, query, 0, 0, at);
        lemma_found_scores(text, query, 0, 0, None, at);
    }
}

/// The candidates that rank like `x`: neither comes before the other.
pub open spec fn ties(x: Suggestion, query: Seq<char>) -> spec_fn(Suggestion) -> bool {
    |c: Suggestion| rank(c, query) is Some && !before(c, x, query) && !before(x, c, query)
}

/// Candidates that rank alike stay in the order in which they were given.
pub proof fn law_ties_in_order_given(s: Seq<Suggestion>, query: Seq<char>, x: Suggestion)
    ensures
        ranked(s, query).filter(ties(x, query)) == s.filter(ties(x, query)),
    decreases s.len(),
{
    let t = ties(x, query);
    if s.len() == 0 {
        reveal(Seq::filter);
        assert(ranked(s, query) =~= s);
    } else {
        let y = s[0];
        let tail = s.skip(1);
        let rest = ranked(tail, query);
        law_ties_in_order_given(tail, query, x);
        assert(s =~= seq![y] + tail);
        crate::text::lemma_filter_split(seq![y], tail, t);
        lemma_filter_one(y, t);
        if rank(y, query) is Some {
            let p = place(rest, y, query);
            lemma_place_bounds(rest, y, query);
            let front = rest.take(p);
            let back = rest.skip(p);
            assert(rest =~= front + back);
            assert(ranked(s, query) =~= front + (seq![y] + back));
            crate::text::lemma_filter_split(front, back, t);
            crate::text::lemma_filter_split(front, seq![y] + back, t);
            crate::text::lemma_filter_split(seq![y], back, t);
            if t(y) {
                assert forall|k: int| 0 <= k < front.len() implies !t(#[trigger] front[k]) by {
                    assert(before(rest[k], y, query));
                    lemma_before_order(y, x, rest[k], query);
                }
                lemma_filter_none(front, t);
                assert(front.filter(t) + (seq![y] + back.filter(t)) =~= seq![y] + (front.filter(t)
                    + back.filter(t)));
            } else {
                assert(front.filter(t) + (Seq::<Suggestion>::empty() + back.filter(t)) =~= front.filter(t)
                    + back.filter(t));
                assert(Seq::<Suggestion>::empty() + tail.filter(t) =~= tail.filter(t));
            }
        } else {
            assert(Seq::<Suggestion>::empty() + tail.filter(t) =~= tail.filter(t));
        }
    }
}

proof fn lemma_filter_one(x: Suggestion, p: spec_fn(Suggestion) -> bool)
    ensures
        seq![x].filter(p) == (if p(x) {
            seq![x]
        } else {
            seq![]
        }),
{
    reveal_with_fuel(Seq::filter, 2);
    assert(seq![x].drop_last() =~= Seq::<Suggestion>::empty());
    assert(seq![x] =~= Seq::<Suggestion>::empty().push(x));
}

proof fn lemma_filter_none(s: Seq<Suggestion>, p: spec_fn(Suggestion) -> bool)
    requires
        forall|k: int| 0 <= k < s.len() ==> !p(#[trigger] s[k]),
    ensures
        s.filter(p) == Seq::<Suggestion>::empty(),
    decreases s.len(),
{
    reveal(Seq::filter);
    if s.len() > 0 {
        let front = s.drop_last();
        assert forall|k: int| 0 <= k < front.len() implies !p(#[trigger] front[k]) by {
            assert(front[k] == s[k]);
        }
        lemma_filter_none(front, p);
        assert(!p(s[s.len() - 1]));
    }
}

} // verus!
