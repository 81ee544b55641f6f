//! What ranking is for, in terms of the candidates and what has been typed.

use crate::completion::Suggestion;
use crate::composer::fuzzy::{
    alike, found_at, gain, is_subsequence, law_ranked_in_order, law_ranked_keeps_matches,
    law_score_iff_subsequence, lemma_next_like, lemma_place_bounds, place, rank, ranked, score,
    total_score,
};
use crate::text::{text_lt, width};
use vstd::prelude::*;

verus! {

/// The greater of the scores that a candidate has by its text and by what the
/// list shows of it, as far as it has them.
pub open spec fn greater_score(c: Suggestion, query: Seq<char>) -> int {
    let x = total_score(c.text@, query);
    let y = total_score(c.display@, query);
    if x is None || (y is Some && y->0 > x->0) {
        y->0
    } else {
        x->0
    }
}

proof fn lemma_rank_is_greater(c: Suggestion, query: Seq<char>)
    ensures
        rank(c, query) is Some <==> (total_score(c.text@, query) is Some || total_score(
            c.display@,
            query,
        ) is Some),
        rank(c, query) is Some ==> rank(c, query)->0 == greater_score(c, query),
{
}

/// The best match comes first: of two candidates in the list, the one in front
/// has a score that is at least as great; with equal scores its display is not
/// the longer one; and with that equal too, it is not the one that comes later
/// in the order of text.
pub proof fn law_best_first(s: Seq<Suggestion>, query: Seq<char>, i: int, j: int)
    requires
        0 <= i < j < ranked(s, query).len(),
    ensures
        ({
            let a = ranked(s, query)[i];
            let b = ranked(s, query)[j];
            &&& greater_score(a, query) >= greater_score(b, query)
            &&& greater_score(a, query) == greater_score(b, query) ==> width(a.display@) <= width(
                b.display@,
            )
            &&& greater_score(a, query) == greater_score(b, query) && width(a.display@) == width(
                b.display@,
            ) ==> !text_lt(b.display@, a.display@)
        }),
{
    law_ranked_in_order(s, query, i, j);
    lemma_ranked_has_score(s, query, i);
    lemma_ranked_has_score(s, query, j);
    lemma_rank_is_greater(ranked(s, query)[i], query);
    lemma_rank_is_greater(ranked(s, query)[j], query);
}

proof fn lemma_ranked_has_score(s: Seq<Suggestion>, query: Seq<char>, i: int)
    requires
        0 <= i < ranked(s, query).len(),
    ensures
        rank(ranked(s, query)[i], query) is Some,
    decreases s.len(),
{
    let rest = ranked(s.skip(1), query);
    if rank(s[0], query) is Some {
        let p = place(rest, s[0], query);
        lemma_place_bounds(rest, s[0], query);
        if i != p {
            lemma_ranked_has_score(
                s.skip(1),
                query,
                if i < p {
                    i
                } else {
                    i - 1
                },
            );
        }
    } else {
        lemma_ranked_has_score(s.skip(1), query, i);
    }
}

/// The list holds exactly the candidates of which the query is a subsequence,
/// by their text or by what is shown of them, each as often as it was given.
pub proof fn law_list_holds_matches(s: Seq<Suggestion>, query: Seq<char>)
    ensures
        ranked(s, query).to_multiset() == s.filter(
            |c: Suggestion|
                is_subsequence(c.text@, query) || is_subsequence(c.display@, query),
        ).to_multiset(),
{
    let keep = |c: Suggestion| rank(c, query) is Some;
    let fits = |c: Suggestion| is_subsequence(c.text@, query) || is_subsequence(c.display@, query);
    assert forall|c: Suggestion| #[trigger] keep(c) == fits(c) by {
        lemma_rank_is_greater(c, query);
        law_score_iff_subsequence(c.text@, query);
        law_score_iff_subsequence(c.display@, query);
    }
    assert(keep =~= fits);
    law_ranked_keeps_matches(s, query);
}

/// Characters are alike where they are the same, or the same ASCII letter in
/// upper and lower case.
pub proof fn law_case_does_not_matter(a: char, b: char)
    ensures
        alike(a, b) == (a == b || ('A' <= a <= 'Z' && b as int == a as int + 32) || ('A' <= b <= 'Z'
            && a as int == b as int + 32)),
{
}

/// Each of the positions is the first that can be had behind the one before.
pub open spec fn leftmost(text: Seq<char>, query: Seq<char>, at: Seq<int>) -> bool {
    forall|m: int, k: int|
        #![trigger at[m], text[k]]
        0 <= m < at.len() && (m == 0 || at[m - 1] < k) && 0 <= k < at[m] ==> !alike(
            text[k],
            query[m],
        )
}

/// What the match of character `m` of the query counts.
pub open spec fn points(text: Seq<char>, query: Seq<char>, at: Seq<int>, m: int) -> int {
    let offset = width(text.take(at[m])) as int;
    let near = m > 0 && width(text.take(at[m - 1])) + 1 == offset;
    let edge = at[m] == 0 || seq!['-', '_', '/', '.', ' '].contains(text[at[m] - 1]);
    10 + (if text[at[m]] == query[m] {
        2int
    } else {
        0
    }) + (if near {
        8int
    } else {
        0
    }) + (if edge {
        6int
    } else {
        0
    }) - vstd::math::min(offset, 20)
}

/// What the matches from character `m` of the query on count.
pub open spec fn points_from(text: Seq<char>, query: Seq<char>, at: Seq<int>, m: int) -> int
    decreases at.len() - m,
{
    if m >= at.len() {
        0
    } else {
        points(text, query, at, m) + points_from(text, query, at, m + 1)
    }
}

/// A score is the sum of what the matches count, each found as far to the left
/// as can be: 10 for a match, 2 more in the same case, 8 more right behind the
/// last one, 6 more at the edge of a word, less the distance from the start, up
/// to 20.
pub proof fn law_score_is_the_sum(text: Seq<char>, query: Seq<char>, at: Seq<int>)
    requires
        found_at(text, query, 0, 0, at),
        leftmost(text, query, at),
    ensures
        total_score(text, query) == Some(points_from(text, query, at, 0)),
{
    lemma_score_from(text, query, at, 0, 0, None);
}

proof fn lemma_points_gained(text: Seq<char>, query: Seq<char>, at: Seq<int>, m: int)
    requires
        0 <= m < at.len(),
    ensures
        points(text, query, at, m) == gain(
            text,
            at[m],
            query[m],
            if m == 0 {
                None
            } else {
                Some(width(text.take(at[m - 1])) as int)
            },
        ),
{
    let set = seq!['-', '_', '/', '.', ' '];
    let c = text[at[m] - 1];
    assert(set[0] == '-' && set[1] == '_' && set[2] == '/' && set[3] == '.' && set[4] == ' ');
    if set.contains(c) {
        let n = choose|n: int| 0 <= n < set.len() && set[n] == c;
        assert(n == 0 || n == 1 || n == 2 || n == 3 || n == 4);
    }
}

proof fn lemma_score_from(
    text: Seq<char>,
    query: Seq<char>,
    at: Seq<int>,
    i: int,
    j: int,
    last: Option<int>,
)
    requires
        found_at(text, query, 0, 0, at),
        leftmost(text, query, at),
        0 <= j <= at.len(),
        i == (if j == 0 {
            0
        } else {
            at[j - 1] + 1
        }),
        last == (if j == 0 {
            None
        } else {
            Some(width(text.take(at[j - 1])) as int)
        }),
    ensures
        score(text, query, i, j, last) == Some(points_from(text, query, at, j)),
    decreases at.len() - j,
{
    if j < at.len() {
        let k = at[j];
        lemma_score_from(text, query, at, k + 1, j + 1, Some(width(text.take(k)) as int));
        if j > 0 {
            assert(at[j - 1] < at[j]);
            assert(0 <= at[j - 1]);
        }
        assert(alike(text[at[j]], query[0 + j]));
        assert forall|n: int| i <= n < k implies !alike(#[trigger] text[n], query[j]) by {
            assert(0 <= n < at[j]);
        }
        lemma_next_like(text, i, query[j], k);
        lemma_points_gained(text, query, at, j);
    }
}

/// In whatever order the candidates are given, the list holds the same ones.
pub proof fn law_order_given_does_not_matter(
    s: Seq<Suggestion>,
    t: Seq<Suggestion>,
    query: Seq<char>,
)
    requires
        s.to_multiset() == t.to_multiset(),
    ensures
        ranked(s, query).to_multiset() == ranked(t, query).to_multiset(),
{
    let keep = |c: Suggestion| rank(c, query) is Some;
    law_ranked_keeps_matches(s, query);
    law_ranked_keeps_matches(t, query);
    assert(s.filter(keep).to_multiset() =~= t.filter(keep).to_multiset()) by {
        broadcast use vstd::seq_lib::group_to_multiset_ensures;

        assert forall|x: Suggestion|
            #[trigger] s.filter(keep).to_multiset().count(x) == t.filter(keep).to_multiset().count(
                x,
            ) by {
            lemma_filter_count(s, keep, x);
            lemma_filter_count(t, keep, x);
        }
    }
}

proof fn lemma_filter_count(s: Seq<Suggestion>, p: spec_fn(Suggestion) -> bool, x: Suggestion)
    ensures
        s.filter(p).to_multiset().count(x) == (if p(x) {
            s.to_multiset().count(x)
        } else {
            0
        }),
    decreases s.len(),
{
    broadcast use vstd::seq_lib::group_to_multiset_ensures;

    reveal(Seq::filter);
    if s.len() > 0 {
        let front = s.drop_last();
        lemma_filter_count(front, p, x);
        assert(s =~= front.push(s.last()));
    }
}

} // verus!
