//! Facts about sequences.

use vstd::prelude::*;

verus! {

/// The position of the first element that satisfies `p`.
pub open spec fn first_where<A>(s: Seq<A>, p: spec_fn(A) -> bool) -> Option<int>
    decreases s.len(),
{
    if s.len() == 0 {
        None
    } else if p(s[0]) {
        Some(0)
    } else {
        match first_where(s.skip(1), p) {
            Some(i) => Some(i + 1),
            None => None,
        }
    }
}

/// Position `i` is the first that satisfies `p`, or the length where none
/// does.
pub proof fn lemma_first_where<A>(s: Seq<A>, p: spec_fn(A) -> bool, i: int)
    requires
        0 <= i <= s.len(),
        forall|j: int| 0 <= j < i ==> !p(#[trigger] s[j]),
        i < s.len() ==> p(s[i]),
    ensures
        first_where(s, p) == (if i < s.len() {
            Some(i)
        } else {
            None
        }),
    decreases i,
{
    if i > 0 {
        assert(!p(s[0]));
        assert forall|j: int| 0 <= j < i - 1 implies !p(#[trigger] s.skip(1)[j]) by {
            assert(s.skip(1)[j] == s[j + 1]);
        }
        lemma_first_where(s.skip(1), p, i - 1);
    }
}

/// What the first position that satisfies `p` is.
pub proof fn lemma_first_where_is<A>(s: Seq<A>, p: spec_fn(A) -> bool)
    ensures
        match first_where(s, p) {
            Some(i) => 0 <= i < s.len() && p(s[i]) && forall|j: int|
                0 <= j < i ==> !p(#[trigger] s[j]),
            None => forall|j: int| 0 <= j < s.len() ==> !p(#[trigger] s[j]),
        },
    decreases s.len(),
{
    if s.len() > 0 && !p(s[0]) {
        let rest = s.skip(1);
        lemma_first_where_is(rest, p);
        assert forall|j: int| 0 < j < s.len() implies #[trigger] s[j] == rest[j - 1] by {}
    }
}

/// One more element adds itself to the filtered sequence, or nothing.
pub proof fn lemma_filter_take<A>(s: Seq<A>, p: spec_fn(A) -> bool, i: int)
    requires
        0 <= i < s.len(),
    ensures
        s.take(i + 1).filter(p) == (if p(s[i]) {
            s.take(i).filter(p).push(s[i])
        } else {
            s.take(i).filter(p)
        }),
{
    reveal(Seq::filter);
    assert(s.take(i + 1).drop_last() =~= s.take(i));
}

/// What `rule` makes of the elements, without those of which it makes
/// nothing.
pub open spec fn kept<A, B>(s: Seq<A>, rule: spec_fn(A) -> Option<B>) -> Seq<B>
    decreases s.len(),
{
    if s.len() == 0 {
        seq![]
    } else {
        let rest = kept(s.drop_last(), rule);
        match rule(s.last()) {
            Some(b) => rest.push(b),
            None => rest,
        }
    }
}

/// One more element adds what the rule makes of it.
pub proof fn lemma_kept_take<A, B>(s: Seq<A>, rule: spec_fn(A) -> Option<B>, i: int)
    requires
        0 <= i < s.len(),
    ensures
        kept(s.take(i + 1), rule) == match rule(s[i]) {
            Some(b) => kept(s.take(i), rule).push(b),
            None => kept(s.take(i), rule),
        },
{
    assert(s.take(i + 1).drop_last() =~= s.take(i));
}

/// What is made of two lists one behind the other is what is made of each, and
/// of a single element what the rule makes of it.
pub proof fn law_kept_goes_along<A, B>(a: Seq<A>, b: Seq<A>, x: A, rule: spec_fn(A) -> Option<B>)
    ensures
        kept(a + b, rule) == kept(a, rule) + kept(b, rule),
        rule(x) matches Some(y) ==> kept(seq![x], rule) == seq![y],
        rule(x) is None ==> kept(seq![x], rule).len() == 0,
        kept(Seq::<A>::empty(), rule).len() == 0,
    decreases b.len(),
{
    assert(seq![x].drop_last() =~= Seq::<A>::empty());
    assert(kept(Seq::<A>::empty(), rule) =~= seq![]);
    if rule(x) is Some {
        assert(kept(seq![x], rule) =~= seq![rule(x)->0]);
    }
    if b.len() == 0 {
        assert(a + b =~= a);
        assert(kept(a, rule) + kept(b, rule) =~= kept(a, rule));
    } else {
        assert((a + b).drop_last() =~= a + b.drop_last());
        law_kept_goes_along(a, b.drop_last(), x, rule);
        assert(kept(a + b, rule) =~= kept(a, rule) + kept(b, rule));
    }
}

/// What is kept was made of an element, and of each element what is made of it
/// is kept.
pub proof fn lemma_kept_contains<A, B>(s: Seq<A>, rule: spec_fn(A) -> Option<B>)
    ensures
        forall|i: int|
            0 <= i < s.len() && rule(#[trigger] s[i]) is Some ==> kept(s, rule).contains(
                rule(s[i])->0,
            ),
        forall|k: int|
            0 <= k < kept(s, rule).len() ==> exists|i: int|
                0 <= i < s.len() && rule(#[trigger] s[i]) == Some(#[trigger] kept(s, rule)[k]),
    decreases s.len(),
{
    if s.len() > 0 {
        let front = s.drop_last();
        let all = kept(s, rule);
        let before = kept(front, rule);
        lemma_kept_contains(front, rule);
        assert forall|i: int| 0 <= i < s.len() && rule(#[trigger] s[i]) is Some implies all.contains(
            rule(s[i])->0,
        ) by {
            if i < front.len() {
                assert(front[i] == s[i]);
                let k = choose|k: int| 0 <= k < before.len() && before[k] == rule(s[i])->0;
                assert(all[k] == before[k]);
            } else {
                assert(all.last() == rule(s[i])->0);
            }
        }
        assert forall|k: int| 0 <= k < all.len() implies exists|i: int|
            0 <= i < s.len() && rule(#[trigger] s[i]) == Some(#[trigger] all[k]) by {
            if k < before.len() {
                assert(all[k] == before[k]);
                let i = choose|i: int|
                    0 <= i < front.len() && rule(#[trigger] front[i]) == Some(before[k]);
                assert(s[i] == front[i]);
            } else {
                assert(rule(s[s.len() - 1]) == Some(all[k]));
            }
        }
    }
}

} // verus!
