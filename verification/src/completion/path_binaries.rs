//! Offers the programs of the search path.

use crate::clock::{elapsed, elapsed_since};
use crate::completion::{suggestion_views, QueryCtx, Suggestion, SuggestionGroup, SuggestionView};
use crate::text::{
    begins, lemma_text_lt_total, lemma_text_lt_transitive, str_precedes, str_starts_with, text_lt,
    views,
};
use vstd::prelude::*;

verus! {

/// How long the names are used before they are looked up again, in
/// nanoseconds.
pub const REFRESH_TTL: u64 = 60_000_000_000;

/// The most programs that are offered at once.
pub const MAX_SUGGESTIONS: usize = 20;

/// Whether the texts are in order, none twice.
pub open spec fn in_order(s: Seq<Seq<char>>) -> bool {
    forall|i: int, j: int| 0 <= i < j < s.len() ==> text_lt(#[trigger] s[i], #[trigger] s[j])
}

/// The position of the first of the texts that does not precede `t`.
pub(crate) fn place_of(names: &Vec<String>, t: &str) -> (k: usize)
    requires
        in_order(views(names@)),
    ensures
        k <= names@.len(),
        forall|j: int| 0 <= j < k ==> text_lt(#[trigger] views(names@)[j], t@),
        forall|j: int| k <= j < names@.len() ==> !text_lt(#[trigger] views(names@)[j], t@),
{
    let ghost all = views(names@);
    let mut k: usize = 0;
    while k < names.len() && str_precedes(names[k].as_str(), t)
        invariant
            all == views(names@),
            k <= names@.len() == all.len(),
            forall|j: int| 0 <= j < k ==> text_lt(#[trigger] all[j], t@),
            in_order(all),
        decreases names@.len() - k,
    {
        assert(all[k as int] == names@[k as int]@);
        k = k + 1;
    }
    assert forall|j: int| k <= j < names@.len() implies !text_lt(#[trigger] all[j], t@) by {
        assert(all[k as int] == names@[k as int]@);
        if j > k && text_lt(all[j], t@) {
            lemma_text_lt_transitive(all[k as int], all[j], t@);
        }
    }
    k
}

/// Adds a name where it belongs, unless it is there.
fn insert_name(names: &mut Vec<String>, t: &String)
    requires
        in_order(views(old(names)@)),
    ensures
        in_order(views(final(names)@)),
        views(final(names)@).to_set() == views(old(names)@).to_set().insert(t@),
{
    let k: usize = place_of(names, t.as_str());
    let ghost all = views(names@);
    if k < names.len() && names[k] == *t {
        assert(all[k as int] == t@);
        assert(all.contains(t@));
        assert(all.to_set().insert(t@) =~= all.to_set());
        return;
    }
    names.insert(k, t.clone());
    let ghost now = views(names@);
    proof {
        assert(now =~= all.insert(k as int, t@));
        assert forall|i: int, j: int| 0 <= i < j < now.len() implies text_lt(
            #[trigger] now[i],
            #[trigger] now[j],
        ) by {
            if i == k {
                assert(now[j] == all[j - 1]);
                lemma_text_lt_total(t@, all[j - 1]);
                if j - 1 > k {
                    assert(text_lt(all[k as int], all[j - 1]));
                    if t@ == all[j - 1] {
                        assert(!text_lt(all[k as int], t@));
                    }
                } else {
                    assert(all[k as int] == old(names)@[k as int]@);
                }
            } else if j == k {
                assert(now[i] == all[i]);
            } else {
                let x = if i < k {
                    i
                } else {
                    i - 1
                };
                let y = if j < k {
                    j
                } else {
                    j - 1
                };
                assert(now[i] == all[x] && now[j] == all[y]);
            }
        }
        assert forall|x: Seq<char>| now.to_set().contains(x) == all.to_set().insert(
            t@,
        ).contains(x) by {
            if all.contains(x) {
                let i = choose|i: int| 0 <= i < all.len() && all[i] == x;
                let j = if i < k {
                    i
                } else {
                    i + 1
                };
                assert(now[j] == x);
            }
            if x == t@ {
                assert(now[k as int] == x);
            }
            if now.contains(x) {
                let j = choose|j: int| 0 <= j < now.len() && now[j] == x;
                if j < k {
                    assert(all[j] == x);
                } else if j > k {
                    assert(all[j - 1] == x);
                }
            }
        }
        assert(now.to_set() =~= all.to_set().insert(t@));
    }
}

/// The names that were found, in order and none twice.
pub fn ordered_names(found: &Vec<String>) -> (r: Vec<String>)
    ensures
        in_order(views(r@)),
        views(r@).to_set() == views(found@).to_set(),
{
    let ghost all = views(found@);
    let mut out: Vec<String> = Vec::new();
    let mut i: usize = 0;
    assert(views(out@) =~= seq![]);
    assert(all.take(0) =~= seq![]);
    while i < found.len()
        invariant
            all == views(found@),
            i <= found@.len() == all.len(),
            in_order(views(out@)),
            views(out@).to_set() == all.take(i as int).to_set(),
        decreases found@.len() - i,
    {
        insert_name(&mut out, &found[i]);
        proof {
            assert(all[i as int] == found@[i as int]@);
            lemma_take_set(all, i as int);
        }
        i = i + 1;
    }
    assert(all.take(all.len() as int) =~= all);
    out
}

proof fn lemma_take_set(s: Seq<Seq<char>>, i: int)
    requires
        0 <= i < s.len(),
    ensures
        s.take(i + 1).to_set() == s.take(i).to_set().insert(s[i]),
{
    let a = s.take(i);
    let b = s.take(i + 1);
    assert forall|x: Seq<char>| b.to_set().contains(x) == a.to_set().insert(s[i]).contains(x) by {
        if a.contains(x) {
            let k = choose|k: int| 0 <= k < a.len() && a[k] == x;
            assert(b[k] == x);
        }
        if x == s[i] {
            assert(b[i] == x);
        }
        if b.contains(x) {
            let k = choose|k: int| 0 <= k < b.len() && b[k] == x;
            if k < i {
                assert(a[k] == x);
            }
        }
    }
    assert(b.to_set() =~= a.to_set().insert(s[i]));
}

/// Two lists in order that hold the same texts are equal.
pub proof fn law_order_is_unique(a: Seq<Seq<char>>, b: Seq<Seq<char>>)
    requires
        in_order(a),
        in_order(b),
        a.to_set() == b.to_set(),
    ensures
        a == b,
    decreases a.len(),
{
    if a.len() == 0 {
        if b.len() > 0 {
            assert(b.contains(b[0]));
            assert(b.to_set().contains(b[0]));
            assert(a.contains(b[0]));
        }
        assert(a =~= b);
    } else {
        assert(a.to_set().contains(a.last())) by {
            assert(a[a.len() - 1] == a.last());
        }
        assert(b.contains(a.last()));
        let i = choose|i: int| 0 <= i < b.len() && b[i] == a.last();
        assert(b.to_set().contains(b.last())) by {
            assert(b[b.len() - 1] == b.last());
        }
        assert(a.contains(b.last()));
        let j = choose|j: int| 0 <= j < a.len() && a[j] == b.last();
        if i < b.len() - 1 {
            assert(text_lt(b[i], b[b.len() - 1]));
            if j < a.len() - 1 {
                assert(text_lt(a[j], a[a.len() - 1]));
                lemma_text_lt_total(a.last(), b.last());
            } else {
                lemma_text_lt_total(a.last(), b.last());
            }
        }
        assert(a.last() == b.last());
        lemma_set_drop_last(a);
        lemma_set_drop_last(b);
        assert(in_order(a.drop_last()));
        assert(in_order(b.drop_last()));
        law_order_is_unique(a.drop_last(), b.drop_last());
        assert(a =~= a.drop_last().push(a.last()));
        assert(b =~= b.drop_last().push(b.last()));
    }
}

proof fn lemma_set_drop_last(s: Seq<Seq<char>>)
    requires
        in_order(s),
        s.len() > 0,
    ensures
        s.drop_last().to_set() == s.to_set().remove(s.last()),
{
    let t = s.drop_last();
    assert forall|x: Seq<char>| t.to_set().contains(x) == s.to_set().remove(s.last()).contains(
        x,
    ) by {
        if t.contains(x) {
            let i = choose|i: int| 0 <= i < t.len() && t[i] == x;
            assert(s[i] == x);
            assert(text_lt(s[i], s[s.len() - 1]));
            lemma_text_lt_total(x, s.last());
        }
        if s.contains(x) && x != s.last() {
            let i = choose|i: int| 0 <= i < s.len() && s[i] == x;
            assert(t[i] == x);
        }
    }
    assert(t.to_set() =~= s.to_set().remove(s.last()));
}

/// The names of the programs of the search path, and when they were looked
/// up.
pub struct PathBinariesProvider {
    known: Option<CachedBinaries>,
}

struct CachedBinaries {
    names: Vec<String>,
    refreshed_at: u64,
}

/// Those of the names that begin with a prefix, as many as are offered at
/// once.
pub open spec fn first_beginning(names: Seq<Seq<char>>, prefix: Seq<char>) -> Seq<Seq<char>> {
    let all = names.filter(|n: Seq<char>| begins(n, prefix));
    all.take(
        if all.len() < MAX_SUGGESTIONS {
            all.len() as int
        } else {
            MAX_SUGGESTIONS as int
        },
    )
}

/// A program as it is offered.
pub open spec fn program_offer(name: Seq<char>) -> SuggestionView {
    SuggestionView {
        text: name,
        display: name,
        description: seq![],
        group: SuggestionGroup::Subcommand,
    }
}

/// What is offered for a question, given the names.
pub open spec fn binary_offers(
    names: Seq<Seq<char>>,
    previous: nat,
    prefix: Seq<char>,
) -> Seq<SuggestionView> {
    if previous > 0 || prefix.len() == 0 {
        seq![]
    } else {
        first_beginning(names, prefix).map_values(|n: Seq<char>| program_offer(n))
    }
}

impl PathBinariesProvider {
    /// The names, and when they were looked up.
    pub closed spec fn known(&self) -> Option<(Seq<Seq<char>>, u64)> {
        match self.known {
            Some(c) => Some((views(c.names@), c.refreshed_at)),
            None => None,
        }
    }

    pub fn new() -> (r: Self)
        ensures
            r.known() is None,
    {
        PathBinariesProvider { known: None }
    }

    pub fn name(&self) -> (r: &'static str)
        ensures
            r@ == "path_binaries"@,
    {
        "path_binaries"
    }

    /// Whether the names must be looked up for a question: it is one about
    /// programs, and they are not known or have been for too long.
    pub fn needs_refresh(&self, ctx: &QueryCtx, now: u64) -> (b: bool)
        ensures
            b == (ctx.previous_tokens@.len() == 0 && ctx.current_token@.len() > 0 && (
            match self.known() {
                Some((_, at)) => elapsed(at, now) > REFRESH_TTL,
                None => true,
            })),
    {
        if ctx.previous_tokens.len() > 0 || ctx.current_token.as_str().is_empty() {
            return false;
        }
        match &self.known {
            Some(c) => elapsed_since(c.refreshed_at, now) > REFRESH_TTL,
            None => true,
        }
    }

    /// Takes the names that were found.
    pub fn refresh(&mut self, found: &Vec<String>, now: u64)
        ensures
            final(self).known() matches Some((names, at)) && at == now && in_order(names)
                && names.to_set() == views(found@).to_set(),
    {
        self.known = Some(CachedBinaries { names: ordered_names(found), refreshed_at: now });
    }

    /// What is offered for a question.
    pub fn query(&self, ctx: &QueryCtx) -> (r: Vec<Suggestion>)
        ensures
            suggestion_views(r@) == binary_offers(
                match self.known() {
                    Some((names, _)) => names,
                    None => seq![],
                },
                ctx.previous_tokens@.len(),
                ctx.current_token@,
            ),
    {
        let mut out: Vec<Suggestion> = Vec::new();
        assert(suggestion_views(out@) =~= seq![]);
        if ctx.previous_tokens.len() > 0 || ctx.current_token.as_str().is_empty() {
            return out;
        }
        let ghost p = |n: Seq<char>| begins(n, ctx.current_token@);
        match &self.known {
            None => {
                proof {
                    reveal(Seq::filter);
                    assert(Seq::<Seq<char>>::empty().filter(p) =~= seq![]);
                    assert(suggestion_views(out@) =~= binary_offers(
                        seq![],
                        0,
                        ctx.current_token@,
                    ));
                }
                out
            },
            Some(c) => offer_names(&c.names, &ctx.current_token),
        }
    }
}

/// The first programs that begin with a prefix.
fn offer_names(names: &Vec<String>, prefix: &String) -> (r: Vec<Suggestion>)
    ensures
        suggestion_views(r@) == first_beginning(views(names@), prefix@).map_values(
            |n: Seq<char>| program_offer(n),
        ),
{
    let ghost all = views(names@);
    let ghost p = |n: Seq<char>| begins(n, prefix@);
    let ghost f = |n: Seq<char>| program_offer(n);
    let mut out: Vec<Suggestion> = Vec::new();
    let mut i: usize = 0;
    proof {
        reveal(Seq::filter);
        assert(all.take(0).filter(p) =~= seq![]);
        assert(suggestion_views(out@) =~= all.take(0).filter(p).map_values(f));
    }
    while i < names.len() && out.len() < MAX_SUGGESTIONS
        invariant
            all == views(names@),
            p == (|n: Seq<char>| begins(n, prefix@)),
            f == (|n: Seq<char>| program_offer(n)),
            i <= names@.len() == all.len(),
            out@.len() <= MAX_SUGGESTIONS,
            suggestion_views(out@) == all.take(i as int).filter(p).map_values(f),
        decreases names@.len() - i,
    {
        assert(all[i as int] == names@[i as int]@);
        proof {
            crate::seqs::lemma_filter_take(all, p, i as int);
        }
        if str_starts_with(names[i].as_str(), prefix.as_str()) {
            let ghost before = suggestion_views(out@);
            let s: Suggestion = Suggestion {
                text: names[i].clone(),
                display: names[i].clone(),
                description: String::new(),
                group: SuggestionGroup::Subcommand,
            };
            out.push(s);
            proof {
                assert(s@ =~= program_offer(all[i as int]));
                assert(suggestion_views(out@) =~= before.push(s@));
                assert(all.take(i + 1).filter(p).map_values(f) =~= all.take(i as int).filter(
                    p,
                ).map_values(f).push(f(all[i as int])));
            }
        }
        i = i + 1;
    }
    proof {
        assert(suggestion_views(out@).len() == out@.len());
        let shown = all.take(i as int).filter(p);
        crate::text::lemma_filter_split(all.take(i as int), all.skip(i as int), p);
        assert(all.take(i as int) + all.skip(i as int) =~= all);
        let whole = all.filter(p);
        if i == all.len() {
            assert(all.take(i as int) =~= all);
        }
        assert(first_beginning(all, prefix@) =~= shown);
    }
    out
}

proof fn lemma_filtered(names: Seq<Seq<char>>, p: spec_fn(Seq<char>) -> bool)
    requires
        in_order(names),
    ensures
        in_order(names.filter(p)),
        forall|k: int|
            0 <= k < names.filter(p).len() ==> p(#[trigger] names.filter(p)[k]) && names.contains(
                names.filter(p)[k],
            ),
        forall|i: int|
            0 <= i < names.len() && p(#[trigger] names[i]) ==> names.filter(p).contains(names[i]),
    decreases names.len(),
{
    reveal(Seq::filter);
    let all = names.filter(p);
    if names.len() > 0 {
        let front = names.drop_last();
        let before = front.filter(p);
        lemma_filtered(front, p);
        assert forall|k: int| 0 <= k < all.len() implies p(#[trigger] all[k]) && names.contains(
            all[k],
        ) by {
            if k < before.len() {
                assert(all[k] == before[k]);
                let j = choose|j: int| 0 <= j < front.len() && front[j] == before[k];
                assert(names[j] == all[k]);
            } else {
                assert(names[names.len() - 1] == all[k]);
            }
        }
        assert forall|i: int| 0 <= i < names.len() && p(#[trigger] names[i]) implies all.contains(
            names[i],
        ) by {
            if i < front.len() {
                assert(front[i] == names[i]);
                let k = choose|k: int| 0 <= k < before.len() && before[k] == names[i];
                assert(all[k] == before[k]);
            } else {
                assert(all.last() == names[i]);
            }
        }
        assert forall|a: int, b: int| 0 <= a < b < all.len() implies text_lt(
            #[trigger] all[a],
            #[trigger] all[b],
        ) by {
            assert(all[a] == before[a]);
            if b < before.len() {
                assert(all[b] == before[b]);
            } else {
                let j = choose|j: int| 0 <= j < front.len() && front[j] == before[a];
                assert(names[j] == all[a]);
                assert(text_lt(names[j], names[names.len() - 1]));
            }
        }
    }
}

/// Programs are offered for the first word of a line, once something of it is
/// typed: those whose names begin with it, in order, at most twenty; where one is
/// left out, twenty that precede it are offered.
pub proof fn law_programs_are_offered(
    names: Seq<Seq<char>>,
    previous: nat,
    prefix: Seq<char>,
    i: int,
    j: int,
)
    requires
        in_order(names),
    ensures
        ({
            let offers = binary_offers(names, previous, prefix);
            let offered = previous == 0 && prefix.len() > 0;
            &&& !offered ==> offers.len() == 0
            &&& offers.len() <= 20
            &&& 0 <= i < offers.len() ==> {
                let o = offers[i];
                &&& names.contains(o.text) && o.display == o.text && o.description.len() == 0
                &&& o.group == SuggestionGroup::Subcommand
                &&& prefix.len() <= o.text.len() && o.text.take(prefix.len() as int) == prefix
            }
            &&& 0 <= i < j < offers.len() ==> text_lt(offers[i].text, offers[j].text)
            &&& offered && 0 <= i < names.len() && prefix.len() <= names[i].len() && names[i].take(
                prefix.len() as int,
            ) == prefix ==> {
                ||| exists|k: int| 0 <= k < offers.len() && (#[trigger] offers[k]).text == names[i]
                ||| offers.len() == 20 && forall|k: int|
                    0 <= k < 20 ==> text_lt((#[trigger] offers[k]).text, names[i])
            }
        }),
{
    let p = |n: Seq<char>| begins(n, prefix);
    let all = names.filter(p);
    let offers = binary_offers(names, previous, prefix);
    lemma_filtered(names, p);
    if previous == 0 && prefix.len() > 0 {
        let n = offers.len() as int;
        assert forall|k: int| 0 <= k < n implies (#[trigger] offers[k]) == program_offer(
            all[k],
        ) by {}
        if 0 <= i < n {
            assert(p(all[i]));
            assert(all[i].subrange(0, prefix.len() as int) =~= all[i].take(prefix.len() as int));
        }
        if 0 <= i < j < n {
            assert(text_lt(all[i], all[j]));
        }
        if 0 <= i < names.len() && prefix.len() <= names[i].len() && names[i].take(
            prefix.len() as int,
        ) == prefix {
            assert(names[i].subrange(0, prefix.len() as int) =~= names[i].take(prefix.len() as int));
            assert(p(names[i]));
            let k = choose|k: int| 0 <= k < all.len() && all[k] == names[i];
            if k < n {
                assert(offers[k].text == names[i]);
            } else {
                assert forall|m: int| 0 <= m < 20 implies text_lt(
                    (#[trigger] offers[m]).text,
                    names[i],
                ) by {
                    assert(text_lt(all[m], all[k]));
                }
            }
        }
    }
}

} // verus!
