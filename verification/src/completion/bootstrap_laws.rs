//! Which programs are indexed, and what becomes of each.

use crate::completion::bootstrap::{
    begun, by_name, chosen, counted, failed_run, is_first, one_done, outcome_of, program_key,
    unwanted, Candidate, Outcome, Program, Reply, Run, Stage,
};
use crate::completion::cache::{
    distinct_keys, item_at, law_entry_is_found, law_get_after_put, Ident, Item, Key,
};
use crate::completion::Suggestion;
use crate::paths::{place, Place};
use crate::text::text_lt;
use vstd::prelude::*;

verus! {

/// Neither the path nor the name of the program is on the list.
pub open spec fn may_be_indexed(c: Candidate, denied: Seq<Seq<char>>) -> bool {
    forall|k: int|
        0 <= k < denied.len() ==> #[trigger] denied[k] != c.text@ && denied[k] != c.file_name@
}

/// The program may be indexed, and none of its name that may be was found before
/// it.
pub open spec fn leads(found: Seq<Candidate>, denied: Seq<Seq<char>>, i: int) -> bool {
    &&& may_be_indexed(found[i], denied)
    &&& forall|j: int|
        0 <= j < i && may_be_indexed(#[trigger] found[j], denied) ==> found[j].name@
            != found[i].name@
}

proof fn lemma_may_be_indexed(c: Candidate, denied: Seq<Seq<char>>)
    ensures
        may_be_indexed(c, denied) <==> !unwanted(c, denied),
{
    if !unwanted(c, denied) {
        assert forall|k: int| 0 <= k < denied.len() implies #[trigger] denied[k] != c.text@
            && denied[k] != c.file_name@ by {
            assert(denied.contains(denied[k]));
        }
    }
}

proof fn lemma_leads(found: Seq<Candidate>, denied: Seq<Seq<char>>, i: int)
    requires
        0 <= i < found.len(),
    ensures
        leads(found, denied, i) <==> is_first(found, denied, i),
{
    assert forall|j: int| 0 <= j <= i implies may_be_indexed(#[trigger] found[j], denied)
        == !unwanted(found[j], denied) by {
        lemma_may_be_indexed(found[j], denied);
    }
    if leads(found, denied, i) {
        assert forall|j: int| 0 <= j < i && !unwanted(found[j], denied) implies (
        #[trigger] found[j]).name@ != found[i].name@ by {
            assert(may_be_indexed(found[j], denied));
        }
        assert(may_be_indexed(found[i], denied));
    }
    if is_first(found, denied, i) {
        assert(may_be_indexed(found[i], denied));
    }
}

/// The program as it is indexed.
pub open spec fn as_found(c: Candidate, p: Program) -> bool {
    p.name == c.name@ && p.path == c.path@ && c.mtime == Some(p.mtime)
}

/// Of the programs of each name that may be indexed the one that was found first
/// is, where it is known when it was changed; and no other program is.
pub proof fn law_programs_are_chosen(
    found: Seq<Candidate>,
    denied: Seq<Seq<char>>,
    n: int,
    i: int,
)
    requires
        0 <= n <= found.len(),
    ensures
        0 <= i < n && leads(found, denied, i) && found[i].mtime is Some ==> exists|k: int|
            0 <= k < chosen(found, denied, n).len() && as_found(
                found[i],
                #[trigger] chosen(found, denied, n)[k],
            ),
        0 <= i < chosen(found, denied, n).len() ==> exists|j: int|
            0 <= j < n && leads(found, denied, j) && as_found(
                #[trigger] found[j],
                chosen(found, denied, n)[i],
            ),
    decreases n,
{
    if n > 0 {
        law_programs_are_chosen(found, denied, n - 1, i);
        lemma_leads(found, denied, n - 1);
        let rest = chosen(found, denied, n - 1);
        let all = chosen(found, denied, n);
        if 0 <= i < n && leads(found, denied, i) && found[i].mtime is Some {
            if i < n - 1 {
                let k = choose|k: int| 0 <= k < rest.len() && as_found(found[i], #[trigger] rest[k]);
                assert(all[k] == rest[k]);
                assert(as_found(found[i], all[k]));
            } else {
                let k = rest.len() as int;
                assert(as_found(found[i], all[k]));
            }
        }
        if 0 <= i < all.len() {
            if i < rest.len() {
                assert(all[i] == rest[i]);
                let j = choose|j: int|
                    0 <= j < n - 1 && leads(found, denied, j) && as_found(
                        #[trigger] found[j],
                        rest[i],
                    );
                assert(as_found(found[j], all[i]));
            } else {
                assert(as_found(found[n - 1], all[i]));
            }
        }
    }
}

/// The question that is remembered of a program: its path, when it was changed,
/// and `help:` with its name.
pub open spec fn help_key(p: Program) -> Ident {
    Key { path: p.path, mtime: p.mtime, signature: seq!['h', 'e', 'l', 'p', ':'] + p.name }.ident()
}

proof fn lemma_help_key(p: Program)
    ensures
        program_key(p).ident() == help_key(p),
{
    reveal_strlit("help:");
    assert("help:"@ =~= seq!['h', 'e', 'l', 'p', ':']);
}

/// A program had no answer within the last day.
pub open spec fn had_no_answer(r: Run, p: Program, now: u64) -> bool {
    r.negative.contains_key(place(p.path)) && now < r.negative[place(p.path)]
        + 24 * 3600 * 1_000_000_000
}

/// What becomes of a program: it fails where it had no answer within the last
/// day; else it counts as cached where it is remembered or found on disk; else it
/// is asked, and is indexed where it offers something and that is saved, and
/// fails where it does not.
pub proof fn law_what_becomes_of_a_program(
    r: Run,
    cache: Seq<Item>,
    p: Program,
    reply: Reply,
    now: u64,
    k: int,
)
    requires
        distinct_keys(cache),
    ensures
        had_no_answer(r, p, now) ==> outcome_of(r, cache, p, reply, now) == Outcome::Failed,
        !had_no_answer(r, p, now) && 0 <= k < cache.len() && cache[k].key == help_key(p)
            ==> outcome_of(r, cache, p, reply, now) == Outcome::Cached,
        !had_no_answer(r, p, now) && (forall|j: int|
            0 <= j < cache.len() ==> (#[trigger] cache[j]).key != help_key(p)) ==> match reply {
            Reply::OnDisk { suggestions, stored_at } => outcome_of(r, cache, p, reply, now)
                == Outcome::Cached,
            Reply::Asked { suggestions, stored_at, saved } => {
                &&& saved && suggestions.len() > 0 ==> outcome_of(r, cache, p, reply, now)
                    == Outcome::Indexed
                &&& !saved || suggestions.len() == 0 ==> outcome_of(r, cache, p, reply, now)
                    == Outcome::Failed
            },
        },
{
    lemma_help_key(p);
    law_entry_is_found(cache, help_key(p), k);
}

/// What is counted: each program once, and by its outcome.
pub proof fn law_outcomes_are_counted(r: Run, o: Outcome)
    ensures
        ({
            let n = counted(r, o);
            &&& n.progress.completed == r.progress.completed + 1
            &&& n.progress.total == r.progress.total && n.progress.current == r.progress.current
            &&& n.progress.stage == r.progress.stage && n.negative == r.negative
            &&& o == Outcome::Failed ==> n.progress.failed == r.progress.failed + 1
                && n.progress.succeeded == r.progress.succeeded && n.cached == r.cached
                && n.indexed == r.indexed
            &&& o == Outcome::Cached ==> n.cached == r.cached + 1 && n.progress.succeeded
                == r.progress.succeeded + 1 && n.progress.failed == r.progress.failed && n.indexed
                == r.indexed
            &&& o == Outcome::Indexed ==> n.indexed == r.indexed + 1 && n.progress.succeeded
                == r.progress.succeeded + 1 && n.progress.failed == r.progress.failed && n.cached
                == r.cached
        }),
{
}

/// What is known once a program is done: that it was the current one and is
/// counted; that it had no answer, where it was asked and failed, and only there;
/// and what it offers, where that is something, is remembered.
pub proof fn law_one_program_is_done(
    r: Run,
    cache: Seq<Item>,
    limit: nat,
    p: Program,
    reply: Reply,
    now: u64,
    other: Place,
)
    requires
        distinct_keys(cache),
        limit >= 1,
    ensures
        ({
            let (n, after) = one_done(r, cache, limit, p, reply, now);
            let o = outcome_of(r, cache, p, reply, now);
            &&& n.progress.current == Some(p.name) && n.progress.total == r.progress.total
            &&& n.progress.completed == r.progress.completed + 1
            &&& o == Outcome::Failed ==> n.progress.failed == r.progress.failed + 1
            &&& o == Outcome::Indexed ==> n.indexed == r.indexed + 1
            &&& o == Outcome::Cached ==> n.cached == r.cached + 1
            &&& other != place(p.path) ==> n.negative.contains_key(other)
                == r.negative.contains_key(other)
            &&& o == Outcome::Failed ==> n.negative.contains_key(place(p.path))
            &&& o != Outcome::Failed ==> !n.negative.contains_key(place(p.path))
            &&& o == Outcome::Failed && !had_no_answer(r, p, now) ==> n.negative[place(p.path)]
                == now
            &&& had_no_answer(r, p, now) ==> after == cache && n.negative == r.negative
            &&& o == Outcome::Indexed ==> match reply {
                Reply::Asked { suggestions, stored_at, saved } => is_remembered(
                    after,
                    help_key(p),
                    suggestions,
                ),
                _ => false,
            }
            &&& o == Outcome::Cached && item_at(cache, help_key(p)) is None ==> match reply {
                Reply::OnDisk { suggestions, stored_at } => is_remembered(
                    after,
                    help_key(p),
                    suggestions,
                ),
                _ => false,
            }
        }),
{
    reveal(one_done);
    lemma_help_key(p);
    let key = help_key(p);
    match reply {
        Reply::OnDisk { suggestions, stored_at } => {
            law_get_after_put(cache, Item { key, suggestions, stored_at }, limit);
        },
        Reply::Asked { suggestions, stored_at, saved } => {
            law_get_after_put(cache, Item { key, suggestions, stored_at }, limit);
        },
    }
}

/// A lookup by this key gives these suggestions.
pub open spec fn is_remembered(
    cache: Seq<Item>,
    key: Ident,
    suggestions: Seq<Suggestion>,
) -> bool {
    match item_at(cache, key) {
        Some(i) => cache[i].suggestions == suggestions,
        None => false,
    }
}

/// A run begins with nothing done, and one that fails says why and when.
pub proof fn law_runs_begin_and_fail(r: Run, now: u64, stage: Stage, reason: Seq<char>)
    ensures
        ({
            let b = begun(r, now, stage);
            &&& b.progress.total == 0 && b.progress.completed == 0 && b.progress.succeeded == 0
            &&& b.progress.failed == 0 && b.cached == 0 && b.indexed == 0
            &&& b.progress.current is None && b.progress.started_at == Some(now)
            &&& b.progress.finished_at is None && b.progress.stage == stage
            &&& b.negative == r.negative && b.cancelled == r.cancelled
        }),
        ({
            let f = failed_run(r, reason, now);
            &&& f.progress.stage == Stage::Failed(reason) && f.progress.finished_at == Some(now)
            &&& f.progress.current is None && f.progress.started_at == r.progress.started_at
            &&& f.progress.total == r.progress.total
            &&& f.progress.completed == r.progress.completed
            &&& f.progress.failed == r.progress.failed && f.cached == r.cached
            &&& f.progress.succeeded == r.progress.succeeded && f.indexed == r.indexed
        }),
{
}

/// Programs by name: each comes before those whose names come later.
pub proof fn law_programs_by_name(s: Seq<Program>, i: int, j: int)
    requires
        by_name(s),
        0 <= i < j < s.len(),
    ensures
        text_lt(s[i].name, s[j].name),
{
}

} // verus!
