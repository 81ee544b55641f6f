//! What the composer does with keys, marks and answers, in terms of the line
//! and the cursor.

use crate::completion::{GenerationId, Suggestion};
use crate::composer::fuzzy::{is_subsequence, ranked};
use crate::composer::fuzzy_laws::{greater_score, law_best_first, law_list_holds_matches};
use crate::composer::prompt_track::{Item, Osc133Event};
use crate::composer::state::{
    command_start, current_lexeme, first_word, merged, offers, other_words, question, token_text,
    Composer, ComposerInput, Outcome,
};
use crate::composer::tokenizer::{covered, law_blanks_between, lexemes, Lexeme};
use crate::text::lemma_filter_split;
use vstd::prelude::*;

verus! {

/// The token at the cursor is written as `s[from..to]`: the cursor stands in it
/// or in front of it, or right behind it at the end of a line that does not end
/// in a blank. Without such a token both are the cursor.
pub open spec fn token_bounds(s: Seq<char>, at: int, from: int, to: int) -> bool {
    let ls = lexemes(s, 0);
    let at_end = at == s.len() && s.len() > 0 && s.last() != ' ' && s.last() != '\t';
    if exists|k: int|
        0 <= k < ls.len() && (#[trigger] ls[k]).from <= at && (at < ls[k].to || (at_end && at
            == ls[k].to)) {
        exists|k: int|
            0 <= k < ls.len() && (#[trigger] ls[k]).from <= at && (at < ls[k].to || (at_end && at
                == ls[k].to)) && from == ls[k].from && to == ls[k].to
    } else {
        from == at && to == at
    }
}

proof fn lemma_current_bounds(s: Seq<char>, at: int, from: int, to: int)
    requires
        0 <= at <= s.len(),
        token_bounds(s, at, from, to),
    ensures
        0 <= from <= at <= to <= s.len(),
        match current_lexeme(s, at) {
            Some(k) => 0 <= k < lexemes(s, 0).len() && lexemes(s, 0)[k].from == from && lexemes(
                s,
                0,
            )[k].to == to && from < to,
            None => from == at && to == at,
        },
{
    let ls = lexemes(s, 0);
    law_blanks_between(s, 0);
    let at_end = at == s.len() && s.len() > 0 && s.last() != ' ' && s.last() != '\t';
    if exists|k: int|
        0 <= k < ls.len() && (#[trigger] ls[k]).from <= at && (at < ls[k].to || (at_end && at
            == ls[k].to)) {
        let k = choose|k: int|
            0 <= k < ls.len() && (#[trigger] ls[k]).from <= at && (at < ls[k].to || (at_end && at
                == ls[k].to)) && from == ls[k].from && to == ls[k].to;
        if at < ls[k].to {
            assert(covered(ls, at));
            let m = choose|m: int| 0 <= m < ls.len() && (#[trigger] ls[m]).from <= at < ls[m].to;
            if m < k {
                assert(ls[m].to <= ls[k].from);
            } else if k < m {
                assert(ls[k].to <= ls[m].from);
            }
        } else {
            assert(!covered(ls, at)) by {
                if covered(ls, at) {
                    let m = choose|m: int|
                        0 <= m < ls.len() && (#[trigger] ls[m]).from <= at < ls[m].to;
                    assert(ls[m].to <= s.len());
                }
            }
            let n = ls.len() - 1;
            if k < n {
                assert(ls[k].to <= ls[n].from);
                assert(ls[n].to <= s.len());
            }
        }
    } else {
        assert(!covered(ls, at)) by {
            if covered(ls, at) {
                let m = choose|m: int| 0 <= m < ls.len() && (#[trigger] ls[m]).from <= at < ls[m].to;
                assert(ls[m].from <= at);
            }
        }
        if at_end && ls.len() > 0 && ls.last().to == at {
            assert(ls[ls.len() - 1].from <= at);
        }
    }
}

/// Every cursor in a line has a token, or a place for one.
pub proof fn law_cursor_has_a_place(s: Seq<char>, at: int)
    requires
        0 <= at <= s.len(),
    ensures
        exists|from: int, to: int| #[trigger] token_bounds(s, at, from, to),
{
    let ls = lexemes(s, 0);
    let at_end = at == s.len() && s.len() > 0 && s.last() != ' ' && s.last() != '\t';
    if exists|k: int|
        0 <= k < ls.len() && (#[trigger] ls[k]).from <= at && (at < ls[k].to || (at_end && at
            == ls[k].to)) {
        let k = choose|k: int|
            0 <= k < ls.len() && (#[trigger] ls[k]).from <= at && (at < ls[k].to || (at_end && at
                == ls[k].to));
        assert(token_bounds(s, at, ls[k].from, ls[k].to));
    } else {
        assert(token_bounds(s, at, at, at));
    }
}

/// To accept a candidate puts it in the place of the token at the cursor, or in
/// front of the cursor where there is no token. What stands before and behind
/// stays, the cursor comes to stand behind the candidate, and nothing is
/// executed.
pub proof fn law_accepting_replaces_the_token(
    c: Composer,
    key: ComposerInput,
    from: int,
    to: int,
)
    requires
        c.wf(),
        c.candidates.len() > 0,
        key is RightArrow || key is Enter,
        token_bounds(c.text, c.at, from, to),
    ensures
        ({
            let d = c.after_key(key);
            let put = c.candidates[c.selected->0].text@;
            &&& d.text.len() == c.text.len() - (to - from) + put.len()
            &&& d.text.take(from) == c.text.take(from)
            &&& d.text.subrange(from, from + put.len()) == put
            &&& d.text.skip(d.at) == c.text.skip(to)
            &&& d.at == from + put.len()
            &&& d.candidates.len() == 0 && d.selected is None
            &&& d.generation != c.generation && d.debounce
            &&& c.outcome(key) == Outcome::Consumed
        }),
{
    lemma_current_bounds(c.text, c.at, from, to);
    let d = c.after_key(key);
    let put = c.candidates[c.selected->0].text@;
    assert(d.text =~= c.text.take(from) + put + c.text.skip(to));
    assert(d.text.take(from) =~= c.text.take(from));
    assert(d.text.subrange(from, from + put.len()) =~= put);
    assert(d.text.skip(d.at) =~= c.text.skip(to));
}

/// What keys do to the line, told by what stands in front of the cursor and what
/// behind it: a character is added in front, backspace takes one away there,
/// delete takes one away behind; the arrows, home and end move the cursor and
/// leave the line. Where there is nothing to take away and nowhere to go,
/// nothing changes.
pub proof fn law_keys_edit_the_line(c: Composer, x: char)
    requires
        c.wf(),
    ensures
        ({
            let left = c.text.take(c.at);
            let right = c.text.skip(c.at);
            let typed = c.after_key(ComposerInput::Char(x));
            let back = c.after_key(ComposerInput::Backspace);
            let del = c.after_key(ComposerInput::Delete);
            let l = c.after_key(ComposerInput::LeftArrow);
            let r = c.after_key(ComposerInput::RightArrow);
            let home = c.after_key(ComposerInput::Home);
            let end = c.after_key(ComposerInput::End);
            &&& typed.text.take(typed.at) == left.push(x) && typed.text.skip(typed.at) == right
            &&& typed.at == c.at + 1
            &&& left.len() > 0 ==> back.text.take(back.at) == left.drop_last() && back.text.skip(
                back.at,
            ) == right && back.at == c.at - 1
            &&& left.len() == 0 ==> back == c && l == c && home == c
            &&& right.len() > 0 ==> del.text.take(del.at) == left && del.text.skip(del.at)
                == right.skip(1) && del.at == c.at
            &&& right.len() == 0 ==> del == c && end == c
            &&& left.len() > 0 ==> l.text == c.text && l.at == c.at - 1
            &&& left.len() > 0 ==> home.text == c.text && home.at == 0
            &&& right.len() > 0 ==> end.text == c.text && end.at == c.text.len()
            &&& c.candidates.len() == 0 && right.len() > 0 ==> r.text == c.text && r.at == c.at + 1
            &&& c.candidates.len() == 0 && right.len() == 0 ==> r == c
        }),
{
    let left = c.text.take(c.at);
    let right = c.text.skip(c.at);
    let typed = c.after_key(ComposerInput::Char(x));
    let back = c.after_key(ComposerInput::Backspace);
    let del = c.after_key(ComposerInput::Delete);
    assert(typed.text.take(typed.at) =~= left.push(x));
    assert(typed.text.skip(typed.at) =~= right);
    if left.len() > 0 {
        assert(back.text.take(back.at) =~= left.drop_last());
        assert(back.text.skip(back.at) =~= right);
    }
    if right.len() > 0 {
        assert(del.text.take(del.at) =~= left);
        assert(del.text.skip(del.at) =~= right.skip(1));
    }
}

/// Whatever edits the line or moves the cursor outdates what was asked and what
/// is offered, and a new question is due; every such key is consumed, and none
/// of them takes the composer away.
pub proof fn law_edits_ask_anew(c: Composer, key: ComposerInput)
    requires
        c.wf(),
        !(key is Enter && c.candidates.len() == 0) && !(key is Escape),
    ensures
        ({
            let d = c.after_key(key);
            &&& c.outcome(key) == Outcome::Consumed
            &&& d.active == c.active && d.in_prompt == c.in_prompt
            &&& d.ime == c.ime && d.alt_screen == c.alt_screen
            &&& d.text != c.text || d.at != c.at ==> {
                &&& d.generation as int == (if c.generation == u64::MAX {
                    0
                } else {
                    c.generation + 1
                })
                &&& d.awaited == 0 && d.debounce
                &&& d.raw.len() == 0 && d.candidates.len() == 0 && d.selected is None
            }
        }),
{
}

/// Enter without candidates finishes the line, and hands it out whole; escape
/// gives it up and leaves the keys to the terminal. Both leave an empty line and
/// nothing to be asked.
pub proof fn law_line_ends(c: Composer)
    requires
        c.wf(),
    ensures
        ({
            let gone = c.after_key(ComposerInput::Escape);
            &&& c.outcome(ComposerInput::Escape) == Outcome::Consumed
            &&& gone.text.len() == 0 && gone.at == 0 && !gone.active && !gone.debounce
            &&& gone.candidates.len() == 0 && gone.selected is None
            &&& c.candidates.len() == 0 ==> {
                let done = c.after_key(ComposerInput::Enter);
                &&& c.outcome(ComposerInput::Enter) == Outcome::Submit(c.text)
                &&& done.text.len() == 0 && done.at == 0 && done.active == c.active
                &&& !done.debounce && done.candidates.len() == 0
            }
        }),
{
}

/// Tab selects the next candidate, and behind the last one the first; back-tab
/// the one before, and before the first the last. The line stays.
pub proof fn law_tab_goes_round(c: Composer)
    requires
        c.wf(),
    ensures
        ({
            let n = c.candidates.len() as int;
            let tab = c.after_key(ComposerInput::Tab);
            let back = c.after_key(ComposerInput::BackTab);
            &&& n == 0 ==> tab == c && back == c
            &&& n > 0 ==> {
                &&& tab == (Composer { selected: tab.selected, ..c })
                &&& back == (Composer { selected: back.selected, ..c })
                &&& tab.selected == (if c.selected->0 == n - 1 {
                    Some(0int)
                } else {
                    Some(c.selected->0 + 1)
                })
                &&& back.selected == (if c.selected->0 == 0 {
                    Some(n - 1)
                } else {
                    Some(c.selected->0 - 1)
                })
            }
        }),
{
    let n = c.candidates.len() as int;
    if n > 0 {
        let i = c.selected->0;
        if i == n - 1 {
            vstd::arithmetic::div_mod::lemma_fundamental_div_mod_converse(i + 1, n, 1, 0);
        } else {
            vstd::arithmetic::div_mod::lemma_small_mod((i + 1) as nat, n as nat);
        }
        if i == 0 {
            vstd::arithmetic::div_mod::lemma_small_mod((n - 1) as nat, n as nat);
        } else {
            vstd::arithmetic::div_mod::lemma_fundamental_div_mod_converse(i + n - 1, n, 1, i - 1);
        }
    }
}

/// Keys go to the composer between a prompt and a command, as long as the user
/// has not given the line up and neither an input method nor a full-screen
/// program has them.
pub proof fn law_who_has_the_keys(c: Composer)
    ensures
        c.on() <==> (c.active && c.in_prompt && !c.ime && !c.alt_screen),
{
}

/// A prompt begins an empty line with nothing offered, and takes the keys. A
/// command that starts or ends gives the keys back and leaves the line. What is
/// behind a prompt and other output change nothing.
pub proof fn law_marks_begin_and_end_lines(c: Composer, code: Option<i32>, b: u8)
    ensures
        ({
            let prompt = c.after_items(seq![Item::Mark(Osc133Event::PromptStart)]);
            let start = c.after_items(seq![Item::Mark(Osc133Event::CommandStart)]);
            let done = c.after_items(seq![Item::Mark(Osc133Event::CommandDone(code))]);
            &&& prompt.active && prompt.in_prompt
            &&& prompt.text.len() == 0 && prompt.at == 0 && prompt.candidates.len() == 0
            &&& !start.active && !start.in_prompt && start.text == c.text
            &&& start.candidates.len() == 0
            &&& !done.active && !done.in_prompt && done.text == c.text
            &&& done.candidates.len() == 0
            &&& c.after_items(seq![Item::Mark(Osc133Event::InputStart)]) == c
            &&& c.after_items(seq![Item::Byte(b)]) == c
        }),
{
    reveal_with_fuel(Composer::after_items, 2);
    assert(seq![Item::Mark(Osc133Event::PromptStart)].drop_last() =~= seq![]);
    assert(seq![Item::Mark(Osc133Event::CommandStart)].drop_last() =~= seq![]);
    assert(seq![Item::Mark(Osc133Event::CommandDone(code))].drop_last() =~= seq![]);
    assert(seq![Item::Mark(Osc133Event::InputStart)].drop_last() =~= seq![]);
    assert(seq![Item::Byte(b)].drop_last() =~= seq![]);
}

/// The lists put together begin with the first one, hold every text of both, and
/// nothing that is in neither.
pub proof fn law_merged_holds_both(s: Seq<Suggestion>, more: Seq<Suggestion>)
    ensures
        ({
            let all = merged(s, more);
            &&& all.len() >= s.len() && all.take(s.len() as int) == s
            &&& forall|i: int|
                0 <= i < more.len() ==> exists|k: int|
                    0 <= k < all.len() && (#[trigger] all[k]).text@ == (#[trigger] more[i]).text@
            &&& forall|k: int|
                s.len() <= k < all.len() ==> more.contains(#[trigger] all[k]) && !(exists|i: int|
                    0 <= i < s.len() && (#[trigger] s[i]).text@ == all[k].text@)
        }),
    decreases more.len(),
{
    let all = merged(s, more);
    if more.len() == 0 {
        assert(all.take(s.len() as int) =~= s);
    } else {
        let front = more.drop_last();
        let first = merged(s, front);
        law_merged_holds_both(s, front);
        assert forall|i: int| 0 <= i < more.len() implies exists|k: int|
            0 <= k < all.len() && (#[trigger] all[k]).text@ == (#[trigger] more[i]).text@ by {
            if i < front.len() {
                assert(front[i] == more[i]);
                let k = choose|k: int|
                    0 <= k < first.len() && (#[trigger] first[k]).text@ == front[i].text@;
                assert(all[k] == first[k]);
            } else if offers(first, more.last().text@) {
                let k = choose|k: int|
                    0 <= k < first.len() && (#[trigger] first[k]).text@ == more.last().text@;
                assert(all[k] == first[k]);
            } else {
                assert(all[first.len() as int] == more.last());
            }
        }
        assert(all.take(s.len() as int) =~= s) by {
            assert(first.take(s.len() as int) =~= all.take(s.len() as int));
        }
        assert forall|k: int| s.len() <= k < all.len() implies more.contains(#[trigger] all[k]) && !(
        exists|i: int| 0 <= i < s.len() && (#[trigger] s[i]).text@ == all[k].text@) by {
            if k < first.len() {
                assert(all[k] == first[k]);
                assert(front.contains(first[k]));
                let i = choose|i: int| 0 <= i < front.len() && front[i] == first[k];
                assert(more[i] == all[k]);
            } else {
                assert(all[k] == more.last());
                assert(more[more.len() - 1] == all[k]);
                if exists|i: int| 0 <= i < s.len() && (#[trigger] s[i]).text@ == all[k].text@ {
                    let i = choose|i: int| 0 <= i < s.len() && (#[trigger] s[i]).text@ == all[k].text@;
                    assert(first.take(s.len() as int)[i] == s[i]);
                    assert(first[i].text@ == more.last().text@);
                }
            }
        }
    }
}

/// An answer to the question that is open adds what it offers to the list, and
/// one answer less is waited for. One to another question changes nothing.
pub proof fn law_answers_count_once(c: Composer, generation: u64, answer: Seq<Suggestion>)
    requires
        c.wf(),
    ensures
        ({
            let d = c.answered(generation, answer);
            &&& generation != c.generation ==> d == c && !c.grows(generation, answer)
            &&& generation == c.generation ==> {
                &&& d.awaited == (if c.awaited > 0 {
                    c.awaited - 1
                } else {
                    0
                })
                &&& d.raw == merged(c.raw, answer)
                &&& d.text == c.text && d.at == c.at && d.generation == c.generation
                &&& d.active == c.active && d.debounce == c.debounce
                &&& c.grows(generation, answer) == (d.raw != c.raw)
                &&& !c.grows(generation, answer) ==> d.candidates == c.candidates && d.selected
                    == c.selected
                &&& c.grows(generation, answer) ==> d.candidates == c.offered(d.raw).candidates
                    && d.selected == c.offered(d.raw).selected
            }
        }),
{
    law_merged_holds_both(c.raw, answer);
    let all = merged(c.raw, answer);
    if all.len() == c.raw.len() {
        assert(all =~= all.take(c.raw.len() as int));
    }
}

/// What is offered for a list of suggestions are those that match the token at
/// the cursor, the best first; all of them where there is no token. The
/// selection stays where it was, as far as the list reaches; the first is
/// selected where none was.
pub proof fn law_candidates_match_the_token(
    c: Composer,
    raw: Seq<Suggestion>,
    from: int,
    to: int,
    l: Lexeme,
)
    requires
        c.wf(),
        token_bounds(c.text, c.at, from, to),
        from < to ==> lexemes(c.text, 0).contains(l) && l.from == from,
    ensures
        ({
            let d = c.offered(raw);
            let n = d.candidates.len() as int;
            &&& d.raw == raw
            &&& from == to || l.text.len() == 0 ==> d.candidates == raw
            &&& from < to && l.text.len() > 0 ==> {
                &&& d.candidates.to_multiset() == raw.filter(
                    |x: Suggestion|
                        is_subsequence(x.text@, l.text) || is_subsequence(x.display@, l.text),
                ).to_multiset()
                &&& forall|i: int, j: int|
                    0 <= i < j < n ==> greater_score(#[trigger] d.candidates[i], l.text)
                        >= greater_score(#[trigger] d.candidates[j], l.text)
            }
            &&& n == 0 ==> d.selected is None
            &&& n > 0 && c.selected is None ==> d.selected == Some(0int)
            &&& n > 0 && c.selected is Some ==> d.selected == Some(
                vstd::math::min(c.selected->0, n - 1),
            )
        }),
{
    let ls = lexemes(c.text, 0);
    lemma_current_bounds(c.text, c.at, from, to);
    law_blanks_between(c.text, 0);
    if from < to {
        let k = current_lexeme(c.text, c.at)->0;
        let m = choose|m: int| 0 <= m < ls.len() && ls[m] == l;
        if m < k {
            assert(ls[m].to <= ls[k].from);
        } else if k < m {
            assert(ls[k].to <= ls[m].from);
        }
        assert(token_text(c.text, c.at) == l.text);
        if l.text.len() > 0 {
            law_list_holds_matches(raw, l.text);
            let d = c.offered(raw);
            assert(d.candidates == ranked(raw, l.text));
            assert forall|i: int, j: int| 0 <= i < j < d.candidates.len() implies greater_score(
                #[trigger] d.candidates[i],
                l.text,
            ) >= greater_score(#[trigger] d.candidates[j], l.text) by {
                law_best_first(raw, l.text, i, j);
            }
        }
    }
}

/// The command of the cursor begins at token `start`: behind the last pipe,
/// `&&`, `||` or `;` that begins no later than the cursor.
pub open spec fn command_begins(ls: Seq<Lexeme>, at: int, start: int) -> bool {
    &&& 0 <= start <= ls.len()
    &&& start > 0 ==> ls[start - 1].from <= at && (ls[start - 1].kind is Pipe || ls[start
        - 1].kind is Sequence)
    &&& forall|k: int|
        start <= k < ls.len() && ((#[trigger] ls[k]).kind is Pipe || ls[k].kind is Sequence)
            ==> ls[k].from > at
}

proof fn lemma_command_start(ls: Seq<Lexeme>, at: int, n: int)
    requires
        0 <= n <= ls.len(),
    ensures
        ({
            let start = command_start(ls, at, n);
            &&& 0 <= start <= n
            &&& start > 0 ==> ls[start - 1].from <= at && (ls[start - 1].kind is Pipe || ls[start
                - 1].kind is Sequence)
            &&& forall|k: int|
                start <= k < n && ((#[trigger] ls[k]).kind is Pipe || ls[k].kind is Sequence)
                    ==> ls[k].from > at
        }),
    decreases n,
{
    if n > 0 {
        lemma_command_start(ls, at, n - 1);
    }
}

proof fn lemma_first_word(ls: Seq<Lexeme>, k: int, w: int)
    requires
        0 <= k <= w <= ls.len(),
        forall|i: int| k <= i < w ==> !((#[trigger] ls[i]).kind is Word || ls[i].kind is Unterminated),
        w < ls.len() ==> ls[w].kind is Word || ls[w].kind is Unterminated,
    ensures
        first_word(ls, k) == (if w < ls.len() {
            ls[w].text
        } else {
            seq![]
        }),
    decreases w - k,
{
    if k < w {
        assert(!(ls[k].kind is Word || ls[k].kind is Unterminated));
        lemma_first_word(ls, k + 1, w);
    }
}

/// The words of a command that go with a question about the token from `from` to
/// `to`: those in front of the cursor without the token itself; all of them
/// where there is no token.
pub open spec fn goes_along(at: int, from: int, to: int) -> spec_fn(Lexeme) -> bool {
    |l: Lexeme|
        (l.kind is Word || l.kind is Unterminated) && (from == to || (l.from < at && l.from
            != from))
}

proof fn lemma_other_words(s: Seq<char>, k: int, now: Option<int>, at: int, from: int, to: int)
    requires
        0 <= k <= lexemes(s, 0).len(),
        match now {
            Some(n) => 0 <= n < lexemes(s, 0).len() && lexemes(s, 0)[n].from == from && from < to,
            None => from == to,
        },
    ensures
        other_words(lexemes(s, 0), k, now, at) == lexemes(s, 0).skip(k).filter(
            goes_along(at, from, to),
        ).map_values(|l: Lexeme| l.text),
    decreases lexemes(s, 0).len() - k,
{
    let ls = lexemes(s, 0);
    let p = goes_along(at, from, to);
    let text = |l: Lexeme| l.text;
    if k < ls.len() {
        lemma_other_words(s, k + 1, now, at, from, to);
        law_blanks_between(s, 0);
        let one = seq![ls[k]];
        let rest = ls.skip(k + 1);
        assert(ls.skip(k) =~= one + rest);
        lemma_filter_split(one, rest, p);
        reveal_with_fuel(Seq::filter, 2);
        assert(one.drop_last() =~= Seq::<Lexeme>::empty());
        if let Some(n) = now {
            if n < k {
                assert(ls[n].to <= ls[k].from);
            } else if k < n {
                assert(ls[k].to <= ls[n].from);
            }
        }
        if p(ls[k]) {
            assert(one.filter(p) =~= one);
            assert((one + rest.filter(p)).map_values(text) =~= seq![ls[k].text] + rest.filter(
                p,
            ).map_values(text));
        } else {
            assert(one.filter(p) =~= seq![]);
            assert(seq![] + rest.filter(p) =~= rest.filter(p));
        }
    } else {
        reveal(Seq::filter);
        assert(ls.skip(k) =~= seq![]);
        assert(ls.skip(k).filter(p).map_values(text) =~= seq![]);
    }
}

/// What the providers are asked is about the command that the cursor is in,
/// which is its first word; about the token at the cursor, if that is a word;
/// and it names the other words of the command. Without a command nothing is
/// asked.
pub proof fn law_question_is_about_the_command(
    s: Seq<char>,
    at: int,
    from: int,
    to: int,
    start: int,
    w: int,
)
    requires
        0 <= at <= s.len(),
        token_bounds(s, at, from, to),
        command_begins(lexemes(s, 0), at, start),
        start <= w <= lexemes(s, 0).len(),
        forall|i: int|
            start <= i < w ==> !((#[trigger] lexemes(s, 0)[i]).kind is Word || lexemes(
                s,
                0,
            )[i].kind is Unterminated),
        w < lexemes(s, 0).len() ==> lexemes(s, 0)[w].kind is Word || lexemes(
            s,
            0,
        )[w].kind is Unterminated,
    ensures
        ({
            let ls = lexemes(s, 0);
            let asked = question(s, at);
            &&& asked is Some <==> w < ls.len() && ls[w].text.len() > 0
            &&& asked matches Some(q) ==> {
                &&& q.command == ls[w].text
                &&& q.previous == ls.skip(start).filter(goes_along(at, from, to)).map_values(
                    |l: Lexeme| l.text,
                )
                &&& forall|k: int|
                    0 <= k < ls.len() && (#[trigger] ls[k]).from == from && from < to && (
                    ls[k].kind is Word || ls[k].kind is Unterminated) ==> q.token == ls[k].text
                &&& from == to ==> q.token.len() == 0
                &&& forall|k: int|
                    0 <= k < ls.len() && (#[trigger] ls[k]).from == from && !(ls[k].kind is Word
                        || ls[k].kind is Unterminated) ==> q.token.len() == 0
            }
        }),
{
    let ls = lexemes(s, 0);
    let n = ls.len() as int;
    law_blanks_between(s, 0);
    lemma_current_bounds(s, at, from, to);
    lemma_command_start(ls, at, n);
    let found = command_start(ls, at, n);
    if found < start {
        assert(ls[start - 1].from > at);
    } else if start < found {
        assert(ls[found - 1].from > at);
    }
    lemma_first_word(ls, start, w);
    let now = current_lexeme(s, at);
    lemma_other_words(s, start, now, at, from, to);
    if let Some(m) = now {
        assert forall|k: int| 0 <= k < ls.len() && (#[trigger] ls[k]).from == from implies k == m by {
            if k < m {
                assert(ls[k].to <= ls[m].from);
            } else if m < k {
                assert(ls[m].to <= ls[k].from);
            }
        }
    }
}

/// Lists are put together one behind the other: of several it does not matter
/// where they are cut, and a single suggestion is added at the end unless its text
/// is there.
pub proof fn law_merged_goes_along(
    s: Seq<Suggestion>,
    a: Seq<Suggestion>,
    b: Seq<Suggestion>,
    x: Suggestion,
)
    ensures
        merged(s, a + b) == merged(merged(s, a), b),
        merged(s, seq![]) == s,
        (exists|i: int| 0 <= i < s.len() && (#[trigger] s[i]).text@ == x.text@) ==> merged(
            s,
            seq![x],
        ) == s,
        (forall|i: int| 0 <= i < s.len() ==> (#[trigger] s[i]).text@ != x.text@) ==> merged(
            s,
            seq![x],
        ) == s.push(x),
    decreases b.len(),
{
    assert(seq![x].drop_last() =~= Seq::<Suggestion>::empty());
    assert(merged(s, Seq::<Suggestion>::empty()) == s);
    assert(seq![x].last() == x);
    if b.len() == 0 {
        assert(a + b =~= a);
    } else {
        assert((a + b).drop_last() =~= a + b.drop_last());
        law_merged_goes_along(s, a, b.drop_last(), x);
    }
}

/// Answers count one behind the other: several at once are taken as each by
/// itself would be, in their order, and the list has changed where one of them
/// has changed it.
pub proof fn law_answers_in_order(
    c: Composer,
    a: Seq<(GenerationId, Vec<Suggestion>)>,
    one: (GenerationId, Vec<Suggestion>),
)
    ensures
        c.polled(a.push(one), a.len() as int + 1) == c.polled(a, a.len() as int).answered(
            one.0.0,
            one.1@,
        ),
        c.polled(a, 0) == c,
        c.grew(a.push(one), a.len() as int + 1) <==> c.grew(a, a.len() as int) || c.polled(
            a,
            a.len() as int,
        ).grows(one.0.0, one.1@),
        !c.grew(a, 0),
{
    let all = a.push(one);
    lemma_polled_front(c, a, all, a.len() as int);
    assert(all[a.len() as int] == one);
}

proof fn lemma_polled_front(
    c: Composer,
    a: Seq<(GenerationId, Vec<Suggestion>)>,
    all: Seq<(GenerationId, Vec<Suggestion>)>,
    n: int,
)
    requires
        n <= a.len() <= all.len(),
        forall|i: int| 0 <= i < a.len() ==> #[trigger] all[i] == a[i],
    ensures
        c.polled(all, n) == c.polled(a, n),
        c.grew(all, n) == c.grew(a, n),
    decreases n,
{
    if n > 0 {
        lemma_polled_front(c, a, all, n - 1);
        assert(all[n - 1] == a[n - 1]);
    }
}

/// Marks count one behind the other, wherever the output is cut.
pub proof fn law_marks_in_order(c: Composer, a: Seq<Item>, b: Seq<Item>)
    ensures
        c.after_items(a + b) == c.after_items(a).after_items(b),
        c.after_items(seq![]) == c,
    decreases b.len(),
{
    if b.len() == 0 {
        assert(a + b =~= a);
    } else {
        assert((a + b).drop_last() =~= a + b.drop_last());
        law_marks_in_order(c, a, b.drop_last());
    }
}

/// What marks, and keys that end a line, leave alone: all but the line, what is
/// offered for it, who has the keys and whether a question is due.
pub proof fn law_ends_leave_the_rest(c: Composer, code: Option<i32>)
    ensures
        ({
            let none = Composer { raw: seq![], candidates: seq![], selected: None, ..c };
            let empty = Composer { text: seq![], at: 0, ..none };
            let start = Item::Mark(Osc133Event::CommandStart);
            let done = Item::Mark(Osc133Event::CommandDone(code));
            let off = Composer { active: false, in_prompt: false, ..none };
            &&& c.after_items(seq![Item::Mark(Osc133Event::PromptStart)]) == (Composer {
                active: true,
                in_prompt: true,
                ..empty
            })
            &&& c.after_items(seq![start]) == off && c.after_items(seq![done]) == off
            &&& c.after_key(ComposerInput::Escape) == (Composer {
                active: false,
                debounce: false,
                ..empty
            })
            &&& c.candidates.len() == 0 ==> c.after_key(ComposerInput::Enter) == (Composer {
                debounce: false,
                ..empty
            })
            &&& c.cleared() == none
        }),
{
    reveal_with_fuel(Composer::after_items, 2);
    assert(seq![Item::Mark(Osc133Event::PromptStart)].drop_last() =~= seq![]);
    assert(seq![Item::Mark(Osc133Event::CommandStart)].drop_last() =~= seq![]);
    assert(seq![Item::Mark(Osc133Event::CommandDone(code))].drop_last() =~= seq![]);
}

} // verus!
