//! Which programs are asked for help, and what is made of their answers.

use crate::completion::cache::Ident;
use crate::completion::help_indexer::{
    capped, eligible, flag_pattern, help_offers, line_found, line_offers, narrowed, program, settled, still_negative,
    subcommand_pattern, with_line, Found, Indexer,
};
use crate::completion::offer_laws::{
    completes, goes_by, law_all_names_are_offered, lemma_offered, lists,
};
use crate::completion::parser::{help_of, offered, Help};
use crate::completion::pattern::{named_in, or_empty};
use crate::completion::{Suggestion, SuggestionGroup, SuggestionView};
use crate::composer::state::first_word;
use crate::composer::tokenizer::lexemes;
use crate::composer::tokenizer_laws::{
    can_be_written, law_quoting, parts_words, word_stands_for, written_word, Piece,
};
use crate::paths::{within, Place};
use crate::seqs::lemma_first_where;
use crate::text::{begins, lines, trimmed};
use crate::text_laws::{all_blank, firm, law_trimmed};
use vstd::prelude::*;

verus! {

/// The line tells of something by this name.
pub open spec fn names(f: Found, name: Seq<char>) -> bool {
    match f {
        Found::Nothing => false,
        Found::Flag { short, flag, desc } => short == Some(name) || flag == Some(name),
        Found::Subcommand { cmd, desc } => name == (match cmd {
            Some(t) => t,
            None => seq![],
        }),
    }
}

/// The suggestion is what the line tells of: a flag or a subcommand, with its
/// description.
pub open spec fn is_told_by(x: SuggestionView, f: Found) -> bool {
    &&& names(f, x.text) && x.display == x.text
    &&& match f {
        Found::Nothing => false,
        Found::Flag { short, flag, desc } => x.group == SuggestionGroup::Flag && x.description
            == trimmed(or_empty(desc)),
        Found::Subcommand { cmd, desc } => x.group == SuggestionGroup::Subcommand && x.description
            == trimmed(or_empty(desc)),
    }
}

proof fn lemma_with_line(s: Seq<SuggestionView>, f: Found, token: Seq<char>)
    ensures
        ({
            let t = with_line(s, f, token);
            &&& s.len() <= t.len()
            &&& forall|k: int| 0 <= k < s.len() ==> #[trigger] t[k] == s[k]
            &&& forall|k: int|
                s.len() <= k < t.len() ==> is_told_by(#[trigger] t[k], f) && completes(
                    t[k].text,
                    token,
                )
            &&& forall|n: Seq<char>| #[trigger] names(f, n) && completes(n, token) ==> lists(t, n)
            &&& forall|n: Seq<char>| #[trigger] lists(s, n) ==> lists(t, n)
        }),
{
    match f {
        Found::Nothing => {},
        Found::Flag { short, flag, desc } => {
            let d = trimmed(or_empty(desc));
            let first = match short {
                Some(t) => offered(s, t, d, SuggestionGroup::Flag, token),
                None => s,
            };
            if let Some(t) = short {
                lemma_offered(s, t, d, SuggestionGroup::Flag, token);
            }
            if let Some(t) = flag {
                lemma_offered(first, t, d, SuggestionGroup::Flag, token);
            }
            let t = with_line(s, f, token);
            assert forall|k: int| s.len() <= k < t.len() implies is_told_by(#[trigger] t[k], f)
                && completes(t[k].text, token) by {
                if k < first.len() {
                    assert(t[k] == first[k]);
                }
            }
        },
        Found::Subcommand { cmd, desc } => {
            lemma_offered(
                s,
                or_empty(cmd),
                trimmed(or_empty(desc)),
                SuggestionGroup::Subcommand,
                token,
            );
        },
    }
}

/// What lines tell of, each by itself, is offered: every name that completes the
/// token, and nothing that no line tells of.
pub proof fn law_lines_offer_what_they_tell(fs: Seq<Found>, n: int, token: Seq<char>)
    requires
        0 <= n <= fs.len(),
    ensures
        ({
            let t = line_offers(fs, n, token);
            &&& forall|i: int, name: Seq<char>|
                0 <= i < n && #[trigger] names(fs[i], name) && completes(name, token) ==> lists(
                    t,
                    name,
                )
            &&& forall|k: int|
                0 <= k < t.len() ==> completes((#[trigger] t[k]).text, token) && exists|i: int|
                    0 <= i < n && is_told_by(t[k], #[trigger] fs[i])
        }),
    decreases n,
{
    let t = line_offers(fs, n, token);
    if n > 0 {
        law_lines_offer_what_they_tell(fs, n - 1, token);
        let s = line_offers(fs, n - 1, token);
        lemma_with_line(s, fs[n - 1], token);
        assert forall|k: int| 0 <= k < t.len() implies completes((#[trigger] t[k]).text, token)
            && exists|i: int| 0 <= i < n && is_told_by(t[k], #[trigger] fs[i]) by {
            if k < s.len() {
                assert(t[k] == s[k]);
                let i = choose|i: int| 0 <= i < n - 1 && is_told_by(s[k], #[trigger] fs[i]);
                assert(is_told_by(t[k], fs[i]));
            } else {
                assert(is_told_by(t[k], fs[n - 1]));
            }
        }
        assert forall|i: int, name: Seq<char>|
            0 <= i < n && #[trigger] names(fs[i], name) && completes(name, token) implies lists(
            t,
            name,
        ) by {
            if i < n - 1 {
                assert(lists(s, name));
            }
        }
    }
}

/// Of the output of a program as much is read as the limit allows, from the
/// front.
pub proof fn law_output_is_read_up_to_the_limit(output: Seq<u8>, chunk: Seq<u8>, cap: nat)
    requires
        output.len() <= cap,
    ensures
        output.len() + chunk.len() <= cap ==> capped(output, chunk, cap) == output + chunk,
        output.len() + chunk.len() > cap ==> capped(output, chunk, cap).len() == cap && forall|
            i: int,
        |
            0 <= i < cap ==> #[trigger] capped(output, chunk, cap)[i] == (output + chunk)[i],
{
    let whole = output + chunk;
    assert(whole.take(whole.len() as int) =~= whole);
}

/// What is remembered is narrowed to what begins with the token: of lists one
/// behind the other each by itself, and a suggestion stays where its text begins
/// with it, or nothing is typed.
pub proof fn law_answers_are_narrowed(
    a: Seq<Suggestion>,
    b: Seq<Suggestion>,
    x: Suggestion,
    token: Seq<char>,
)
    ensures
        narrowed(a + b, token) == narrowed(a, token) + narrowed(b, token),
        completes(x.text@, token) ==> narrowed(seq![x], token) == seq![x],
        !completes(x.text@, token) ==> narrowed(seq![x], token).len() == 0,
{
    let p = |s: Suggestion| begins(s.text@, token);
    crate::text::lemma_filter_split(a, b, p);
    reveal_with_fuel(Seq::filter, 2);
    assert(seq![x].drop_last() =~= Seq::<Suggestion>::empty());
    if token.len() > 0 {
        if token.len() <= x.text@.len() {
            assert(x.text@.subrange(0, token.len() as int) =~= x.text@.take(token.len() as int));
        }
        assert(begins(x.text@, token) == completes(x.text@, token));
        assert(completes(x.text@, token) ==> seq![x].filter(p) =~= seq![x]);
        assert(!completes(x.text@, token) ==> seq![x].filter(p) =~= seq![]);
    }
}

/// The program that a question is about is the first word of its command, with
/// its quotes taken off; without a command, the first token that is not empty.
pub proof fn law_program_of_a_question(
    a: Seq<char>,
    ps: Seq<Piece>,
    rest: Seq<char>,
    b: Seq<char>,
    previous: Seq<Seq<char>>,
    k: int,
)
    requires
        all_blank(a),
        all_blank(b),
        ps.len() > 0,
        forall|n: int| 0 <= n < ps.len() ==> can_be_written(#[trigger] ps[n]),
        rest.len() == 0 || parts_words(rest[0]),
        written_word(ps) != seq!['2'] || rest.len() == 0 || rest[0] != '>',
        firm(written_word(ps) + rest),
        0 <= k <= previous.len(),
        forall|i: int| 0 <= i < k ==> (#[trigger] previous[i]).len() == 0,
        k < previous.len() ==> previous[k].len() > 0,
    ensures
        word_stands_for(ps).len() > 0 ==> program(a + (written_word(ps) + rest) + b, previous)
            == Some(word_stands_for(ps)),
        program(a, previous) == (if k < previous.len() {
            Some(previous[k])
        } else {
            None
        }),
{
    let w = written_word(ps) + rest;
    law_trimmed(a, w, b);
    law_quoting(ps, rest);
    let none = Seq::<char>::empty();
    law_trimmed(a, none, none);
    assert(a + none + none =~= a);
    assert(lexemes(none, 0).len() == 0);
    assert(first_word(lexemes(none, 0), 0).len() == 0);
    lemma_first_where(previous, |t: Seq<char>| t.len() > 0, k);
}

/// A program may be asked where it is below a directory from which programs may
/// be asked, and neither its path nor its name is on the list of those that must
/// not be; and not for a time after it had no answer.
pub proof fn law_programs_that_may_be_asked(
    x: Indexer,
    path: Seq<u8>,
    text: Seq<char>,
    file_name: Seq<char>,
    allow: Seq<Vec<u8>>,
    place: Place,
    now: u64,
)
    ensures
        eligible(x, path, text, file_name, allow) <==> {
            &&& exists|i: int| 0 <= i < allow.len() && within(path, (#[trigger] allow[i])@)
            &&& forall|i: int|
                0 <= i < x.denied.len() ==> #[trigger] x.denied[i] != text && x.denied[i]
                    != file_name
        },
        still_negative(x, place, now) && x.negative[place] <= now ==> x.negative.contains_key(place)
            && now - x.negative[place] < x.negative_ttl,
        x.negative.contains_key(place) && x.negative[place] <= now && now - x.negative[place]
            < x.negative_ttl ==> still_negative(x, place, now),
{
    if !x.denied.contains(text) && !x.denied.contains(file_name) {
        assert forall|i: int| 0 <= i < x.denied.len() implies #[trigger] x.denied[i] != text
            && x.denied[i] != file_name by {
            assert(x.denied.contains(x.denied[i]));
        }
    }
}

/// Once a program has answered, or has not, the question is no longer being
/// answered; other questions are. Only a program that had no answer is noted as
/// such.
pub proof fn law_question_is_settled(
    x: Indexer,
    key: Ident,
    other: Ident,
    place: Place,
    answered: bool,
    now: u64,
)
    ensures
        ({
            let y = settled(x, key, answered, now);
            &&& !y.inflight.contains(key)
            &&& other != key ==> y.inflight.contains(other) == x.inflight.contains(other)
            &&& y.denied == x.denied && y.negative_ttl == x.negative_ttl
            &&& answered ==> y.negative == x.negative
            &&& !answered ==> y.negative.contains_key(key.path) && y.negative[key.path] == now
            &&& place != key.path ==> y.negative.contains_key(place) == x.negative.contains_key(
                place,
            )
            &&& place != key.path && x.negative.contains_key(place) ==> y.negative[place]
                == x.negative[place]
        }),
{
}

/// What a help text offers: all names that it tells of where it can be read as a
/// whole, and else all that its lines tell of.
pub proof fn law_help_is_offered(help: Seq<char>, h: Help, name: Seq<char>, i: int)
    ensures
        help_of(help) == Some(h) && 0 <= i < h.flags.len() && goes_by(h.flags[i], name) ==> lists(
            help_offers(help),
            name,
        ),
        help_of(help) == Some(h) && 0 <= i < h.subs.len() ==> lists(
            help_offers(help),
            h.subs[i].name,
        ),
        help_of(help) == Some(h) && 0 <= i < h.args.len() ==> lists(
            help_offers(help),
            h.args[i].name,
        ),
        help_of(help) is None && 0 <= i < lines(help).len() && names(line_found(lines(help)[i]), name)
            ==> lists(help_offers(help), name),
{
    law_all_names_are_offered(h, seq![]);
    let fs = lines(help).map_values(|l: Seq<char>| line_found(l));
    law_lines_offer_what_they_tell(fs, fs.len() as int, seq![]);
    if 0 <= i < h.subs.len() {
        assert(completes(h.subs[i].name, seq![]));
    }
    if 0 <= i < h.args.len() {
        assert(completes(h.args[i].name, seq![]));
    }
    assert(completes(name, seq![]));
    if 0 <= i < lines(help).len() {
        assert(fs[i] == line_found(lines(help)[i]));
    }
}

/// A line is a flag's where the pattern of flags fits it, else a subcommand's
/// where that one does; it tells what the groups of the pattern hold. A blank
/// line tells of nothing.
pub proof fn law_what_a_line_is(line: Seq<char>)
    ensures
        ({
            let flag = named_in(flag_pattern(), line, "desc"@);
            let sub = named_in(subcommand_pattern(), line, "desc"@);
            let blank = trimmed(line).len() == 0;
            &&& blank ==> line_found(line) is Nothing
            &&& !blank && flag is Some ==> match line_found(line) {
                Found::Flag { short, flag: long, desc } => {
                    &&& desc == flag->0
                    &&& named_in(flag_pattern(), line, "short"@) matches Some(t) ==> short == t
                    &&& named_in(flag_pattern(), line, "flag"@) matches Some(t) ==> long == t
                },
                _ => false,
            }
            &&& !blank && flag is None && sub is Some ==> match line_found(line) {
                Found::Subcommand { cmd, desc } => {
                    &&& desc == sub->0
                    &&& named_in(subcommand_pattern(), line, "cmd"@) matches Some(t) ==> cmd == t
                },
                _ => false,
            }
            &&& !blank && flag is None && sub is None ==> line_found(line) is Nothing
        }),
{
}

} // verus!
