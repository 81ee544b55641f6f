//! Completions that depend on the machine: files, hosts, and what other
//! programs list.
//!
//! To run a program and to read a directory is not done here. A provider says
//! what it needs to know, takes it, and answers.

pub mod cd;
pub mod docker;
pub mod git_branch;
pub mod git_status;
pub mod hook_laws;
pub mod kill_proc;
pub mod kubectl;
pub mod listing;
pub mod pacman;
pub mod readdir;
pub mod ssh;
pub mod systemctl;

use crate::completion::help_indexer::capped;
use crate::clock::{elapsed, elapsed_since};
use crate::completion::parser::opt_view;
use crate::completion::{suggestion_views, QueryCtx, Suggestion, SuggestionGroup, SuggestionView};
use crate::seqs::{kept, lemma_kept_take};
use crate::text::{
    begins, chars_of, join_path, joined, lines, same_str, slice_views, split_lines, split_words,
    starts_with, str_starts_with, string_of, trim, trimmed, views, words,
};
use vstd::prelude::*;
use vstd::slice::slice_subrange;
use vstd::string::StringExecFns;

verus! {

/// The most bytes of a program's output that are read.
pub const EXTERNAL_OUTPUT_CAP: usize = 2097152;

/// How long a program may take, in nanoseconds.
pub const EXTERNAL_TIMEOUT: u64 = 500_000_000;

/// The position of the last slash, or -1.
pub open spec fn last_slash(s: Seq<char>) -> int
    decreases s.len(),
{
    if s.len() == 0 {
        -1
    } else if s.last() == '/' {
        s.len() - 1
    } else {
        last_slash(s.drop_last())
    }
}

/// The path that is meant by `path` in a directory: a tilde stands for the
/// home directory, where there is one.
pub open spec fn expanded(dir: Seq<char>, path: Seq<char>, home: Option<Seq<char>>) -> Seq<char> {
    match home {
        Some(h) if path == "~"@ => h,
        Some(h) if begins(path, "~/"@) => joined(h, path.skip(2)),
        None if path == "~"@ => dir,
        _ => joined(dir, path),
    }
}

/// The directory that a token names: what stands before its last slash.
pub open spec fn dir_token(token: Seq<char>) -> Seq<char> {
    let k = last_slash(token);
    if k < 0 {
        "."@
    } else if k == 0 {
        "/"@
    } else {
        token.take(k)
    }
}

/// A token that names a file: the directory to look in, how the file's name
/// begins, and what stands before it.
#[derive(Debug)]
pub struct PathPrefix {
    pub read_dir: String,
    pub prefix: String,
    pub text_prefix: String,
}

/// The view of an optional text.
pub open spec fn opt_str(s: Option<&str>) -> Option<Seq<char>> {
    match s {
        Some(t) => Some(t@),
        None => None,
    }
}

fn expand_path(dir: &str, path: &str, home: Option<&str>) -> (r: String)
    ensures
        r@ == expanded(dir@, path@, opt_str(home)),
{
    proof {
        reveal_strlit("~");
        reveal_strlit("~/");
        assert("~"@ =~= seq!['~']);
        assert("~/"@ =~= seq!['~', '/']);
    }
    if same_str(path, "~") {
        assert(!begins(path@, "~/"@));
        return match home {
            Some(h) => h.to_owned(),
            None => dir.to_owned(),
        };
    }
    let chars: Vec<char> = chars_of(path);
    let tilde: Vec<char> = chars_of("~/");
    if starts_with(chars.as_slice(), tilde.as_slice()) {
        if let Some(h) = home {
            let rest: String = string_of(slice_subrange(chars.as_slice(), 2, chars.len()));
            assert(rest@ =~= path@.skip(2));
            return join_path(h, rest.as_str());
        }
    }
    join_path(dir, path)
}

/// What a token says about files.
pub fn path_prefix(working_dir: &str, token: &str, home: Option<&str>) -> (r: PathPrefix)
    ensures
        r.read_dir@ == expanded(working_dir@, dir_token(token@), opt_str(home)),
        r.prefix@ == token@.skip(last_slash(token@) + 1),
        r.text_prefix@ == token@.take(last_slash(token@) + 1),
{
    let chars: Vec<char> = chars_of(token);
    let mut n: usize = chars.len();
    assert(token@.take(n as int) =~= token@);
    while n > 0 && chars[n - 1] != '/'
        invariant
            chars@ == token@,
            n <= chars@.len(),
            last_slash(token@.take(n as int)) == last_slash(token@),
        decreases n,
    {
        assert(token@.take(n as int).drop_last() =~= token@.take(n - 1));
        n = n - 1;
    }
    assert(last_slash(token@) == n - 1);
    let dir: String = if n == 0 {
        ".".to_owned()
    } else if n == 1 {
        "/".to_owned()
    } else {
        string_of(slice_subrange(chars.as_slice(), 0, n - 1))
    };
    assert(dir@ =~= dir_token(token@));
    let prefix: String = string_of(slice_subrange(chars.as_slice(), n, chars.len()));
    assert(prefix@ =~= token@.skip(n as int));
    let text_prefix: String = string_of(slice_subrange(chars.as_slice(), 0, n));
    assert(text_prefix@ =~= token@.take(n as int));
    PathPrefix { read_dir: expand_path(working_dir, dir.as_str(), home), prefix, text_prefix }
}

/// What stands before the name and how the name begins make up the token.
pub proof fn law_token_in_two(token: Seq<char>)
    ensures
        -1 <= last_slash(token) < token.len(),
        token.take(last_slash(token) + 1) + token.skip(last_slash(token) + 1) == token,
        !token.skip(last_slash(token) + 1).contains('/'),
{
    lemma_last_slash(token);
    let k = last_slash(token);
    assert(token.take(k + 1) + token.skip(k + 1) =~= token);
    let name = token.skip(k + 1);
    assert forall|i: int| 0 <= i < name.len() implies name[i] != '/' by {
        assert(name[i] == token[k + 1 + i]);
    }
}

proof fn lemma_last_slash(s: Seq<char>)
    ensures
        -1 <= last_slash(s) < s.len(),
        last_slash(s) >= 0 ==> s[last_slash(s)] == '/',
        forall|i: int| last_slash(s) < i < s.len() ==> #[trigger] s[i] != '/',
    decreases s.len(),
{
    if s.len() > 0 && s.last() != '/' {
        lemma_last_slash(s.drop_last());
        assert forall|i: int| last_slash(s) < i < s.len() implies #[trigger] s[i] != '/' by {
            if i < s.len() - 1 {
                assert(s.drop_last()[i] == s[i]);
            }
        }
    }
}

/// A file as it is offered.
pub open spec fn file_offer(text: Seq<char>, display: Seq<char>) -> SuggestionView {
    SuggestionView { text, display, description: seq![], group: SuggestionGroup::File }
}

/// A file as it is offered.
pub fn file_suggestion(text: String, display: String) -> (r: Suggestion)
    ensures
        r@ == file_offer(text@, display@),
{
    let r = Suggestion { text, display, description: String::new(), group: SuggestionGroup::File };
    assert(r@ =~= file_offer(text@, display@));
    r
}

/// A value as it is offered.
pub open spec fn value_offer(
    text: Seq<char>,
    display: Seq<char>,
    description: Seq<char>,
) -> SuggestionView {
    SuggestionView { text, display, description, group: SuggestionGroup::Dynamic }
}

/// A value as it is offered.
pub fn dynamic_suggestion(text: String, display: String, description: String) -> (r: Suggestion)
    ensures
        r@ == value_offer(text@, display@, description@),
{
    Suggestion { text, display, description, group: SuggestionGroup::Dynamic }
}

/// The tokens of a question: the words of its command where they are more than
/// the tokens before the current one, and else those.
pub open spec fn tokens_of(command: Seq<char>, previous: Seq<Seq<char>>) -> Seq<Seq<char>> {
    if words(command).len() > previous.len() {
        words(command)
    } else if previous.len() == 0 && trimmed(command).len() > 0 {
        seq![trimmed(command)]
    } else {
        previous
    }
}

/// The tokens of a question.
pub open spec fn asked_tokens(ctx: QueryCtx) -> Seq<Seq<char>> {
    tokens_of(ctx.command@, views(ctx.previous_tokens@))
}

/// The tokens of a question.
pub fn ctx_tokens(ctx: &QueryCtx) -> (r: Vec<String>)
    ensures
        views(r@) == asked_tokens(*ctx),
{
    let chars: Vec<char> = chars_of(ctx.command.as_str());
    let ws: Vec<&[char]> = split_words(chars.as_slice());
    assert(slice_views(ws@).len() == ws@.len());
    assert(views(ctx.previous_tokens@).len() == ctx.previous_tokens@.len());
    if ws.len() > ctx.previous_tokens.len() {
        return strings_of(&ws);
    }
    let whole: &[char] = trim(chars.as_slice());
    if ctx.previous_tokens.len() == 0 && whole.len() > 0 {
        let mut out: Vec<String> = Vec::new();
        out.push(string_of(whole));
        assert(views(out@) =~= seq![trimmed(ctx.command@)]);
        return out;
    }
    let out: Vec<String> = ctx.previous_tokens.clone();
    assert(out@ =~= ctx.previous_tokens@);
    out
}

/// The slices as strings.
fn strings_of(ws: &Vec<&[char]>) -> (r: Vec<String>)
    ensures
        views(r@) == slice_views(ws@),
{
    let mut out: Vec<String> = Vec::new();
    let mut i: usize = 0;
    while i < ws.len()
        invariant
            i <= ws@.len(),
            out@.len() == i,
            forall|j: int| 0 <= j < i ==> (#[trigger] out@[j])@ == ws@[j]@,
        decreases ws@.len() - i,
    {
        out.push(string_of(ws[i]));
        i = i + 1;
    }
    assert(views(out@) =~= slice_views(ws@));
    out
}

/// Whether the first token is this one.
pub open spec fn first_is(tokens: Seq<Seq<char>>, t: Seq<char>) -> bool {
    tokens.len() > 0 && tokens[0] == t
}

/// Whether a token after the first is this one.
pub open spec fn later_is(tokens: Seq<Seq<char>>, t: Seq<char>) -> bool {
    exists|i: int| 1 <= i < tokens.len() && #[trigger] tokens[i] == t
}

pub(crate) fn is_first(tokens: &Vec<String>, t: &str) -> (b: bool)
    ensures
        b == first_is(views(tokens@), t@),
{
    if tokens.len() == 0 {
        return false;
    }
    assert(views(tokens@)[0] == tokens@[0]@);
    same_str(tokens[0].as_str(), t)
}

pub(crate) fn is_later(tokens: &Vec<String>, t: &str) -> (b: bool)
    ensures
        b == later_is(views(tokens@), t@),
{
    let ghost all = views(tokens@);
    let mut i: usize = 1;
    while i < tokens.len()
        invariant
            all == views(tokens@),
            1 <= i,
            i <= tokens@.len() || tokens@.len() == 0,
            all.len() == tokens@.len(),
            forall|j: int| 1 <= j < i && j < all.len() ==> #[trigger] all[j] != t@,
        decreases tokens@.len() - i,
    {
        assert(all[i as int] == tokens@[i as int]@);
        if same_str(tokens[i].as_str(), t) {
            return true;
        }
        i = i + 1;
    }
    false
}

/// What is remembered of a program's output: the values, and when they were
/// taken.
pub type Held = Option<(Seq<Seq<char>>, u64)>;

/// What marks the first of the values, which names the question.
pub open spec fn mark() -> Seq<char> {
    "\0quill-external-hook:"@
}

/// The values behind the name of their question.
pub open spec fn signed(signature: Seq<char>, values: Seq<Seq<char>>) -> Seq<Seq<char>> {
    seq![mark() + signature] + values
}

/// The values without the name of their question, where it is this one.
pub open spec fn unsigned(values: Seq<Seq<char>>, signature: Seq<char>) -> Option<Seq<Seq<char>>> {
    if values.len() > 0 && values[0] == mark() + signature {
        Some(values.skip(1))
    } else {
        None
    }
}

/// What is remembered for a question, unless it is too old.
pub open spec fn recalled(held: Held, ttl: u64, now: u64, signature: Seq<char>) -> Option<
    Seq<Seq<char>>,
> {
    match held {
        Some((values, at)) if elapsed(at, now) < ttl => unsigned(values, signature),
        _ => None,
    }
}

/// The name of a question.
pub open spec fn signature_of(provider: Seq<char>, dir: Seq<char>, extra: Seq<char>) -> Seq<char> {
    provider + ":"@ + dir + ":"@ + extra
}

/// The name of a question.
pub fn external_cache_signature(ctx: &QueryCtx, provider: &str, extra: &str) -> (r: String)
    ensures
        r@ == signature_of(provider@, ctx.working_dir@, extra@),
{
    let mut out: String = provider.to_owned();
    out.append(":");
    out.append(ctx.working_dir.as_str());
    out.append(":");
    out.append(extra);
    out
}

/// The values behind the name of their question.
pub fn values_with_signature(signature: &str, values: Vec<String>) -> (r: Vec<String>)
    ensures
        views(r@) == signed(signature@, views(values@)),
{
    let mut first: String = "\0quill-external-hook:".to_owned();
    first.append(signature);
    let mut out: Vec<String> = values;
    out.insert(0, first);
    assert(views(out@) =~= signed(signature@, views(values@)));
    out
}

/// The values without the name of their question, where it is this one.
pub fn matching_cache_values(values: Vec<String>, signature: &str) -> (r: Option<Vec<String>>)
    ensures
        match r {
            Some(v) => unsigned(views(values@), signature@) == Some(views(v@)),
            None => unsigned(views(values@), signature@) is None,
        },
{
    let mut expected: String = "\0quill-external-hook:".to_owned();
    expected.append(signature);
    assert(views(values@).len() == values@.len());
    if values.len() == 0 {
        return None;
    }
    assert(views(values@)[0] == values@[0]@);
    if values[0] != expected {
        return None;
    }
    let mut out: Vec<String> = values;
    let _ = out.remove(0);
    assert(views(out@) =~= views(values@).skip(1));
    Some(out)
}

/// Values come back under the name they were kept under, and under no other.
pub proof fn law_signed_values(signature: Seq<char>, other: Seq<char>, values: Seq<Seq<char>>)
    ensures
        unsigned(signed(signature, values), signature) == Some(values),
        other != signature ==> unsigned(signed(signature, values), other) is None,
{
    assert(signed(signature, values).skip(1) =~= values);
    if mark() + other == mark() + signature {
        assert(other =~= (mark() + other).skip(mark().len() as int));
        assert(signature =~= (mark() + signature).skip(mark().len() as int));
    }
}

/// What is remembered is not used once its time is up.
pub proof fn law_values_expire(values: Seq<Seq<char>>, at: u64, ttl: u64, now: u64, signature: Seq<char>)
    requires
        now >= at + ttl,
    ensures
        recalled(Some((values, at)), ttl, now, signature) is None,
{
}

/// What a provider remembers of a program's output, and for how long.
pub struct ExternalCache {
    held: Option<(Vec<String>, u64)>,
    ttl: u64,
}

impl View for ExternalCache {
    type V = Held;

    closed spec fn view(&self) -> Held {
        match self.held {
            Some((values, at)) => Some((views(values@), at)),
            None => None,
        }
    }
}

impl ExternalCache {
    /// How long it is remembered.
    pub closed spec fn lasts(&self) -> u64 {
        self.ttl
    }

    pub fn new(ttl: u64) -> (r: Self)
        ensures
            r@ is None,
            r.lasts() == ttl,
    {
        ExternalCache { held: None, ttl }
    }

    /// The values, unless they are too old.
    pub fn cached_values(&self, now: u64) -> (r: Option<Vec<String>>)
        ensures
            match r {
                Some(v) => self@ matches Some((values, at)) && values == views(v@) && elapsed(
                    at,
                    now,
                ) < self.lasts(),
                None => self@ matches Some((_, at)) ==> elapsed(at, now) >= self.lasts(),
            },
    {
        match &self.held {
            Some((values, at)) => {
                if elapsed_since(*at, now) < self.ttl {
                    let out: Vec<String> = values.clone();
                    assert(out@ =~= values@);
                    Some(out)
                } else {
                    None
                }
            },
            None => None,
        }
    }

    /// Keeps values.
    pub fn replace(&mut self, values: Vec<String>, now: u64)
        ensures
            final(self)@ == Some((views(values@), now)),
            final(self).lasts() == old(self).lasts(),
    {
        self.held = Some((values, now));
    }

    /// What is remembered for a question. Where that is nothing the program is
    /// to be asked, and until it has answered there are no values.
    pub fn ask(&mut self, signature: &str, now: u64) -> (r: Option<Vec<String>>)
        ensures
            final(self).lasts() == old(self).lasts(),
            match recalled(old(self)@, old(self).lasts(), now, signature@) {
                Some(values) => r is Some && views(r->0@) == values && final(self)@ == old(self)@,
                None => r is None && final(self)@ == Some(
                    (signed(signature@, seq![]), now),
                ),
            },
    {
        if let Some(values) = self.cached_values(now) {
            if let Some(found) = matching_cache_values(values, signature) {
                return Some(found);
            }
        }
        let none: Vec<String> = Vec::new();
        assert(views(none@) =~= seq![]);
        self.replace(values_with_signature(signature, none), now);
        None
    }

    /// Takes the values of a question; none where the program did not answer.
    pub fn answer(&mut self, signature: &str, values: Option<Vec<String>>, now: u64)
        ensures
            final(self).lasts() == old(self).lasts(),
            final(self)@ == Some(
                (
                    signed(
                        signature@,
                        match values {
                            Some(v) => views(v@),
                            None => seq![],
                        },
                    ),
                    now,
                ),
            ),
    {
        let values: Vec<String> = match values {
            Some(v) => v,
            None => {
                let none: Vec<String> = Vec::new();
                assert(views(none@) =~= seq![]);
                none
            },
        };
        self.replace(values_with_signature(signature, values), now);
    }
}

/// A program that is to be run: its arguments, and the name of the question.
#[derive(Debug)]
pub struct Request {
    pub program: String,
    pub args: Vec<String>,
    pub signature: String,
}

/// What comes of a question.
#[derive(Debug)]
pub enum HookStep {
    Answer(Vec<Suggestion>),
    /// The program is to be run; there is nothing to offer until then.
    Run(Request),
}

/// What comes of a question, as plain values.
pub ghost enum Stepped {
    Answer(Seq<SuggestionView>),
    Run(Seq<char>, Seq<Seq<char>>, Seq<char>),
}

impl View for HookStep {
    type V = Stepped;

    open spec fn view(&self) -> Stepped {
        match self {
            HookStep::Answer(s) => Stepped::Answer(suggestion_views(s@)),
            HookStep::Run(r) => Stepped::Run(r.program@, views(r.args@), r.signature@),
        }
    }
}

/// What comes of a question of which nothing is known.
pub(crate) fn no_answer() -> (r: HookStep)
    ensures
        r@ == Stepped::Answer(seq![]),
{
    let none: Vec<Suggestion> = Vec::new();
    assert(suggestion_views(none@) =~= seq![]);
    HookStep::Answer(none)
}

/// What comes of a question that is about what a program lists.
pub open spec fn hook_step(
    held: Held,
    ttl: u64,
    now: u64,
    signature: Seq<char>,
    program: Seq<char>,
    args: Seq<Seq<char>>,
    rule: spec_fn(Seq<char>) -> Option<SuggestionView>,
) -> Stepped {
    match recalled(held, ttl, now, signature) {
        Some(values) => Stepped::Answer(kept(values, rule)),
        None => Stepped::Run(program, args, signature),
    }
}

/// What is remembered after such a question.
pub open spec fn hook_held(held: Held, ttl: u64, now: u64, signature: Seq<char>) -> Held {
    match recalled(held, ttl, now, signature) {
        Some(_) => held,
        None => Some((signed(signature, seq![]), now)),
    }
}

/// A value that begins with a prefix, as it is offered.
pub open spec fn plain_offer(prefix: Seq<char>) -> spec_fn(Seq<char>) -> Option<SuggestionView> {
    |v: Seq<char>|
        if begins(v, prefix) {
            Some(value_offer(v, v, seq![]))
        } else {
            None
        }
}

/// What each value is offered as.
pub(crate) fn offer_each<F: Fn(&String, &str) -> Option<Suggestion>>(
    values: &Vec<String>,
    prefix: &str,
    f: F,
    rule: Ghost<spec_fn(Seq<char>) -> Option<SuggestionView>>,
) -> (r: Vec<Suggestion>)
    requires
        forall|v: &String, p: &str| #[trigger] f.requires((v, p)),
        forall|v: &String, o: Option<Suggestion>| #[trigger]
            f.ensures((v, prefix), o) ==> rule@(v@) == (match o {
                Some(s) => Some(s@),
                None => None,
            }),
    ensures
        suggestion_views(r@) == kept(views(values@), rule@),
{
    let ghost all = views(values@);
    let mut out: Vec<Suggestion> = Vec::new();
    let mut i: usize = 0;
    assert(all.take(0) =~= seq![]);
    assert(suggestion_views(out@) =~= kept(all.take(0), rule@));
    while i < values.len()
        invariant
            forall|v: &String, p: &str| #[trigger] f.requires((v, p)),
            forall|v: &String, o: Option<Suggestion>| #[trigger]
                f.ensures((v, prefix), o) ==> rule@(v@) == (match o {
                    Some(s) => Some(s@),
                    None => None,
                }),
            all == views(values@),
            i <= values@.len() == all.len(),
            suggestion_views(out@) == kept(all.take(i as int), rule@),
        decreases values@.len() - i,
    {
        assert(all[i as int] == values@[i as int]@);
        proof {
            lemma_kept_take(all, rule@, i as int);
        }
        if let Some(s) = f(&values[i], prefix) {
            assert(suggestion_views(out@.push(s)) =~= suggestion_views(out@).push(s@));
            out.push(s);
        }
        i = i + 1;
    }
    assert(all.take(all.len() as int) =~= all);
    out
}

fn plain_one(v: &String, prefix: &str) -> (r: Option<Suggestion>)
    ensures
        plain_offer(prefix@)(v@) == (match r {
            Some(s) => Some(s@),
            None => None,
        }),
{
    if str_starts_with(v.as_str(), prefix) {
        let none: String = String::new();
        assert(none@ =~= seq![]);
        Some(dynamic_suggestion(v.clone(), v.clone(), none))
    } else {
        None
    }
}

/// The values that begin with a prefix, as they are offered.
pub fn plain_suggestions(values: &Vec<String>, prefix: &str) -> (r: Vec<Suggestion>)
    ensures
        suggestion_views(r@) == kept(views(values@), plain_offer(prefix@)),
{
    offer_each(values, prefix, plain_one, Ghost(plain_offer(prefix@)))
}

/// What each line of an output holds.
pub(crate) fn collect_lines<F: Fn(&[char]) -> Option<String>>(
    output: &str,
    f: F,
    rule: Ghost<spec_fn(Seq<char>) -> Option<Seq<char>>>,
) -> (r: Vec<String>)
    requires
        forall|l: &[char]| #[trigger] f.requires((l,)),
        forall|l: &[char], o: Option<String>| #[trigger]
            f.ensures((l,), o) ==> rule@(l@) == opt_view(o),
    ensures
        views(r@) == kept(lines(output@), rule@),
{
    let chars: Vec<char> = chars_of(output);
    let ls: Vec<&[char]> = split_lines(chars.as_slice());
    let ghost all = lines(output@);
    assert(slice_views(ls@).len() == ls@.len());
    let mut out: Vec<String> = Vec::new();
    let mut i: usize = 0;
    assert(all.take(0) =~= seq![]);
    assert(views(out@) =~= kept(all.take(0), rule@));
    while i < ls.len()
        invariant
            forall|l: &[char]| #[trigger] f.requires((l,)),
            forall|l: &[char], o: Option<String>| #[trigger]
                f.ensures((l,), o) ==> rule@(l@) == opt_view(o),
            slice_views(ls@) == all,
            i <= ls@.len() == all.len(),
            views(out@) == kept(all.take(i as int), rule@),
        decreases ls@.len() - i,
    {
        assert(slice_views(ls@)[i as int] == ls@[i as int]@);
        proof {
            lemma_kept_take(all, rule@, i as int);
        }
        if let Some(s) = f(ls[i]) {
            assert(views(out@.push(s)) =~= views(out@).push(s@));
            out.push(s);
        }
        i = i + 1;
    }
    assert(all.take(all.len() as int) =~= all);
    out
}

/// A line without white space at its ends, unless nothing is left of it.
pub open spec fn trimmed_line() -> spec_fn(Seq<char>) -> Option<Seq<char>> {
    |l: Seq<char>|
        if trimmed(l).len() > 0 {
            Some(trimmed(l))
        } else {
            None
        }
}

fn trimmed_one(l: &[char]) -> (r: Option<String>)
    ensures
        trimmed_line()(l@) == opt_view(r),
{
    let t: &[char] = trim(l);
    if t.len() > 0 {
        Some(string_of(t))
    } else {
        None
    }
}

/// The lines of an output that are not blank.
pub fn trimmed_lines(output: &str) -> (r: Vec<String>)
    ensures
        views(r@) == kept(lines(output@), trimmed_line()),
{
    collect_lines(output, trimmed_one, Ghost(trimmed_line()))
}

/// Appends as much of a program's output as is read.
pub fn append_capped_external_output(output: &mut Vec<u8>, chunk: &[u8])
    ensures
        final(output)@ == capped(old(output)@, chunk@, EXTERNAL_OUTPUT_CAP as nat),
{
    crate::completion::help_indexer::append_capped(output, chunk, EXTERNAL_OUTPUT_CAP);
}

/// Where the hosts of ssh are configured.
pub fn default_ssh_config_path(home: Option<&str>) -> (r: String)
    ensures
        r@ == joined(
            match home {
                Some(h) => h@,
                None => seq![],
            },
            ".ssh/config"@,
        ),
{
    match home {
        Some(h) => join_path(h, ".ssh/config"),
        None => {
            proof {
                reveal_strlit("");
                assert(""@ =~= seq![]);
            }
            join_path("", ".ssh/config")
        },
    }
}

/// The hooks for single commands.
#[derive(Debug, Clone, Copy, PartialEq, Eq, Structural)]
pub enum Hook {
    Cd,
    Ssh,
    Readdir,
    GitBranch,
    GitStatus,
    Kill,
    Docker,
    Kubectl,
    Pacman,
    Systemctl,
}

/// The hooks that read files and directories, in the order in which they are
/// asked.
pub fn local_hooks() -> (r: Vec<Hook>)
    ensures
        r@ == seq![Hook::Cd, Hook::Ssh, Hook::Readdir],
{
    let r: Vec<Hook> = vec![Hook::Cd, Hook::Ssh, Hook::Readdir];
    assert(r@ =~= seq![Hook::Cd, Hook::Ssh, Hook::Readdir]);
    r
}

/// The hooks that ask other programs, in the order in which they are asked.
pub fn external_hooks() -> (r: Vec<Hook>)
    ensures
        r@ == seq![
            Hook::GitBranch,
            Hook::GitStatus,
            Hook::Kill,
            Hook::Docker,
            Hook::Kubectl,
            Hook::Pacman,
            Hook::Systemctl,
        ],
{
    let r: Vec<Hook> = vec![
        Hook::GitBranch,
        Hook::GitStatus,
        Hook::Kill,
        Hook::Docker,
        Hook::Kubectl,
        Hook::Pacman,
        Hook::Systemctl,
    ];
    assert(r@ =~= seq![
        Hook::GitBranch,
        Hook::GitStatus,
        Hook::Kill,
        Hook::Docker,
        Hook::Kubectl,
        Hook::Pacman,
        Hook::Systemctl,
    ]);
    r
}

} // verus!
