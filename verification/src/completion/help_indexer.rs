//! Finds the flags and subcommands of a program by asking it for help.
//!
//! To find the program and to run it is not done here: the provider says
//! whether it may be asked, takes what it answered, and remembers it.

use crate::completion::cache::{
    item_at, same_key, stored, used, CacheKey, CompletionCache, Ident, Item, Timestamp,
};
use crate::clock::{elapsed, elapsed_since};
use crate::completion::negative::NegativeCache;
use crate::completion::parser::{
    help_of, offered, offers_of, parse, push_suggestion, to_suggestions, try_parse,
};
use crate::completion::pattern::{named_in, or_empty, Pattern};
use crate::completion::{
    suggestion_views, ProviderErr, QueryCtx, Suggestion, SuggestionGroup, SuggestionView,
};
use crate::composer::state::first_word;
use crate::composer::tokenizer::{
    all_represent, lexemes, represents, tokenize, Tokenized, TokenKind,
};
use crate::paths::{is_absolute, path_is_allowed, place, within_any, Place};
use crate::seqs::{first_where, lemma_first_where};
use crate::text::{
    begins, chars_of, has_char, join_path, joined, lines, slice_views, split_lines, str_starts_with,
    string_of, trim, trimmed, views,
};
use vstd::prelude::*;
use vstd::slice::slice_subrange;
use vstd::string::StringExecFns;

verus! {

/// The most bytes of a help text that are read.
pub const DEFAULT_OUTPUT_CAP: usize = 262144;

/// How long a program may take to answer, in nanoseconds.
pub const DEFAULT_TIMEOUT: u64 = 2_000_000_000;

/// How long a program that did not answer is not asked again, in nanoseconds.
pub const DEFAULT_NEGATIVE_TTL: u64 = 86_400_000_000_000;

/// How often it is looked whether a program is done, in nanoseconds.
pub const DONE_POLL_INTERVAL: u64 = 10_000_000;

/// What a line of a help text was found to be.
pub enum LineMatch {
    Nothing,
    Flag { short: Option<String>, flag: Option<String>, desc: Option<String> },
    Subcommand { cmd: Option<String>, desc: Option<String> },
}

/// What a line of a help text was found to be, as plain values.
pub ghost enum Found {
    Nothing,
    Flag { short: Option<Seq<char>>, flag: Option<Seq<char>>, desc: Option<Seq<char>> },
    Subcommand { cmd: Option<Seq<char>>, desc: Option<Seq<char>> },
}

impl View for LineMatch {
    type V = Found;

    open spec fn view(&self) -> Found {
        match self {
            LineMatch::Nothing => Found::Nothing,
            LineMatch::Flag { short, flag, desc } => Found::Flag {
                short: crate::completion::parser::opt_view(*short),
                flag: crate::completion::parser::opt_view(*flag),
                desc: crate::completion::parser::opt_view(*desc),
            },
            LineMatch::Subcommand { cmd, desc } => Found::Subcommand {
                cmd: crate::completion::parser::opt_view(*cmd),
                desc: crate::completion::parser::opt_view(*desc),
            },
        }
    }
}

/// The views of what lines were found to be.
pub open spec fn found_views(s: Seq<LineMatch>) -> Seq<Found> {
    s.map_values(|m: LineMatch| m@)
}

/// The pattern of a flag's line.
pub open spec fn flag_pattern() -> Seq<char> {
    r"^\s*(?:(?P<short>-\w),\s*)?(?P<flag>-\w|--\w[\w-]*)(?:\s+<\w+>)?(?:\s+(?P<desc>.*))?$"@
}

/// The pattern of a subcommand's line.
pub open spec fn subcommand_pattern() -> Seq<char> {
    r"^\s{2,}(?P<cmd>\w[\w-]*)\s{2,}(?P<desc>.*)?$"@
}

/// What a line is, by the two patterns; a blank one is nothing.
pub open spec fn line_found(line: Seq<char>) -> Found {
    if trimmed(line).len() == 0 {
        Found::Nothing
    } else {
        match named_in(flag_pattern(), line, "desc"@) {
            Some(desc) => Found::Flag {
                short: group_text(named_in(flag_pattern(), line, "short"@)),
                flag: group_text(named_in(flag_pattern(), line, "flag"@)),
                desc,
            },
            None => match named_in(subcommand_pattern(), line, "desc"@) {
                Some(desc) => Found::Subcommand {
                    cmd: group_text(named_in(subcommand_pattern(), line, "cmd"@)),
                    desc,
                },
                None => Found::Nothing,
            },
        }
    }
}

/// What a group holds, where there is a match.
pub open spec fn group_text(g: Option<Option<Seq<char>>>) -> Option<Seq<char>> {
    match g {
        Some(t) => t,
        None => None,
    }
}

/// The list with what a line offers.
pub open spec fn with_line(s: Seq<SuggestionView>, f: Found, token: Seq<char>) -> Seq<SuggestionView> {
    match f {
        Found::Nothing => s,
        Found::Flag { short, flag, desc } => {
            let d = trimmed(or_empty(desc));
            let first = match short {
                Some(t) => offered(s, t, d, SuggestionGroup::Flag, token),
                None => s,
            };
            match flag {
                Some(t) => offered(first, t, d, SuggestionGroup::Flag, token),
                None => first,
            }
        },
        Found::Subcommand { cmd, desc } => offered(
            s,
            or_empty(cmd),
            trimmed(or_empty(desc)),
            SuggestionGroup::Subcommand,
            token,
        ),
    }
}

/// What the first `n` lines offer.
pub open spec fn line_offers(fs: Seq<Found>, n: int, token: Seq<char>) -> Seq<SuggestionView>
    decreases n,
{
    if n <= 0 {
        seq![]
    } else {
        with_line(line_offers(fs, n - 1, token), fs[n - 1], token)
    }
}

/// What a help text offers, line by line.
pub open spec fn simple_offers(help: Seq<char>, token: Seq<char>) -> Seq<SuggestionView> {
    let fs = lines(help).map_values(|l: Seq<char>| line_found(l));
    line_offers(fs, fs.len() as int, token)
}

/// `s` without leading and trailing white space.
fn trimmed_string(s: &Option<String>) -> (r: String)
    ensures
        r@ == trimmed(or_empty(crate::completion::parser::opt_view(*s))),
{
    match s {
        Some(s) => string_of(trim(chars_of(s.as_str()).as_slice())),
        None => {
            let r: String = String::new();
            assert(trimmed(seq![]) =~= seq![]);
            r
        },
    }
}

/// What lines offer, given what each was found to be.
pub fn collect_matches(found: &Vec<LineMatch>, current_token: &str) -> (r: Vec<Suggestion>)
    ensures
        suggestion_views(r@) == line_offers(
            found_views(found@),
            found@.len() as int,
            current_token@,
        ),
{
    let ghost fs = found_views(found@);
    let mut out: Vec<Suggestion> = Vec::new();
    let mut i: usize = 0;
    assert(suggestion_views(out@) =~= seq![]);
    while i < found.len()
        invariant
            fs == found_views(found@),
            i <= found@.len() == fs.len(),
            suggestion_views(out@) == line_offers(fs, i as int, current_token@),
        decreases found@.len() - i,
    {
        assert(fs[i as int] == found@[i as int]@);
        match &found[i] {
            LineMatch::Nothing => {},
            LineMatch::Flag { short, flag, desc } => {
                let d: String = trimmed_string(desc);
                if let Some(t) = short {
                    push_suggestion(
                        &mut out,
                        t.as_str(),
                        d.as_str(),
                        SuggestionGroup::Flag,
                        current_token,
                    );
                }
                if let Some(t) = flag {
                    push_suggestion(
                        &mut out,
                        t.as_str(),
                        d.as_str(),
                        SuggestionGroup::Flag,
                        current_token,
                    );
                }
            },
            LineMatch::Subcommand { cmd, desc } => {
                let d: String = trimmed_string(desc);
                let name: String = match cmd {
                    Some(t) => t.clone(),
                    None => String::new(),
                };
                push_suggestion(
                    &mut out,
                    name.as_str(),
                    d.as_str(),
                    SuggestionGroup::Subcommand,
                    current_token,
                );
            },
        }
        i = i + 1;
    }
    out
}

/// What a group holds, where there is a match.
fn flat(g: Option<Option<String>>) -> (r: Option<String>)
    ensures
        r == match g {
            Some(t) => t,
            None => None,
        },
{
    match g {
        Some(t) => t,
        None => None,
    }
}

/// What a line is, by the two patterns.
fn match_line(line: &[char], flags: &Pattern, commands: &Pattern) -> (r: LineMatch)
    requires
        flags@ == flag_pattern(),
        commands@ == subcommand_pattern(),
    ensures
        r@ == line_found(line@),
{
    if trim(line).len() == 0 {
        return LineMatch::Nothing;
    }
    let text: String = string_of(line);
    if let Some(desc) = flags.named(text.as_str(), "desc") {
        return LineMatch::Flag {
            short: flat(flags.named(text.as_str(), "short")),
            flag: flat(flags.named(text.as_str(), "flag")),
            desc,
        };
    }
    match commands.named(text.as_str(), "desc") {
        Some(desc) => LineMatch::Subcommand {
            cmd: flat(commands.named(text.as_str(), "cmd")),
            desc,
        },
        None => LineMatch::Nothing,
    }
}

/// What a help text offers, line by line.
pub fn simple_regex_parse(help_output: &str, current_token: &str) -> (r: Vec<Suggestion>)
    ensures
        suggestion_views(r@) == simple_offers(help_output@, current_token@),
{
    let chars: Vec<char> = chars_of(help_output);
    let ls: Vec<&[char]> = split_lines(chars.as_slice());
    let ghost all = lines(help_output@).map_values(|l: Seq<char>| line_found(l));
    assert(slice_views(ls@).len() == ls@.len());
    let flags: Pattern = Pattern::new(
        r"^\s*(?:(?P<short>-\w),\s*)?(?P<flag>-\w|--\w[\w-]*)(?:\s+<\w+>)?(?:\s+(?P<desc>.*))?$",
    );
    let commands: Pattern = Pattern::new(r"^\s{2,}(?P<cmd>\w[\w-]*)\s{2,}(?P<desc>.*)?$");
    let mut found: Vec<LineMatch> = Vec::new();
    let mut i: usize = 0;
    assert(found_views(found@) =~= all.take(0));
    while i < ls.len()
        invariant
            flags@ == flag_pattern(),
            commands@ == subcommand_pattern(),
            slice_views(ls@) == lines(help_output@),
            all == lines(help_output@).map_values(|l: Seq<char>| line_found(l)),
            i <= ls@.len() == all.len(),
            found_views(found@) == all.take(i as int),
        decreases ls@.len() - i,
    {
        assert(slice_views(ls@)[i as int] == ls@[i as int]@);
        let m: LineMatch = match_line(ls[i], &flags, &commands);
        proof {
            assert(all[i as int] == m@);
            assert(found_views(found@.push(m)) =~= found_views(found@).push(m@));
            assert(all.take(i + 1) =~= all.take(i as int).push(all[i as int]));
        }
        found.push(m);
        i = i + 1;
    }
    assert(all.take(all.len() as int) =~= all);
    assert(found_views(found@).len() == found@.len());
    collect_matches(&found, current_token)
}

/// What a help text offers: all that it tells, or what its lines tell each by
/// itself where it cannot be read as a whole.
pub open spec fn help_offers(help: Seq<char>) -> Seq<SuggestionView> {
    match help_of(help) {
        Some(h) => offers_of(h, seq![]),
        None => simple_offers(help, seq![]),
    }
}

/// What a help text offers.
pub fn parse_help_suggestions(help_output: &str) -> (r: Vec<Suggestion>)
    ensures
        suggestion_views(r@) == help_offers(help_output@),
{
    proof {
        reveal_strlit("");
        assert(""@ =~= seq![]);
    }
    if try_parse(help_output).is_some() {
        to_suggestions(&parse(help_output), "")
    } else {
        simple_regex_parse(help_output, "")
    }
}

/// Those of the suggestions that begin with a token.
pub open spec fn beginning(s: Seq<Suggestion>, token: Seq<char>) -> Seq<Suggestion> {
    s.filter(|x: Suggestion| begins(x.text@, token))
}

/// Those of the suggestions that begin with a token: all where it is empty.
pub fn filter_suggestions(suggestions: Vec<Suggestion>, current_token: &str) -> (r: Vec<Suggestion>)
    ensures
        r@ == (if current_token@.len() == 0 {
            suggestions@
        } else {
            beginning(suggestions@, current_token@)
        }),
{
    if current_token.is_empty() {
        return suggestions;
    }
    let ghost p = |x: Suggestion| begins(x.text@, current_token@);
    let mut out: Vec<Suggestion> = Vec::new();
    let mut i: usize = 0;
    reveal(Seq::filter);
    assert(out@ =~= suggestions@.take(0).filter(p));
    while i < suggestions.len()
        invariant
            i <= suggestions@.len(),
            p == (|x: Suggestion| begins(x.text@, current_token@)),
            out@ == suggestions@.take(i as int).filter(p),
        decreases suggestions@.len() - i,
    {
        proof {
            crate::seqs::lemma_filter_take(suggestions@, p, i as int);
        }
        if str_starts_with(suggestions[i].text.as_str(), current_token) {
            out.push(suggestions[i].clone());
        }
        i = i + 1;
    }
    assert(suggestions@.take(i as int) =~= suggestions@);
    out
}

/// The program that a question is about: the first word of its command, or
/// the first token before that is not empty.
pub open spec fn program(command: Seq<char>, previous: Seq<Seq<char>>) -> Option<Seq<char>> {
    let word = first_word(lexemes(trimmed(command), 0), 0);
    if word.len() > 0 {
        Some(word)
    } else {
        match first_where(previous, |t: Seq<char>| t.len() > 0) {
            Some(i) => Some(previous[i]),
            None => None,
        }
    }
}

/// The program that a question is about.
pub fn command_token(ctx: &QueryCtx) -> (r: Option<String>)
    ensures
        match r {
            Some(t) => program(ctx.command@, views(ctx.previous_tokens@)) == Some(t@),
            None => program(ctx.command@, views(ctx.previous_tokens@)) is None,
        },
{
    let chars: Vec<char> = chars_of(ctx.command.as_str());
    let command: String = string_of(trim(chars.as_slice()));
    let t: Tokenized = tokenize(command.as_str(), 0);
    let ghost ls = lexemes(command@, 0);
    let mut k: usize = 0;
    while k < t.tokens.len() && !(matches!(t.tokens[k].kind, TokenKind::Word) || matches!(
        t.tokens[k].kind,
        TokenKind::Unterminated
    ))
        invariant
            ls == lexemes(command@, 0),
            all_represent(t.tokens@, ls, command@),
            k <= t.tokens@.len(),
            first_word(ls, k as int) == first_word(ls, 0),
        decreases t.tokens@.len() - k,
    {
        assert(represents(t.tokens@[k as int], ls[k as int], command@));
        k = k + 1;
    }
    if k < t.tokens.len() {
        assert(represents(t.tokens@[k as int], ls[k as int], command@));
        if !t.tokens[k].text.as_str().is_empty() {
            return Some(t.tokens[k].text.clone());
        }
    }
    assert(first_word(ls, 0).len() == 0);
    let ghost all = views(ctx.previous_tokens@);
    let ghost p = |t: Seq<char>| t.len() > 0;
    let mut i: usize = 0;
    while i < ctx.previous_tokens.len()
        invariant
            ls == lexemes(trimmed(ctx.command@), 0),
            first_word(ls, 0).len() == 0,
            all == views(ctx.previous_tokens@),
            p == (|t: Seq<char>| t.len() > 0),
            i <= ctx.previous_tokens@.len() == all.len(),
            forall|j: int| 0 <= j < i ==> !p(#[trigger] all[j]),
        decreases ctx.previous_tokens@.len() - i,
    {
        assert(all[i as int] == ctx.previous_tokens@[i as int]@);
        if !ctx.previous_tokens[i].as_str().is_empty() {
            proof {
                lemma_first_where(all, p, i as int);
            }
            return Some(ctx.previous_tokens[i].clone());
        }
        i = i + 1;
    }
    proof {
        lemma_first_where(all, p, i as int);
    }
    None
}

/// Where a program is to be found.
#[derive(Debug)]
pub enum Location {
    /// At this path.
    At(String),
    /// By this name, in the first directory of the search path that has it.
    Named(String),
}

/// Where the program that a question is about is to be found. One that is
/// named with a slash is found from the directory of the question.
pub fn locate(ctx: &QueryCtx) -> (r: Result<Location, ProviderErr>)
    ensures
        match program(ctx.command@, views(ctx.previous_tokens@)) {
            None => r matches Err(e) && e == ProviderErr::NotFound,
            Some(token) => if token.contains('/') {
                r matches Ok(Location::At(path)) && path@ == joined(ctx.working_dir@, token)
            } else {
                r matches Ok(Location::Named(name)) && name@ == token
            },
        },
{
    match command_token(ctx) {
        None => Err(ProviderErr::NotFound),
        Some(token) => {
            let chars: Vec<char> = chars_of(token.as_str());
            if has_char(chars.as_slice(), '/') {
                Ok(Location::At(join_path(ctx.working_dir.as_str(), token.as_str())))
            } else {
                Ok(Location::Named(token))
            }
        },
    }
}

/// What a question is remembered as.
pub fn query_signature(ctx: &QueryCtx) -> (r: String)
    ensures
        r@ == "help:"@ + or_empty(program(ctx.command@, views(ctx.previous_tokens@))),
{
    let mut out: String = "help:".to_owned();
    if let Some(t) = command_token(ctx) {
        out.append(t.as_str());
    } else {
        assert(out@ + seq![] =~= out@);
    }
    out
}

/// Whether a program must not be asked: its path, or its name, is listed.
pub fn is_denied(path: &str, file_name: &str, deny_list: &Vec<String>) -> (b: bool)
    ensures
        b == (views(deny_list@).contains(path@) || views(deny_list@).contains(file_name@)),
{
    let p: String = path.to_owned();
    let f: String = file_name.to_owned();
    let ghost all = views(deny_list@);
    let mut i: usize = 0;
    while i < deny_list.len()
        invariant
            all == views(deny_list@),
            p@ == path@,
            f@ == file_name@,
            i <= deny_list@.len() == all.len(),
            forall|j: int| 0 <= j < i ==> #[trigger] all[j] != path@ && all[j] != file_name@,
        decreases deny_list@.len() - i,
    {
        assert(all[i as int] == deny_list@[i as int]@);
        if deny_list[i] == p || deny_list[i] == f {
            assert(all[i as int] == path@ || all[i as int] == file_name@);
            return true;
        }
        i = i + 1;
    }
    false
}

/// `output` with as much of `chunk` as the limit allows.
pub open spec fn capped(output: Seq<u8>, chunk: Seq<u8>, cap: nat) -> Seq<u8> {
    if output.len() >= cap {
        output
    } else {
        (output + chunk).take(
            if output.len() + chunk.len() < cap {
                (output.len() + chunk.len()) as int
            } else {
                cap as int
            },
        )
    }
}

/// Appends as much of `chunk` as the limit allows.
pub fn append_capped(output: &mut Vec<u8>, chunk: &[u8], output_cap: usize)
    ensures
        final(output)@ == capped(old(output)@, chunk@, output_cap as nat),
{
    let n: usize = output.len();
    if n >= output_cap {
        return;
    }
    let remaining: usize = output_cap - n;
    let take: usize = if remaining < chunk.len() {
        remaining
    } else {
        chunk.len()
    };
    output.extend_from_slice(slice_subrange(chunk, 0, take));
    assert(output@ =~= capped(old(output)@, chunk@, output_cap as nat));
}

/// However output is cut into pieces, as much of it is kept.
pub proof fn law_capped_pieces(s: Seq<u8>, a: Seq<u8>, b: Seq<u8>, cap: nat)
    ensures
        capped(capped(s, a, cap), b, cap) == capped(s, a + b, cap),
{
    assert(capped(capped(s, a, cap), b, cap) =~= capped(s, a + b, cap));
}

/// What is to be done about a running program.
#[derive(Debug, Clone, Copy, PartialEq, Eq, Structural)]
pub enum RunNext {
    /// Wait this long for output.
    WaitOutput(u64),
    /// Wait this long for its end.
    WaitDone(u64),
    /// It has taken too long: end it.
    Kill,
}

/// A program that has been asked for help.
pub struct HelpRun {
    output: Vec<u8>,
    closed: bool,
    started: u64,
    timeout: u64,
    cap: usize,
}

impl HelpRun {
    /// What it has put out.
    pub closed spec fn text(&self) -> Seq<u8> {
        self.output@
    }

    /// Whether it will put out no more.
    pub closed spec fn is_closed(&self) -> bool {
        self.closed
    }

    /// When it was started, how long it may take, and how much is read.
    pub closed spec fn terms(&self) -> (u64, u64, nat) {
        (self.started, self.timeout, self.cap as nat)
    }

    pub fn new(started: u64, timeout: u64, cap: usize) -> (r: Self)
        ensures
            r.text() == Seq::<u8>::empty(),
            !r.is_closed(),
            r.terms() == (started, timeout, cap as nat),
    {
        HelpRun { output: Vec::new(), closed: false, started, timeout, cap }
    }

    /// Takes output.
    pub fn took(&mut self, chunk: &[u8])
        ensures
            final(self).text() == capped(old(self).text(), chunk@, old(self).terms().2),
            final(self).is_closed() == old(self).is_closed(),
            final(self).terms() == old(self).terms(),
    {
        append_capped(&mut self.output, chunk, self.cap);
    }

    /// Takes that there will be no more output.
    pub fn output_closed(&mut self)
        ensures
            final(self).text() == old(self).text(),
            final(self).is_closed(),
            final(self).terms() == old(self).terms(),
    {
        self.closed = true;
    }

    /// What is to be done now.
    pub fn next(&self, now: u64) -> (r: RunNext)
        ensures
            ({
                let (started, timeout, _) = self.terms();
                let taken = elapsed(started, now);
                let wait = if timeout - taken < DONE_POLL_INTERVAL {
                    timeout - taken
                } else {
                    DONE_POLL_INTERVAL as int
                };
                r == (if taken >= timeout {
                    RunNext::Kill
                } else if self.is_closed() {
                    RunNext::WaitDone(wait as u64)
                } else {
                    RunNext::WaitOutput(wait as u64)
                })
            }),
    {
        let taken: u64 = elapsed_since(self.started, now);
        if taken >= self.timeout {
            return RunNext::Kill;
        }
        let remaining: u64 = self.timeout - taken;
        let wait: u64 = if remaining < DONE_POLL_INTERVAL {
            remaining
        } else {
            DONE_POLL_INTERVAL
        };
        if self.closed {
            RunNext::WaitDone(wait)
        } else {
            RunNext::WaitOutput(wait)
        }
    }

    /// The help text, once the program is done.
    pub fn finish(&self) -> (r: String)
        ensures
            r@ == crate::text::lossy_text(self.text()),
    {
        crate::text::lossy(self.output.as_slice())
    }
}

/// How a program is asked.
#[derive(Debug, Clone)]
pub struct HelpIndexerConfig {
    /// How long it may take, in nanoseconds.
    pub timeout: u64,
    pub output_cap: usize,
    /// How long one that did not answer is not asked again, in nanoseconds.
    pub negative_ttl: u64,
    /// The directories below which a program may be asked.
    pub allow_paths: Vec<Vec<u8>>,
}

impl HelpIndexerConfig {
    /// The usual limits, with the directories of the search path.
    pub fn with_paths(allow_paths: Vec<Vec<u8>>) -> (r: Self)
        ensures
            r.timeout == DEFAULT_TIMEOUT,
            r.output_cap == DEFAULT_OUTPUT_CAP,
            r.negative_ttl == DEFAULT_NEGATIVE_TTL,
            r.allow_paths == allow_paths,
    {
        HelpIndexerConfig {
            timeout: DEFAULT_TIMEOUT,
            output_cap: DEFAULT_OUTPUT_CAP,
            negative_ttl: DEFAULT_NEGATIVE_TTL,
            allow_paths,
        }
    }
}

/// What came of asking a program.
#[derive(Debug)]
pub enum HelpOutcome {
    Output(String),
    Timeout,
    Io(String),
}

/// What came of asking a program, with its text read.
#[derive(Debug)]
pub enum HelpReading {
    Offers(Vec<Suggestion>),
    Timeout,
    Io(String),
}

/// Asks programs for help: each once, and one that did not answer not again
/// for a while.
pub struct HelpIndexerProvider {
    inflight: Vec<CacheKey>,
    negative: NegativeCache,
    deny_list: Vec<String>,
    config: HelpIndexerConfig,
}

/// What a provider knows.
pub ghost struct Indexer {
    /// The questions that are being answered.
    pub inflight: Set<Ident>,
    /// The programs that had no answer, and when.
    pub negative: Map<Place, u64>,
    /// The programs that must not be asked.
    pub denied: Seq<Seq<char>>,
    pub negative_ttl: u64,
}

spec fn key_set(s: Seq<CacheKey>) -> Set<Ident> {
    s.map_values(|k: CacheKey| k@.ident()).to_set()
}

spec fn distinct(s: Seq<CacheKey>) -> bool {
    forall|i: int, j: int| 0 <= i < j < s.len() ==> (#[trigger] s[i])@.ident() != (
        #[trigger] s[j])@.ident()
}

impl View for HelpIndexerProvider {
    type V = Indexer;

    closed spec fn view(&self) -> Indexer {
        Indexer {
            inflight: key_set(self.inflight@),
            negative: self.negative@,
            denied: views(self.deny_list@),
            negative_ttl: self.config.negative_ttl,
        }
    }
}

/// Whether a program had no answer too short a time ago.
pub open spec fn still_negative(x: Indexer, path: Place, now: u64) -> bool {
    x.negative.contains_key(path) && elapsed(x.negative[path], now) < x.negative_ttl
}

/// Whether a program may be asked, as far as the lists say.
pub open spec fn eligible(
    x: Indexer,
    path: Seq<u8>,
    text: Seq<char>,
    file_name: Seq<char>,
    allow: Seq<Vec<u8>>,
) -> bool {
    within_any(path, allow) && !x.denied.contains(text) && !x.denied.contains(file_name)
}

/// What a provider knows once an answer, or none, has come.
pub open spec fn settled(x: Indexer, key: Ident, answered: bool, now: u64) -> Indexer {
    Indexer {
        inflight: x.inflight.remove(key),
        negative: if answered {
            x.negative
        } else {
            x.negative.insert(key.path, now)
        },
        ..x
    }
}

/// Those that begin with the token; all where it is empty.
pub open spec fn narrowed(s: Seq<Suggestion>, token: Seq<char>) -> Seq<Suggestion> {
    if token.len() == 0 {
        s
    } else {
        beginning(s, token)
    }
}

impl HelpIndexerProvider {
    /// What every provider keeps.
    pub closed spec fn inv(&self) -> bool {
        self.negative.inv() && distinct(self.inflight@)
    }

    /// The configuration.
    pub closed spec fn configuration(&self) -> HelpIndexerConfig {
        self.config
    }

    pub fn new(config: HelpIndexerConfig) -> (r: Self)
        ensures
            r.inv(),
            r.configuration() == config,
            r@ == (Indexer {
                inflight: Set::empty(),
                negative: Map::empty(),
                denied: seq![],
                negative_ttl: config.negative_ttl,
            }),
    {
        let list: Vec<String> = Vec::new();
        assert(views(list@) =~= seq![]);
        HelpIndexerProvider::with_deny_list(config, list)
    }

    pub fn with_deny_list(config: HelpIndexerConfig, deny_list: Vec<String>) -> (r: Self)
        ensures
            r.inv(),
            r.configuration() == config,
            r@ == (Indexer {
                inflight: Set::empty(),
                negative: Map::empty(),
                denied: views(deny_list@),
                negative_ttl: config.negative_ttl,
            }),
    {
        let r = HelpIndexerProvider {
            inflight: Vec::new(),
            negative: NegativeCache::new(),
            deny_list,
            config,
        };
        assert(key_set(r.inflight@) =~= Set::empty());
        r
    }

    pub fn config(&self) -> (r: &HelpIndexerConfig)
        ensures
            *r == self.configuration(),
    {
        &self.config
    }

    pub fn name(&self) -> (r: &'static str)
        ensures
            r@ == "help_indexer"@,
    {
        "help_indexer"
    }

    /// Whether a program may be asked now. It is known by its path, by how the
    /// path and its last part are displayed; `allow` are the directories below
    /// which a program may be asked, as they are on disk.
    pub fn may_ask(
        &mut self,
        path: &[u8],
        text: &str,
        file_name: &str,
        allow: &Vec<Vec<u8>>,
        now: u64,
    ) -> (r: Result<(), ProviderErr>)
        requires
            old(self).inv(),
            is_absolute(path@),
        ensures
            final(self).inv(),
            final(self).configuration() == old(self).configuration(),
            r == (if eligible(old(self)@, path@, text@, file_name@, allow@) && !still_negative(
                old(self)@,
                place(path@),
                now,
            ) {
                Ok(())
            } else {
                Err(ProviderErr::NotFound)
            }),
            final(self)@ == (if r is Ok {
                Indexer { negative: old(self)@.negative.remove(place(path@)), ..old(self)@ }
            } else {
                old(self)@
            }),
    {
        if !path_is_allowed(path, allow) {
            return Err(ProviderErr::NotFound);
        }
        if is_denied(text, file_name, &self.deny_list) {
            return Err(ProviderErr::NotFound);
        }
        if self.negative.is_negative_cached(path, now, self.config.negative_ttl) {
            return Err(ProviderErr::NotFound);
        }
        Ok(())
    }

    fn find(&self, key: &CacheKey) -> (r: Option<usize>)
        requires
            distinct(self.inflight@),
        ensures
            match r {
                Some(i) => i < self.inflight@.len() && self.inflight@[i as int]@.ident() == key@.ident()
                    && self@.inflight.contains(key@.ident()),
                None => !self@.inflight.contains(key@.ident()),
            },
    {
        let ghost all = self.inflight@.map_values(|k: CacheKey| k@.ident());
        let mut i: usize = 0;
        while i < self.inflight.len()
            invariant
                all == self.inflight@.map_values(|k: CacheKey| k@.ident()),
                i <= self.inflight@.len() == all.len(),
                forall|j: int| 0 <= j < i ==> #[trigger] all[j] != key@.ident(),
            decreases self.inflight@.len() - i,
        {
            assert(all[i as int] == self.inflight@[i as int]@.ident());
            if same_key(&self.inflight[i], key) {
                assert(all.contains(key@.ident()));
                return Some(i);
            }
            i = i + 1;
        }
        assert(!all.contains(key@.ident()));
        None
    }

    /// Answers from what is remembered, or says that the program is to be
    /// asked: the question then counts as being answered. One that is being
    /// answered already is not asked a second time.
    pub fn lookup(&mut self, cache: &mut CompletionCache, key: &CacheKey, token: &str) -> (r: Result<
        Option<Vec<Suggestion>>,
        ProviderErr,
    >)
        requires
            old(self).inv(),
            old(cache).inv(),
        ensures
            final(self).inv(),
            final(cache).inv(),
            final(self).configuration() == old(self).configuration(),
            final(cache).limit() == old(cache).limit(),
            final(cache).dir() == old(cache).dir(),
            match item_at(old(cache)@, key@.ident()) {
                Some(i) => {
                    &&& r matches Ok(Some(found)) && found@ == narrowed(
                        old(cache)@[i].suggestions,
                        token@,
                    )
                    &&& final(cache)@ == used(old(cache)@, i)
                    &&& final(self)@ == old(self)@
                },
                None => {
                    &&& final(cache)@ == old(cache)@
                    &&& if old(self)@.inflight.contains(key@.ident()) {
                        r matches Err(e) && e == ProviderErr::Cancelled && final(self)@ == old(self)@
                    } else {
                        &&& r matches Ok(None)
                        &&& final(self)@ == (Indexer {
                            inflight: old(self)@.inflight.insert(key@.ident()),
                            ..old(self)@
                        })
                    }
                },
            },
    {
        if let Some(found) = cache.get(key) {
            return Ok(Some(filter_suggestions(found, token)));
        }
        match self.find(key) {
            Some(_) => Err(ProviderErr::Cancelled),
            None => {
                let ghost before = self.inflight@;
                let copy: CacheKey = key.clone();
                self.inflight.push(copy);
                proof {
                    lemma_key_added(before, copy);
                }
                Ok(None)
            },
        }
    }

    /// Takes what came of asking a program, and answers: what was read is
    /// remembered, and so is that there was nothing to read.
    pub fn settle(
        &mut self,
        cache: &mut CompletionCache,
        key: CacheKey,
        reading: HelpReading,
        token: &str,
        now: u64,
        stored_at: Timestamp,
    ) -> (r: Result<Vec<Suggestion>, ProviderErr>)
        requires
            old(self).inv(),
            old(cache).inv(),
        ensures
            final(self).inv(),
            final(cache).inv(),
            final(self).configuration() == old(self).configuration(),
            final(cache).limit() == old(cache).limit(),
            final(cache).dir() == old(cache).dir(),
            final(self)@ == settled(
                old(self)@,
                key@.ident(),
                reading matches HelpReading::Offers(s) && s@.len() > 0,
                now,
            ),
            match reading {
                HelpReading::Offers(s) => if s@.len() > 0 {
                    &&& r matches Ok(found) && found@ == narrowed(s@, token@)
                    &&& final(cache)@ == stored(
                        old(cache)@,
                        Item { key: key@.ident(), suggestions: s@, stored_at },
                        old(cache).limit(),
                    )
                } else {
                    r matches Err(e) && e == ProviderErr::NotFound && final(cache)@ == old(cache)@
                },
                HelpReading::Timeout => r matches Err(e) && e == ProviderErr::Timeout && final(cache)@
                    == old(cache)@,
                HelpReading::Io(text) => r matches Err(e) && e == ProviderErr::Io(text) && final(cache)@
                    == old(cache)@,
            },
    {
        match self.find(&key) {
            Some(i) => {
                let ghost before = self.inflight@;
                let _ = self.inflight.remove(i);
                proof {
                    lemma_key_removed(before, i as int);
                }
            },
            None => {
                assert(self@.inflight.remove(key@.ident()) =~= self@.inflight);
            },
        }
        match reading {
            HelpReading::Offers(s) => {
                if s.len() == 0 {
                    self.negative.mark_negative(key.binary_path.as_slice(), now);
                    return Err(ProviderErr::NotFound);
                }
                let copy: Vec<Suggestion> = s.clone();
                assert(copy@ =~= s@);
                cache.put(key, copy, stored_at);
                Ok(filter_suggestions(s, token))
            },
            HelpReading::Timeout => {
                self.negative.mark_negative(key.binary_path.as_slice(), now);
                Err(ProviderErr::Timeout)
            },
            HelpReading::Io(text) => {
                self.negative.mark_negative(key.binary_path.as_slice(), now);
                Err(ProviderErr::Io(text))
            },
        }
    }

    /// Takes what a program put out, and answers.
    pub fn finish(
        &mut self,
        cache: &mut CompletionCache,
        key: CacheKey,
        outcome: HelpOutcome,
        token: &str,
        now: u64,
        stored_at: Timestamp,
    ) -> (r: Result<Vec<Suggestion>, ProviderErr>)
        requires
            old(self).inv(),
            old(cache).inv(),
        ensures
            final(self).inv(),
            final(cache).inv(),
            final(self).configuration() == old(self).configuration(),
            final(cache).limit() == old(cache).limit(),
            final(cache).dir() == old(cache).dir(),
            final(self)@ == settled(
                old(self)@,
                key@.ident(),
                outcome matches HelpOutcome::Output(t) && help_offers(t@).len() > 0,
                now,
            ),
            match outcome {
                HelpOutcome::Output(t) => if help_offers(t@).len() > 0 {
                    exists|s: Seq<Suggestion>|
                        {
                            &&& #[trigger] suggestion_views(s) == help_offers(t@)
                            &&& r matches Ok(found) && found@ == narrowed(s, token@)
                            &&& final(cache)@ == stored(
                                old(cache)@,
                                Item { key: key@.ident(), suggestions: s, stored_at },
                                old(cache).limit(),
                            )
                        }
                } else {
                    r matches Err(e) && e == ProviderErr::NotFound && final(cache)@ == old(cache)@
                },
                HelpOutcome::Timeout => r matches Err(e) && e == ProviderErr::Timeout && final(cache)@
                    == old(cache)@,
                HelpOutcome::Io(text) => r matches Err(e) && e == ProviderErr::Io(text) && final(cache)@
                    == old(cache)@,
            },
    {
        let reading: HelpReading = match outcome {
            HelpOutcome::Output(t) => {
                let s: Vec<Suggestion> = parse_help_suggestions(t.as_str());
                assert(suggestion_views(s@).len() == s@.len());
                HelpReading::Offers(s)
            },
            HelpOutcome::Timeout => HelpReading::Timeout,
            HelpOutcome::Io(text) => HelpReading::Io(text),
        };
        self.settle(cache, key, reading, token, now, stored_at)
    }
}

proof fn lemma_key_added(s: Seq<CacheKey>, k: CacheKey)
    requires
        distinct(s),
        !key_set(s).contains(k@.ident()),
    ensures
        distinct(s.push(k)),
        key_set(s.push(k)) == key_set(s).insert(k@.ident()),
{
    let f = |k: CacheKey| k@.ident();
    let old_keys = s.map_values(f);
    let new_keys = s.push(k).map_values(f);
    assert(new_keys =~= old_keys.push(k@.ident()));
    assert forall|i: int| 0 <= i < s.len() implies (#[trigger] s[i])@.ident() != k@.ident() by {
        assert(old_keys[i] == s[i]@.ident());
        assert(old_keys.contains(s[i]@.ident()));
    }
    assert forall|x: Ident| key_set(s.push(k)).contains(x) == key_set(s).insert(k@.ident()).contains(x) by {
        if old_keys.contains(x) {
            let i = choose|i: int| 0 <= i < old_keys.len() && old_keys[i] == x;
            assert(new_keys[i] == x);
        }
        if x == k@.ident() {
            assert(new_keys[s.len() as int] == x);
        }
        if new_keys.contains(x) {
            let i = choose|i: int| 0 <= i < new_keys.len() && new_keys[i] == x;
            if i < s.len() {
                assert(old_keys[i] == x);
            }
        }
    }
    assert(key_set(s.push(k)) =~= key_set(s).insert(k@.ident()));
}

proof fn lemma_key_removed(s: Seq<CacheKey>, i: int)
    requires
        distinct(s),
        0 <= i < s.len(),
    ensures
        distinct(s.remove(i)),
        key_set(s.remove(i)) == key_set(s).remove(s[i]@.ident()),
{
    let f = |k: CacheKey| k@.ident();
    let t = s.remove(i);
    let old_keys = s.map_values(f);
    let new_keys = t.map_values(f);
    let from = |k: int| if k < i {
        k
    } else {
        k + 1
    };
    assert forall|k: int| 0 <= k < t.len() implies #[trigger] t[k] == s[from(k)] by {}
    assert forall|a: int, b: int| 0 <= a < b < t.len() implies (#[trigger] t[a])@.ident() != (
    #[trigger] t[b])@.ident() by {
        assert(t[a] == s[from(a)] && t[b] == s[from(b)]);
    }
    assert forall|x: Ident| key_set(t).contains(x) == key_set(s).remove(s[i]@.ident()).contains(x) by {
        if new_keys.contains(x) {
            let k = choose|k: int| 0 <= k < new_keys.len() && new_keys[k] == x;
            let j = from(k);
            assert(t[k] == s[j]);
            assert(old_keys[j] == x);
            if j < i {
                assert(s[j]@.ident() != s[i]@.ident());
            } else {
                assert(s[i]@.ident() != s[j]@.ident());
            }
        }
        if old_keys.contains(x) && x != s[i]@.ident() {
            let j = choose|j: int| 0 <= j < old_keys.len() && old_keys[j] == x;
            let k = if j < i {
                j
            } else {
                j - 1
            };
            assert(t[k] == s[j]);
            assert(new_keys[k] == x);
        }
    }
    assert(key_set(t) =~= key_set(s).remove(s[i]@.ident()));
}

/// A question that is being answered is refused until its answer has come, and
/// can be asked again after it.
pub proof fn law_asked_once(x: Indexer, key: Ident, answered: bool, now: u64)
    ensures
        (Indexer { inflight: x.inflight.insert(key), ..x }).inflight.contains(key),
        !settled(x, key, answered, now).inflight.contains(key),
        forall|other: Ident|
            other != key ==> #[trigger] settled(x, key, answered, now).inflight.contains(other)
                == x.inflight.contains(other),
{
}

/// A program without an answer is not asked again while its time runs; one
/// with an answer is as free to be asked as before.
pub proof fn law_no_answer_is_remembered(x: Indexer, key: Ident, asked: u64, now: u64)
    requires
        asked <= now,
    ensures
        still_negative(settled(x, key, false, asked), key.path, now) == (now - asked
            < x.negative_ttl),
        still_negative(settled(x, key, true, asked), key.path, now) == still_negative(
            x,
            key.path,
            now,
        ),
{
}

} // verus!
