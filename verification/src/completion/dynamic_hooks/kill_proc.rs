//! Offers the processes to `kill`.

use crate::completion::dynamic_hooks::{
    asked_tokens, collect_lines, ctx_tokens, dynamic_suggestion, external_cache_signature, first_is,
    hook_held, hook_step, is_first, no_answer, offer_each, signature_of, signed, value_offer,
    ExternalCache, Held, HookStep, Request, Stepped,
};
use crate::completion::{suggestion_views, QueryCtx, Suggestion, SuggestionView};
use crate::seqs::kept;
use crate::text::{
    begins, chars_of, halves, lines, slice_views, split_once, split_words, starts_with, string_of,
    views, words,
};
use vstd::prelude::*;
use vstd::string::StringExecFns;

verus! {

/// How long a list is used, in nanoseconds.
pub const PROCESS_TTL: u64 = 2_000_000_000;

/// Offers processes.
pub struct KillProvider {
    cache: ExternalCache,
}

/// Whether a question is about processes.
pub open spec fn is_about_processes(tokens: Seq<Seq<char>>) -> bool {
    first_is(tokens, "kill"@)
}

/// A process as it is offered: its number, shown with its name.
pub open spec fn process_offer(prefix: Seq<char>) -> spec_fn(Seq<char>) -> Option<SuggestionView> {
    |p: Seq<char>|
        match halves(p, '\t') {
            Some((pid, comm)) => if begins(pid, prefix) {
                Some(value_offer(pid, pid + "("@ + comm + ")"@, comm))
            } else {
                None
            },
            None => None,
        }
}

/// The process in a line: its number and its name, with a tab between them.
pub open spec fn process_in() -> spec_fn(Seq<char>) -> Option<Seq<char>> {
    |l: Seq<char>|
        if words(l).len() == 0 {
            None
        } else if words(l).len() == 1 {
            Some(words(l)[0] + seq!['\t'])
        } else {
            Some(words(l)[0] + seq!['\t'] + words(l)[1])
        }
}


impl View for KillProvider {
    type V = Held;

    closed spec fn view(&self) -> Held {
        self.cache@
    }
}

impl KillProvider {
    /// Its lists are used for as long as they should be.
    pub closed spec fn inv(&self) -> bool {
        self.cache.lasts() == PROCESS_TTL
    }

    pub fn new() -> (r: Self)
        ensures
            r.inv(),
            r@ is None,
    {
        KillProvider { cache: ExternalCache::new(PROCESS_TTL) }
    }

    pub fn name(&self) -> (r: &'static str)
        ensures
            r@ == "kill"@,
    {
        "kill"
    }

    /// What comes of a question.
    pub fn query(&mut self, ctx: &QueryCtx, now: u64) -> (r: HookStep)
        requires
            old(self).inv(),
        ensures
            final(self).inv(),
            if is_about_processes(asked_tokens(*ctx)) {
                let signature = signature_of("kill"@, ctx.working_dir@, "processes"@);
                &&& r@ == hook_step(
                    old(self)@,
                    PROCESS_TTL,
                    now,
                    signature,
                    "ps"@,
                    seq!["-eo"@, "pid,comm"@, "--no-headers"@],
                    process_offer(ctx.current_token@),
                )
                &&& final(self)@ == hook_held(old(self)@, PROCESS_TTL, now, signature)
            } else {
                r@ == Stepped::Answer(seq![]) && final(self)@ == old(self)@
            },
    {
        if !is_kill_query(ctx) {
            return no_answer();
        }
        let signature: String = external_cache_signature(ctx, "kill", "processes");
        if let Some(values) = self.cache.ask(signature.as_str(), now) {
            return HookStep::Answer(process_suggestions(&values, ctx.current_token.as_str()));
        }
        let mut args: Vec<String> = Vec::new();
        args.push("-eo".to_owned());
        args.push("pid,comm".to_owned());
        args.push("--no-headers".to_owned());
        assert(views(args@) =~= seq!["-eo"@, "pid,comm"@, "--no-headers"@]);
        HookStep::Run(Request { program: "ps".to_owned(), args, signature })
    }

    /// Takes what the program put out, or that it did not answer.
    pub fn take_output(&mut self, signature: &str, output: Option<&str>, now: u64)
        requires
            old(self).inv(),
        ensures
            final(self).inv(),
            final(self)@ == Some(
                (
                    signed(
                        signature@,
                        match output {
                            Some(t) => kept(lines(t@), process_in()),
                            None => seq![],
                        },
                    ),
                    now,
                ),
            ),
    {
        let values: Option<Vec<String>> = match output {
            Some(t) => Some(parse_processes(t)),
            None => None,
        };
        self.cache.answer(signature, values, now);
    }
}

impl Default for KillProvider {
    fn default() -> (r: Self)
        ensures
            r.inv(),
            r@ is None,
    {
        KillProvider::new()
    }
}

/// Whether a question is about processes.
pub fn is_kill_query(ctx: &QueryCtx) -> (b: bool)
    ensures
        b == is_about_processes(asked_tokens(*ctx)),
{
    let tokens: Vec<String> = ctx_tokens(ctx);
    is_first(&tokens, "kill")
}

fn process_one(p: &String, prefix: &str) -> (r: Option<Suggestion>)
    ensures
        process_offer(prefix@)(p@) == (match r {
            Some(s) => Some(s@),
            None => None,
        }),
{
    let chars: Vec<char> = chars_of(p.as_str());
    let start: Vec<char> = chars_of(prefix);
    match split_once(chars.as_slice(), '\t') {
        Some((pid, comm)) => {
            if starts_with(pid, start.as_slice()) {
                let name: String = string_of(comm);
                let mut display: String = string_of(pid);
                display.append("(");
                display.append(name.as_str());
                display.append(")");
                Some(dynamic_suggestion(string_of(pid), display, name))
            } else {
                None
            }
        },
        None => None,
    }
}

/// The processes whose numbers begin with a prefix.
pub fn process_suggestions(processes: &Vec<String>, prefix: &str) -> (r: Vec<Suggestion>)
    ensures
        suggestion_views(r@) == kept(views(processes@), process_offer(prefix@)),
{
    offer_each(processes, prefix, process_one, Ghost(process_offer(prefix@)))
}

fn process_line(l: &[char]) -> (r: Option<String>)
    ensures
        process_in()(l@) == crate::completion::parser::opt_view(r),
{
    let ws: Vec<&[char]> = split_words(l);
    assert(slice_views(ws@).len() == ws@.len());
    if ws.len() == 0 {
        return None;
    }
    assert(slice_views(ws@)[0] == ws@[0]@);
    let mut out: String = string_of(ws[0]);
    out.push('\t');
    assert(out@ =~= words(l@)[0] + seq!['\t']);
    if ws.len() > 1 {
        assert(slice_views(ws@)[1] == ws@[1]@);
        let comm: String = string_of(ws[1]);
        out.append(comm.as_str());
    }
    Some(out)
}

/// The processes that are listed.
pub fn parse_processes(output: &str) -> (r: Vec<String>)
    ensures
        views(r@) == kept(lines(output@), process_in()),
{
    collect_lines(output, process_line, Ghost(process_in()))
}

} // verus!
