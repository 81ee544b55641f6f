//! Offers the services to `systemctl`.

use crate::completion::dynamic_hooks::{
    asked_tokens, collect_lines, ctx_tokens, external_cache_signature, first_is, hook_held,
    hook_step, is_first, is_later, later_is, no_answer, plain_offer, plain_suggestions,
    signature_of, signed, ExternalCache, Held, HookStep, Request, Stepped,
};
use crate::completion::{suggestion_views, QueryCtx, Suggestion};
use crate::seqs::kept;
use crate::text::{lines, slice_views, split_words, string_of, views, words};
use vstd::prelude::*;

verus! {

/// How long a list is used, in nanoseconds.
pub const SERVICE_TTL: u64 = 30_000_000_000;

/// Offers services.
pub struct SystemctlProvider {
    cache: ExternalCache,
}

/// Whether a question is about services.
pub open spec fn is_about_services(tokens: Seq<Seq<char>>) -> bool {
    first_is(tokens, "systemctl"@) && (
        later_is(tokens, "start"@)
        || later_is(tokens, "stop"@)
        || later_is(tokens, "restart"@)
        || later_is(tokens, "status"@)
        || later_is(tokens, "enable"@)
        || later_is(tokens, "disable"@)
    )
}

/// The first word of a line.
pub open spec fn first_column() -> spec_fn(Seq<char>) -> Option<Seq<char>> {
    |l: Seq<char>|
        if words(l).len() > 0 {
            Some(words(l)[0])
        } else {
            None
        }
}


impl View for SystemctlProvider {
    type V = Held;

    closed spec fn view(&self) -> Held {
        self.cache@
    }
}

impl SystemctlProvider {
    /// Its lists are used for as long as they should be.
    pub closed spec fn inv(&self) -> bool {
        self.cache.lasts() == SERVICE_TTL
    }

    pub fn new() -> (r: Self)
        ensures
            r.inv(),
            r@ is None,
    {
        SystemctlProvider { cache: ExternalCache::new(SERVICE_TTL) }
    }

    pub fn name(&self) -> (r: &'static str)
        ensures
            r@ == "systemctl"@,
    {
        "systemctl"
    }

    /// What comes of a question.
    pub fn query(&mut self, ctx: &QueryCtx, now: u64) -> (r: HookStep)
        requires
            old(self).inv(),
        ensures
            final(self).inv(),
            if is_about_services(asked_tokens(*ctx)) {
                let signature = signature_of("systemctl"@, ctx.working_dir@, "services"@);
                &&& r@ == hook_step(
                    old(self)@,
                    SERVICE_TTL,
                    now,
                    signature,
                    "systemctl"@,
                    seq!["list-units"@, "--no-legend"@, "--no-pager"@, "--type=service"@],
                    plain_offer(ctx.current_token@),
                )
                &&& final(self)@ == hook_held(old(self)@, SERVICE_TTL, now, signature)
            } else {
                r@ == Stepped::Answer(seq![]) && final(self)@ == old(self)@
            },
    {
        if !is_systemctl_query(ctx) {
            return no_answer();
        }
        let signature: String = external_cache_signature(ctx, "systemctl", "services");
        if let Some(values) = self.cache.ask(signature.as_str(), now) {
            return HookStep::Answer(service_suggestions(&values, ctx.current_token.as_str()));
        }
        let mut args: Vec<String> = Vec::new();
        args.push("list-units".to_owned());
        args.push("--no-legend".to_owned());
        args.push("--no-pager".to_owned());
        args.push("--type=service".to_owned());
        assert(views(args@) =~= seq!["list-units"@, "--no-legend"@, "--no-pager"@, "--type=service"@]);
        HookStep::Run(Request { program: "systemctl".to_owned(), args, signature })
    }

    /// Takes what the program put out, or that it did not answer.
    pub fn take_output(&mut self, signature: &str, output: Option<&str>, now: u64)
        requires
            old(self).inv(),
        ensures
            final(self).inv(),
            final(self)@ == Some(
                (
                    signed(
                        signature@,
                        match output {
                            Some(t) => kept(lines(t@), first_column()),
                            None => seq![],
                        },
                    ),
                    now,
                ),
            ),
    {
        let values: Option<Vec<String>> = match output {
            Some(t) => Some(parse_services(t)),
            None => None,
        };
        self.cache.answer(signature, values, now);
    }
}

impl Default for SystemctlProvider {
    fn default() -> (r: Self)
        ensures
            r.inv(),
            r@ is None,
    {
        SystemctlProvider::new()
    }
}

/// Whether a question is about services.
pub fn is_systemctl_query(ctx: &QueryCtx) -> (b: bool)
    ensures
        b == is_about_services(asked_tokens(*ctx)),
{
    let tokens: Vec<String> = ctx_tokens(ctx);
    is_first(&tokens, "systemctl") && (
        is_later(&tokens, "start")
        || is_later(&tokens, "stop")
        || is_later(&tokens, "restart")
        || is_later(&tokens, "status")
        || is_later(&tokens, "enable")
        || is_later(&tokens, "disable")
    )
}

/// The services that begin with a prefix.
pub fn service_suggestions(values: &Vec<String>, prefix: &str) -> (r: Vec<Suggestion>)
    ensures
        suggestion_views(r@) == kept(views(values@), plain_offer(prefix@)),
{
    plain_suggestions(values, prefix)
}

fn first_word(l: &[char]) -> (r: Option<String>)
    ensures
        first_column()(l@) == crate::completion::parser::opt_view(r),
{
    let ws: Vec<&[char]> = split_words(l);
    assert(slice_views(ws@).len() == ws@.len());
    if ws.len() > 0 {
        assert(slice_views(ws@)[0] == ws@[0]@);
        Some(string_of(ws[0]))
    } else {
        None
    }
}

/// The services that are listed: the first column.
pub fn parse_services(output: &str) -> (r: Vec<String>)
    ensures
        views(r@) == kept(lines(output@), first_column()),
{
    collect_lines(output, first_word, Ghost(first_column()))
}

} // verus!
