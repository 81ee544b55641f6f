//! Offers the names of resources to `kubectl get`.

use crate::completion::dynamic_hooks::{
    asked_tokens, collect_lines, ctx_tokens, external_cache_signature, hook_held, hook_step,
    no_answer, plain_offer, plain_suggestions, signature_of, signed, ExternalCache, Held, HookStep,
    Request, Stepped,
};
use crate::completion::{suggestion_views, QueryCtx, Suggestion};
use crate::seqs::kept;
use crate::text::{halves, lines, same_str, split_once, string_of, trim, trimmed, views};
use vstd::prelude::*;

verus! {

/// How long a list is used, in nanoseconds.
pub const RESOURCE_TTL: u64 = 5_000_000_000;

/// Offers the names of resources.
pub struct KubectlProvider {
    cache: ExternalCache,
}

/// The kind of resource that a question is about.
pub open spec fn resource_kind(tokens: Seq<Seq<char>>) -> Option<Seq<char>> {
    if tokens.len() > 2 && tokens[0] == "kubectl"@ && tokens[1] == "get"@ {
        Some(tokens[2])
    } else {
        None
    }
}

/// The name in a line: what stands behind its first slash.
pub open spec fn resource_name() -> spec_fn(Seq<char>) -> Option<Seq<char>> {
    |l: Seq<char>|
        if trimmed(l).len() == 0 {
            None
        } else {
            match halves(trimmed(l), '/') {
                Some((_, name)) => Some(name),
                None => Some(trimmed(l)),
            }
        }
}


impl View for KubectlProvider {
    type V = Held;

    closed spec fn view(&self) -> Held {
        self.cache@
    }
}

impl KubectlProvider {
    /// Its lists are used for as long as they should be.
    pub closed spec fn inv(&self) -> bool {
        self.cache.lasts() == RESOURCE_TTL
    }

    pub fn new() -> (r: Self)
        ensures
            r.inv(),
            r@ is None,
    {
        KubectlProvider { cache: ExternalCache::new(RESOURCE_TTL) }
    }

    pub fn name(&self) -> (r: &'static str)
        ensures
            r@ == "kubectl"@,
    {
        "kubectl"
    }

    /// What comes of a question.
    pub fn query(&mut self, ctx: &QueryCtx, now: u64) -> (r: HookStep)
        requires
            old(self).inv(),
        ensures
            final(self).inv(),
            match resource_kind(asked_tokens(*ctx)) {
                Some(kind) => {
                    let signature = signature_of("kubectl"@, ctx.working_dir@, kind);
                    &&& r@ == hook_step(
                        old(self)@,
                        RESOURCE_TTL,
                        now,
                        signature,
                        "kubectl"@,
                        seq!["get"@, kind, "-o"@, "name"@],
                        plain_offer(ctx.current_token@),
                    )
                    &&& final(self)@ == hook_held(old(self)@, RESOURCE_TTL, now, signature)
                },
                None => r@ == Stepped::Answer(seq![]) && final(self)@ == old(self)@,
            },
    {
        let kind: String = match kubectl_kind(ctx) {
            Some(k) => k,
            None => {
                return no_answer();
            },
        };
        let signature: String = external_cache_signature(ctx, "kubectl", kind.as_str());
        if let Some(values) = self.cache.ask(signature.as_str(), now) {
            return HookStep::Answer(name_suggestions(&values, ctx.current_token.as_str()));
        }
        let ghost k = kind@;
        let mut args: Vec<String> = Vec::new();
        args.push("get".to_owned());
        args.push(kind);
        args.push("-o".to_owned());
        args.push("name".to_owned());
        assert(views(args@) =~= seq!["get"@, k, "-o"@, "name"@]);
        HookStep::Run(Request { program: "kubectl".to_owned(), args, signature })
    }

    /// Takes what the program put out, or that it did not answer.
    pub fn take_output(&mut self, signature: &str, output: Option<&str>, now: u64)
        requires
            old(self).inv(),
        ensures
            final(self).inv(),
            final(self)@ == Some(
                (
                    signed(
                        signature@,
                        match output {
                            Some(t) => kept(lines(t@), resource_name()),
                            None => seq![],
                        },
                    ),
                    now,
                ),
            ),
    {
        let values: Option<Vec<String>> = match output {
            Some(t) => Some(parse_kubectl_names(t)),
            None => None,
        };
        self.cache.answer(signature, values, now);
    }
}

impl Default for KubectlProvider {
    fn default() -> (r: Self)
        ensures
            r.inv(),
            r@ is None,
    {
        KubectlProvider::new()
    }
}

/// The kind of resource that a question is about.
pub fn kubectl_kind(ctx: &QueryCtx) -> (r: Option<String>)
    ensures
        match r {
            Some(k) => resource_kind(asked_tokens(*ctx)) == Some(k@),
            None => resource_kind(asked_tokens(*ctx)) is None,
        },
{
    let tokens: Vec<String> = ctx_tokens(ctx);
    assert(views(tokens@).len() == tokens@.len());
    if tokens.len() <= 2 {
        return None;
    }
    assert(views(tokens@)[0] == tokens@[0]@ && views(tokens@)[1] == tokens@[1]@ && views(
        tokens@,
    )[2] == tokens@[2]@);
    if same_str(tokens[0].as_str(), "kubectl") && same_str(tokens[1].as_str(), "get") {
        Some(tokens[2].clone())
    } else {
        None
    }
}

/// The names that begin with a prefix.
pub fn name_suggestions(values: &Vec<String>, prefix: &str) -> (r: Vec<Suggestion>)
    ensures
        suggestion_views(r@) == kept(views(values@), plain_offer(prefix@)),
{
    plain_suggestions(values, prefix)
}

fn name_in(l: &[char]) -> (r: Option<String>)
    ensures
        resource_name()(l@) == crate::completion::parser::opt_view(r),
{
    let t: &[char] = trim(l);
    if t.len() == 0 {
        return None;
    }
    match split_once(t, '/') {
        Some((_, name)) => Some(string_of(name)),
        None => Some(string_of(t)),
    }
}

/// The names that are listed, without their kinds.
pub fn parse_kubectl_names(output: &str) -> (r: Vec<String>)
    ensures
        views(r@) == kept(lines(output@), resource_name()),
{
    collect_lines(output, name_in, Ghost(resource_name()))
}

} // verus!
