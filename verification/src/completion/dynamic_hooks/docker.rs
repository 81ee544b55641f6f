//! Offers the containers to `docker`.

use crate::completion::dynamic_hooks::{
    asked_tokens, ctx_tokens, dynamic_suggestion, external_cache_signature, first_is, hook_held,
    hook_step, is_first, is_later, later_is, no_answer, offer_each, signature_of, signed,
    trimmed_line, trimmed_lines, value_offer, ExternalCache, Held, HookStep, Request, Stepped,
};
use crate::completion::{suggestion_views, QueryCtx, Suggestion, SuggestionView};
use crate::seqs::kept;
use crate::text::{begins, chars_of, halves, lines, split_once, starts_with, string_of, views};
use vstd::prelude::*;

verus! {

/// How long a list is used, in nanoseconds.
pub const CONTAINER_TTL: u64 = 5_000_000_000;

/// Offers containers.
pub struct DockerProvider {
    cache: ExternalCache,
}

/// Whether a question is about containers.
pub open spec fn is_about_containers(tokens: Seq<Seq<char>>) -> bool {
    first_is(tokens, "docker"@) && (
        later_is(tokens, "run"@)
        || later_is(tokens, "exec"@)
        || later_is(tokens, "stop"@)
        || later_is(tokens, "logs"@)
        || later_is(tokens, "inspect"@)
    )
}

/// A container as it is offered: its name, with its image as description.
pub open spec fn container_offer(prefix: Seq<char>) -> spec_fn(Seq<char>) -> Option<SuggestionView> {
    |c: Seq<char>|
        {
            let (name, image) = match halves(c, '\t') {
                Some((name, image)) => (name, image),
                None => (c, seq![]),
            };
            if begins(name, prefix) {
                Some(value_offer(name, name, image))
            } else {
                None
            }
        }
}


impl View for DockerProvider {
    type V = Held;

    closed spec fn view(&self) -> Held {
        self.cache@
    }
}

impl DockerProvider {
    /// Its lists are used for as long as they should be.
    pub closed spec fn inv(&self) -> bool {
        self.cache.lasts() == CONTAINER_TTL
    }

    pub fn new() -> (r: Self)
        ensures
            r.inv(),
            r@ is None,
    {
        DockerProvider { cache: ExternalCache::new(CONTAINER_TTL) }
    }

    pub fn name(&self) -> (r: &'static str)
        ensures
            r@ == "docker"@,
    {
        "docker"
    }

    /// What comes of a question.
    pub fn query(&mut self, ctx: &QueryCtx, now: u64) -> (r: HookStep)
        requires
            old(self).inv(),
        ensures
            final(self).inv(),
            if is_about_containers(asked_tokens(*ctx)) {
                let signature = signature_of("docker"@, ctx.working_dir@, "containers"@);
                &&& r@ == hook_step(
                    old(self)@,
                    CONTAINER_TTL,
                    now,
                    signature,
                    "docker"@,
                    seq!["ps"@, "--format"@, "{{.Names}}\t{{.Image}}"@],
                    container_offer(ctx.current_token@),
                )
                &&& final(self)@ == hook_held(old(self)@, CONTAINER_TTL, now, signature)
            } else {
                r@ == Stepped::Answer(seq![]) && final(self)@ == old(self)@
            },
    {
        if !is_docker_query(ctx) {
            return no_answer();
        }
        let signature: String = external_cache_signature(ctx, "docker", "containers");
        if let Some(values) = self.cache.ask(signature.as_str(), now) {
            return HookStep::Answer(container_suggestions(&values, ctx.current_token.as_str()));
        }
        let mut args: Vec<String> = Vec::new();
        args.push("ps".to_owned());
        args.push("--format".to_owned());
        args.push("{{.Names}}\t{{.Image}}".to_owned());
        assert(views(args@) =~= seq!["ps"@, "--format"@, "{{.Names}}\t{{.Image}}"@]);
        HookStep::Run(Request { program: "docker".to_owned(), args, signature })
    }

    /// Takes what the program put out, or that it did not answer.
    pub fn take_output(&mut self, signature: &str, output: Option<&str>, now: u64)
        requires
            old(self).inv(),
        ensures
            final(self).inv(),
            final(self)@ == Some(
                (
                    signed(
                        signature@,
                        match output {
                            Some(t) => kept(lines(t@), trimmed_line()),
                            None => seq![],
                        },
                    ),
                    now,
                ),
            ),
    {
        let values: Option<Vec<String>> = match output {
            Some(t) => Some(parse_docker_containers(t)),
            None => None,
        };
        self.cache.answer(signature, values, now);
    }
}

impl Default for DockerProvider {
    fn default() -> (r: Self)
        ensures
            r.inv(),
            r@ is None,
    {
        DockerProvider::new()
    }
}

/// Whether a question is about containers.
pub fn is_docker_query(ctx: &QueryCtx) -> (b: bool)
    ensures
        b == is_about_containers(asked_tokens(*ctx)),
{
    let tokens: Vec<String> = ctx_tokens(ctx);
    is_first(&tokens, "docker") && (
        is_later(&tokens, "run")
        || is_later(&tokens, "exec")
        || is_later(&tokens, "stop")
        || is_later(&tokens, "logs")
        || is_later(&tokens, "inspect")
    )
}

fn container_one(c: &String, prefix: &str) -> (r: Option<Suggestion>)
    ensures
        container_offer(prefix@)(c@) == (match r {
            Some(s) => Some(s@),
            None => None,
        }),
{
    let chars: Vec<char> = chars_of(c.as_str());
    let start: Vec<char> = chars_of(prefix);
    match split_once(chars.as_slice(), '\t') {
        Some((name, image)) => {
            if starts_with(name, start.as_slice()) {
                Some(dynamic_suggestion(string_of(name), string_of(name), string_of(image)))
            } else {
                None
            }
        },
        None => {
            if starts_with(chars.as_slice(), start.as_slice()) {
                let none: String = String::new();
                assert(none@ =~= seq![]);
                Some(dynamic_suggestion(c.clone(), c.clone(), none))
            } else {
                None
            }
        },
    }
}

/// The containers whose names begin with a prefix.
pub fn container_suggestions(containers: &Vec<String>, prefix: &str) -> (r: Vec<Suggestion>)
    ensures
        suggestion_views(r@) == kept(views(containers@), container_offer(prefix@)),
{
    offer_each(containers, prefix, container_one, Ghost(container_offer(prefix@)))
}

/// The containers that are listed, each with its image.
pub fn parse_docker_containers(output: &str) -> (r: Vec<String>)
    ensures
        views(r@) == kept(lines(output@), trimmed_line()),
{
    trimmed_lines(output)
}

} // verus!
