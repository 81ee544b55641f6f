//! Offers the packages to `pacman -S` and `yay -S`.

use crate::completion::dynamic_hooks::{
    asked_tokens, ctx_tokens, external_cache_signature, first_is, hook_held, hook_step, is_first,
    is_later, later_is, no_answer, plain_offer, plain_suggestions, signature_of, signed,
    trimmed_line, trimmed_lines, ExternalCache, Held, HookStep, Request, Stepped,
};
use crate::completion::{suggestion_views, QueryCtx, Suggestion};
use crate::seqs::kept;
use crate::text::{lines, views};
use vstd::prelude::*;

verus! {

/// How long a list is used, in nanoseconds.
pub const PACKAGE_TTL: u64 = 600_000_000_000;

/// Offers packages.
pub struct PacmanProvider {
    cache: ExternalCache,
}

/// The program that a question about packages is for.
pub open spec fn package_program(tokens: Seq<Seq<char>>) -> Option<Seq<char>> {
    if (first_is(tokens, "pacman"@) || first_is(tokens, "yay"@)) && later_is(tokens, "-S"@) {
        Some(tokens[0])
    } else {
        None
    }
}


impl View for PacmanProvider {
    type V = Held;

    closed spec fn view(&self) -> Held {
        self.cache@
    }
}

impl PacmanProvider {
    /// Its lists are used for as long as they should be.
    pub closed spec fn inv(&self) -> bool {
        self.cache.lasts() == PACKAGE_TTL
    }

    pub fn new() -> (r: Self)
        ensures
            r.inv(),
            r@ is None,
    {
        PacmanProvider { cache: ExternalCache::new(PACKAGE_TTL) }
    }

    pub fn name(&self) -> (r: &'static str)
        ensures
            r@ == "pacman"@,
    {
        "pacman"
    }

    /// What comes of a question.
    pub fn query(&mut self, ctx: &QueryCtx, now: u64) -> (r: HookStep)
        requires
            old(self).inv(),
        ensures
            final(self).inv(),
            match package_program(asked_tokens(*ctx)) {
                Some(program) => {
                    let signature = signature_of("pacman"@, ctx.working_dir@, program);
                    &&& r@ == hook_step(
                        old(self)@,
                        PACKAGE_TTL,
                        now,
                        signature,
                        program,
                        seq!["-Slq"@],
                        plain_offer(ctx.current_token@),
                    )
                    &&& final(self)@ == hook_held(old(self)@, PACKAGE_TTL, now, signature)
                },
                None => r@ == Stepped::Answer(seq![]) && final(self)@ == old(self)@,
            },
    {
        let program: String = match pacman_program(ctx) {
            Some(p) => p,
            None => {
                return no_answer();
            },
        };
        let signature: String = external_cache_signature(ctx, "pacman", program.as_str());
        if let Some(values) = self.cache.ask(signature.as_str(), now) {
            return HookStep::Answer(package_suggestions(&values, ctx.current_token.as_str()));
        }
        let mut args: Vec<String> = Vec::new();
        args.push("-Slq".to_owned());
        assert(views(args@) =~= seq!["-Slq"@]);
        HookStep::Run(Request { program, args, signature })
    }

    /// Takes what the program put out, or that it did not answer.
    pub fn take_output(&mut self, signature: &str, output: Option<&str>, now: u64)
        requires
            old(self).inv(),
        ensures
            final(self).inv(),
            final(self)@ == Some(
                (
                    signed(
                        signature@,
                        match output {
                            Some(t) => kept(lines(t@), trimmed_line()),
                            None => seq![],
                        },
                    ),
                    now,
                ),
            ),
    {
        let values: Option<Vec<String>> = match output {
            Some(t) => Some(parse_packages(t)),
            None => None,
        };
        self.cache.answer(signature, values, now);
    }
}

impl Default for PacmanProvider {
    fn default() -> (r: Self)
        ensures
            r.inv(),
            r@ is None,
    {
        PacmanProvider::new()
    }
}

/// The program that a question about packages is for.
pub fn pacman_program(ctx: &QueryCtx) -> (r: Option<String>)
    ensures
        match r {
            Some(p) => package_program(asked_tokens(*ctx)) == Some(p@),
            None => package_program(asked_tokens(*ctx)) is None,
        },
{
    let tokens: Vec<String> = ctx_tokens(ctx);
    if (is_first(&tokens, "pacman") || is_first(&tokens, "yay")) && is_later(&tokens, "-S") {
        assert(views(tokens@)[0] == tokens@[0]@);
        Some(tokens[0].clone())
    } else {
        None
    }
}

/// The packages that begin with a prefix.
pub fn package_suggestions(values: &Vec<String>, prefix: &str) -> (r: Vec<Suggestion>)
    ensures
        suggestion_views(r@) == kept(views(values@), plain_offer(prefix@)),
{
    plain_suggestions(values, prefix)
}

/// The packages that are listed.
pub fn parse_packages(output: &str) -> (r: Vec<String>)
    ensures
        views(r@) == kept(lines(output@), trimmed_line()),
{
    trimmed_lines(output)
}

} // verus!
