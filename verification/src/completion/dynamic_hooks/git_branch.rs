//! Offers the branches to `git checkout` and `git switch`.

use crate::completion::dynamic_hooks::{
    asked_tokens, ctx_tokens, external_cache_signature, first_is, hook_held, hook_step, is_first,
    is_later, later_is, no_answer, plain_offer, plain_suggestions, signature_of, signed,
    trimmed_line, trimmed_lines, ExternalCache, Held, HookStep, Request, Stepped,
};
use crate::completion::{suggestion_views, QueryCtx, Suggestion};
use crate::seqs::kept;
use crate::text::{lines, views};
use vstd::prelude::*;

verus! {

/// How long a list is used, in nanoseconds.
pub const BRANCH_TTL: u64 = 5_000_000_000;

/// Offers the branches of a repository.
pub struct GitBranchProvider {
    cache: ExternalCache,
}

/// Whether a question is about branches.
pub open spec fn is_about_branches(tokens: Seq<Seq<char>>) -> bool {
    first_is(tokens, "git"@) && (later_is(tokens, "checkout"@) || later_is(tokens, "switch"@))
}


impl View for GitBranchProvider {
    type V = Held;

    closed spec fn view(&self) -> Held {
        self.cache@
    }
}

impl GitBranchProvider {
    /// Its lists are used for as long as they should be.
    pub closed spec fn inv(&self) -> bool {
        self.cache.lasts() == BRANCH_TTL
    }

    pub fn new() -> (r: Self)
        ensures
            r.inv(),
            r@ is None,
    {
        GitBranchProvider { cache: ExternalCache::new(BRANCH_TTL) }
    }

    pub fn name(&self) -> (r: &'static str)
        ensures
            r@ == "git_branch"@,
    {
        "git_branch"
    }

    /// What comes of a question.
    pub fn query(&mut self, ctx: &QueryCtx, now: u64) -> (r: HookStep)
        requires
            old(self).inv(),
        ensures
            final(self).inv(),
            if is_about_branches(asked_tokens(*ctx)) {
                let signature = signature_of("git_branch"@, ctx.working_dir@, "branches"@);
                &&& r@ == hook_step(
                    old(self)@,
                    BRANCH_TTL,
                    now,
                    signature,
                    "git"@,
                    seq!["branch"@, "--list"@, "--sort=-committerdate"@, "--format=%(refname:short)"@],
                    plain_offer(ctx.current_token@),
                )
                &&& final(self)@ == hook_held(old(self)@, BRANCH_TTL, now, signature)
            } else {
                r@ == Stepped::Answer(seq![]) && final(self)@ == old(self)@
            },
    {
        if !is_git_branch_query(ctx) {
            return no_answer();
        }
        let signature: String = external_cache_signature(ctx, "git_branch", "branches");
        if let Some(values) = self.cache.ask(signature.as_str(), now) {
            return HookStep::Answer(branch_suggestions(&values, ctx.current_token.as_str()));
        }
        let mut args: Vec<String> = Vec::new();
        args.push("branch".to_owned());
        args.push("--list".to_owned());
        args.push("--sort=-committerdate".to_owned());
        args.push("--format=%(refname:short)".to_owned());
        assert(views(args@) =~= seq![
            "branch"@,
            "--list"@,
            "--sort=-committerdate"@,
            "--format=%(refname:short)"@,
        ]);
        HookStep::Run(Request { program: "git".to_owned(), args, signature })
    }

    /// Takes what the program put out, or that it did not answer.
    pub fn take_output(&mut self, signature: &str, output: Option<&str>, now: u64)
        requires
            old(self).inv(),
        ensures
            final(self).inv(),
            final(self)@ == Some(
                (
                    signed(
                        signature@,
                        match output {
                            Some(t) => kept(lines(t@), trimmed_line()),
                            None => seq![],
                        },
                    ),
                    now,
                ),
            ),
    {
        let values: Option<Vec<String>> = match output {
            Some(t) => Some(parse_git_branches(t)),
            None => None,
        };
        self.cache.answer(signature, values, now);
    }
}

impl Default for GitBranchProvider {
    fn default() -> (r: Self)
        ensures
            r.inv(),
            r@ is None,
    {
        GitBranchProvider::new()
    }
}

/// Whether a question is about branches.
pub fn is_git_branch_query(ctx: &QueryCtx) -> (b: bool)
    ensures
        b == is_about_branches(asked_tokens(*ctx)),
{
    let tokens: Vec<String> = ctx_tokens(ctx);
    is_first(&tokens, "git") && (is_later(&tokens, "checkout") || is_later(&tokens, "switch"))
}

/// The branches that begin with a prefix.
pub fn branch_suggestions(values: &Vec<String>, prefix: &str) -> (r: Vec<Suggestion>)
    ensures
        suggestion_views(r@) == kept(views(values@), plain_offer(prefix@)),
{
    plain_suggestions(values, prefix)
}

/// The branches that are listed.
pub fn parse_git_branches(output: &str) -> (r: Vec<String>)
    ensures
        views(r@) == kept(lines(output@), trimmed_line()),
{
    trimmed_lines(output)
}

} // verus!
