//! Offers the changed files to `git add`.

use crate::completion::dynamic_hooks::{
    asked_tokens, collect_lines, ctx_tokens, external_cache_signature, first_is, hook_held,
    hook_step, is_first, is_later, later_is, no_answer, plain_offer, plain_suggestions,
    signature_of, signed, ExternalCache, Held, HookStep, Request, Stepped,
};
use crate::completion::{suggestion_views, QueryCtx, Suggestion};
use crate::seqs::kept;
use crate::text::{
    begins, chars_of, found_at, lines, occurs_at, starts_with, string_of, trim, trimmed, utf8_len,
    views,
};
use vstd::prelude::*;
use vstd::slice::slice_subrange;
use vstd::utf8::encode_scalar;

verus! {

/// How long a list is used, in nanoseconds.
pub const STATUS_TTL: u64 = 2_000_000_000;

/// Offers changed files.
pub struct GitStatusProvider {
    cache: ExternalCache,
}

/// Whether a question is about changed files.
pub open spec fn is_about_changes(tokens: Seq<Seq<char>>) -> bool {
    first_is(tokens, "git"@) && (later_is(tokens, "add"@))
}

/// What follows the first `n` bytes, where they end with a character.
pub open spec fn after_bytes(s: Seq<char>, n: int) -> Option<Seq<char>>
    decreases s.len(),
{
    if n == 0 {
        Some(s)
    } else if s.len() == 0 || encode_scalar(s[0] as u32).len() > n {
        None
    } else {
        after_bytes(s.skip(1), n - encode_scalar(s[0] as u32).len())
    }
}

/// The last position up to `i` at which `t` occurs.
pub open spec fn last_at(s: Seq<char>, t: Seq<char>, i: int) -> Option<int>
    decreases i + 1,
{
    if i < 0 {
        None
    } else if occurs_at(s, t, i) {
        Some(i)
    } else {
        last_at(s, t, i - 1)
    }
}

/// What follows the last arrow: the new name of a file that was renamed.
pub open spec fn behind_arrow(path: Seq<char>) -> Seq<char> {
    match last_at(path, " -> "@, path.len() as int) {
        Some(i) => path.skip(i + 4),
        None => path,
    }
}

/// A name without the quotes around it.
pub open spec fn unquoted(path: Seq<char>) -> Seq<char> {
    if path.len() >= 2 && path[0] == '"' && path.last() == '"' {
        path.subrange(1, path.len() - 1)
    } else {
        path
    }
}

/// The file in a line: what follows its two marks and a blank. A file that is
/// not tracked is none.
pub open spec fn changed_file() -> spec_fn(Seq<char>) -> Option<Seq<char>> {
    |l: Seq<char>|
        if begins(l, "??"@) {
            None
        } else {
            match after_bytes(l, 3) {
                Some(rest) => if trimmed(rest).len() == 0 {
                    None
                } else {
                    Some(unquoted(behind_arrow(trimmed(rest))))
                },
                None => None,
            }
        }
}


impl View for GitStatusProvider {
    type V = Held;

    closed spec fn view(&self) -> Held {
        self.cache@
    }
}

impl GitStatusProvider {
    /// Its lists are used for as long as they should be.
    pub closed spec fn inv(&self) -> bool {
        self.cache.lasts() == STATUS_TTL
    }

    pub fn new() -> (r: Self)
        ensures
            r.inv(),
            r@ is None,
    {
        GitStatusProvider { cache: ExternalCache::new(STATUS_TTL) }
    }

    pub fn name(&self) -> (r: &'static str)
        ensures
            r@ == "git_status"@,
    {
        "git_status"
    }

    /// What comes of a question.
    pub fn query(&mut self, ctx: &QueryCtx, now: u64) -> (r: HookStep)
        requires
            old(self).inv(),
        ensures
            final(self).inv(),
            if is_about_changes(asked_tokens(*ctx)) {
                let signature = signature_of("git_status"@, ctx.working_dir@, "paths"@);
                &&& r@ == hook_step(
                    old(self)@,
                    STATUS_TTL,
                    now,
                    signature,
                    "git"@,
                    seq!["status"@, "--porcelain"@, "--short"@],
                    plain_offer(ctx.current_token@),
                )
                &&& final(self)@ == hook_held(old(self)@, STATUS_TTL, now, signature)
            } else {
                r@ == Stepped::Answer(seq![]) && final(self)@ == old(self)@
            },
    {
        if !is_git_add_query(ctx) {
            return no_answer();
        }
        let signature: String = external_cache_signature(ctx, "git_status", "paths");
        if let Some(values) = self.cache.ask(signature.as_str(), now) {
            return HookStep::Answer(path_suggestions(&values, ctx.current_token.as_str()));
        }
        let mut args: Vec<String> = Vec::new();
        args.push("status".to_owned());
        args.push("--porcelain".to_owned());
        args.push("--short".to_owned());
        assert(views(args@) =~= seq!["status"@, "--porcelain"@, "--short"@]);
        HookStep::Run(Request { program: "git".to_owned(), args, signature })
    }

    /// Takes what the program put out, or that it did not answer.
    pub fn take_output(&mut self, signature: &str, output: Option<&str>, now: u64)
        requires
            old(self).inv(),
        ensures
            final(self).inv(),
            final(self)@ == Some(
                (
                    signed(
                        signature@,
                        match output {
                            Some(t) => kept(lines(t@), changed_file()),
                            None => seq![],
                        },
                    ),
                    now,
                ),
            ),
    {
        let values: Option<Vec<String>> = match output {
            Some(t) => Some(parse_git_status_paths(t)),
            None => None,
        };
        self.cache.answer(signature, values, now);
    }
}

impl Default for GitStatusProvider {
    fn default() -> (r: Self)
        ensures
            r.inv(),
            r@ is None,
    {
        GitStatusProvider::new()
    }
}

/// Whether a question is about changed files.
pub fn is_git_add_query(ctx: &QueryCtx) -> (b: bool)
    ensures
        b == is_about_changes(asked_tokens(*ctx)),
{
    let tokens: Vec<String> = ctx_tokens(ctx);
    is_first(&tokens, "git") && (is_later(&tokens, "add"))
}

/// The files that begin with a prefix.
pub fn path_suggestions(values: &Vec<String>, prefix: &str) -> (r: Vec<Suggestion>)
    ensures
        suggestion_views(r@) == kept(views(values@), plain_offer(prefix@)),
{
    plain_suggestions(values, prefix)
}

/// A name without the quotes around it.
pub fn strip_git_quotes<'a>(path: &'a [char]) -> (r: &'a [char])
    ensures
        r@ == unquoted(path@),
{
    let n: usize = path.len();
    if n >= 2 && path[0] == '"' && path[n - 1] == '"' {
        slice_subrange(path, 1, n - 1)
    } else {
        path
    }
}

fn new_name<'a>(path: &'a [char]) -> (r: &'a [char])
    ensures
        r@ == behind_arrow(path@),
{
    proof {
        reveal_strlit(" -> ");
        assert(" -> "@ =~= seq![' ', '-', '>', ' ']);
    }
    let arrow: Vec<char> = chars_of(" -> ");
    let n: usize = path.len();
    let mut i: usize = n;
    loop
        invariant
            arrow@ == " -> "@,
            arrow@.len() == 4,
            n == path@.len(),
            i <= n,
            last_at(path@, " -> "@, i as int) == last_at(path@, " -> "@, n as int),
        decreases i,
    {
        if found_at(path, arrow.as_slice(), i) {
            let r: &'a [char] = slice_subrange(path, i + 4, n);
            assert(r@ =~= path@.skip(i + 4));
            return r;
        }
        if i == 0 {
            assert(last_at(path@, " -> "@, -1) is None);
            return path;
        }
        i = i - 1;
    }
}

fn changed_in(l: &[char]) -> (r: Option<String>)
    ensures
        changed_file()(l@) == crate::completion::parser::opt_view(r),
{
    let untracked: Vec<char> = chars_of("??");
    if starts_with(l, untracked.as_slice()) {
        return None;
    }
    let mut k: usize = 0;
    let mut left: usize = 3;
    assert(l@.skip(0) =~= l@);
    while left > 0
        invariant
            k <= l@.len(),
            after_bytes(l@.skip(k as int), left as int) == after_bytes(l@, 3),
            !begins(l@, "??"@),
        decreases left,
    {
        if k >= l.len() {
            return None;
        }
        let w: usize = utf8_len(l[k]);
        assert(l@.skip(k as int)[0] == l@[k as int]);
        if w > left {
            return None;
        }
        assert(l@.skip(k as int).skip(1) =~= l@.skip(k + 1));
        k = k + 1;
        left = left - w;
    }
    let rest: &[char] = slice_subrange(l, k, l.len());
    assert(rest@ =~= l@.skip(k as int));
    let path: &[char] = trim(rest);
    if path.len() == 0 {
        return None;
    }
    Some(string_of(strip_git_quotes(new_name(path))))
}

/// The files that are listed as changed.
pub fn parse_git_status_paths(output: &str) -> (r: Vec<String>)
    ensures
        views(r@) == kept(lines(output@), changed_file()),
{
    collect_lines(output, changed_in, Ghost(changed_file()))
}

} // verus!
