//! Offers the hosts to `ssh`.

use crate::completion::dynamic_hooks::{plain_offer, plain_suggestions, ExternalCache, Held};
use crate::clock::elapsed;
use crate::completion::{suggestion_views, QueryCtx, Suggestion};
use crate::seqs::{kept, lemma_kept_take};
use crate::text::{
    chars_of, halves, has_char, lines, lowered, same_ignoring_case, same_str, slice_views,
    split_lines, split_once, split_words, string_of, views, words,
};
use vstd::prelude::*;

verus! {

/// How long the hosts are used, in nanoseconds.
pub const CACHE_TTL: u64 = 60_000_000_000;

/// A line without its comment.
pub open spec fn before_comment(line: Seq<char>) -> Seq<char> {
    match halves(line, '#') {
        Some((body, _)) => body,
        None => line,
    }
}

/// A host that is no pattern.
pub open spec fn single_host() -> spec_fn(Seq<char>) -> Option<Seq<char>> {
    |h: Seq<char>|
        if h.contains('?') || h.contains('*') {
            None
        } else {
            Some(h)
        }
}

/// The hosts that a line names.
pub open spec fn hosts_in(line: Seq<char>) -> Seq<Seq<char>> {
    let ws = words(before_comment(line));
    if ws.len() > 0 && lowered(ws[0]) == lowered("Host"@) {
        kept(ws.skip(1), single_host())
    } else {
        seq![]
    }
}

/// The hosts that the first `n` lines name.
pub open spec fn hosts_of(ls: Seq<Seq<char>>, n: int) -> Seq<Seq<char>>
    decreases n,
{
    if n <= 0 {
        seq![]
    } else {
        hosts_of(ls, n - 1) + hosts_in(ls[n - 1])
    }
}

/// The hosts that a configuration names.
pub open spec fn configured(config: Seq<char>) -> Seq<Seq<char>> {
    hosts_of(lines(config), lines(config).len() as int)
}

/// Whether a host is a pattern.
pub fn is_wildcard_host(host: &[char]) -> (b: bool)
    ensures
        b == (host@.contains('?') || host@.contains('*')),
{
    has_char(host, '?') || has_char(host, '*')
}

/// Appends the hosts that a line names.
fn add_hosts(hosts: &mut Vec<String>, line: &[char])
    ensures
        views(final(hosts)@) == views(old(hosts)@) + hosts_in(line@),
{
    let body: &[char] = match split_once(line, '#') {
        Some((body, _)) => body,
        None => line,
    };
    let ws: Vec<&[char]> = split_words(body);
    let ghost all = words(before_comment(line@));
    assert(slice_views(ws@) == all);
    assert(slice_views(ws@).len() == ws@.len());
    let keyword: Vec<char> = chars_of("Host");
    if ws.len() > 0 {
        assert(all[0] == ws@[0]@);
    }
    if ws.len() == 0 || !same_ignoring_case(ws[0], keyword.as_slice()) {
        assert(views(hosts@) =~= views(old(hosts)@) + seq![]);
        return;
    }
    let ghost rest = all.skip(1);
    let ghost start = views(hosts@);
    let mut i: usize = 1;
    assert(rest.take(0) =~= seq![]);
    assert(views(hosts@) =~= start + kept(rest.take(0), single_host()));
    while i < ws.len()
        invariant
            slice_views(ws@) == all,
            rest == all.skip(1),
            1 <= i <= ws@.len() == all.len(),
            views(hosts@) == start + kept(rest.take(i - 1), single_host()),
        decreases ws@.len() - i,
    {
        assert(all[i as int] == ws@[i as int]@);
        assert(rest[i - 1] == all[i as int]);
        proof {
            lemma_kept_take(rest, single_host(), i - 1);
        }
        if !is_wildcard_host(ws[i]) {
            let ghost before = views(hosts@);
            hosts.push(string_of(ws[i]));
            assert(views(hosts@) =~= before.push(ws@[i as int]@));
            assert(views(hosts@) =~= start + kept(rest.take(i - 1), single_host()).push(
                ws@[i as int]@,
            ));
        }
        i = i + 1;
    }
    assert(rest.take(i - 1) =~= rest);
}

/// The hosts that a configuration names.
pub fn parse_hosts(config: &str) -> (r: Vec<String>)
    ensures
        views(r@) == configured(config@),
{
    let chars: Vec<char> = chars_of(config);
    let ls: Vec<&[char]> = split_lines(chars.as_slice());
    let ghost all = lines(config@);
    assert(slice_views(ls@).len() == ls@.len());
    let mut out: Vec<String> = Vec::new();
    let mut i: usize = 0;
    assert(views(out@) =~= hosts_of(all, 0));
    while i < ls.len()
        invariant
            slice_views(ls@) == all,
            i <= ls@.len() == all.len(),
            views(out@) == hosts_of(all, i as int),
        decreases ls@.len() - i,
    {
        assert(all[i as int] == ls@[i as int]@);
        add_hosts(&mut out, ls[i]);
        i = i + 1;
    }
    out
}

/// No host is a pattern.
pub proof fn law_no_patterns(config: Seq<char>)
    ensures
        forall|i: int|
            0 <= i < configured(config).len() ==> !(#[trigger] configured(config)[i]).contains('?')
                && !configured(config)[i].contains('*'),
{
    lemma_no_patterns(lines(config), lines(config).len() as int);
}

proof fn lemma_no_patterns(ls: Seq<Seq<char>>, n: int)
    requires
        n <= ls.len(),
    ensures
        forall|i: int|
            0 <= i < hosts_of(ls, n).len() ==> single_host()(#[trigger] hosts_of(ls, n)[i]) is Some,
    decreases n,
{
    if n > 0 {
        lemma_no_patterns(ls, n - 1);
        let ws = words(before_comment(ls[n - 1])).skip(1);
        lemma_kept_hosts(ws);
        let a = hosts_of(ls, n - 1);
        let b = hosts_in(ls[n - 1]);
        assert forall|i: int| 0 <= i < (a + b).len() implies single_host()(
            #[trigger] (a + b)[i],
        ) is Some by {
            if i < a.len() {
                assert((a + b)[i] == a[i]);
            } else {
                assert((a + b)[i] == b[i - a.len()]);
            }
        }
    }
}

proof fn lemma_kept_hosts(ws: Seq<Seq<char>>)
    ensures
        forall|i: int|
            0 <= i < kept(ws, single_host()).len() ==> single_host()(
                #[trigger] kept(ws, single_host())[i],
            ) is Some,
    decreases ws.len(),
{
    if ws.len() > 0 {
        lemma_kept_hosts(ws.drop_last());
    }
}

/// What comes of a question.
#[derive(Debug)]
pub enum SshStep {
    Answer(Vec<Suggestion>),
    /// The configuration is to be read.
    Read,
}

/// Offers the hosts of a configuration.
pub struct SshProvider {
    config_path: String,
    cache: ExternalCache,
}

impl View for SshProvider {
    type V = Held;

    /// The hosts, and when they were read.
    closed spec fn view(&self) -> Held {
        self.cache@
    }
}

impl SshProvider {
    pub closed spec fn inv(&self) -> bool {
        self.cache.lasts() == CACHE_TTL
    }

    /// Where the configuration is.
    pub closed spec fn path(&self) -> Seq<char> {
        self.config_path@
    }

    pub fn new(config_path: String) -> (r: Self)
        ensures
            r.inv(),
            r@ is None,
            r.path() == config_path@,
    {
        SshProvider { config_path, cache: ExternalCache::new(CACHE_TTL) }
    }

    pub fn config_path(&self) -> (r: &String)
        ensures
            r@ == self.path(),
    {
        &self.config_path
    }

    pub fn name(&self) -> (r: &'static str)
        ensures
            r@ == "ssh"@,
    {
        "ssh"
    }

    /// What comes of a question.
    pub fn query(&self, ctx: &QueryCtx, now: u64) -> (r: SshStep)
        requires
            self.inv(),
        ensures
            if ctx.command@ != "ssh"@ {
                r matches SshStep::Answer(s) && s@.len() == 0
            } else {
                match self@ {
                    Some((hosts, at)) if elapsed(at, now) < CACHE_TTL => r matches SshStep::Answer(s)
                        && suggestion_views(s@) == kept(hosts, plain_offer(ctx.current_token@)),
                    _ => r is Read,
                }
            },
    {
        if !same_str(ctx.command.as_str(), "ssh") {
            return SshStep::Answer(Vec::new());
        }
        match self.cache.cached_values(now) {
            Some(hosts) => SshStep::Answer(
                plain_suggestions(&hosts, ctx.current_token.as_str()),
            ),
            None => SshStep::Read,
        }
    }

    /// Takes the configuration, and answers.
    pub fn take_config(&mut self, config: &str, ctx: &QueryCtx, now: u64) -> (r: Vec<Suggestion>)
        requires
            old(self).inv(),
        ensures
            final(self).inv(),
            final(self).path() == old(self).path(),
            final(self)@ == Some((configured(config@), now)),
            suggestion_views(r@) == kept(configured(config@), plain_offer(ctx.current_token@)),
    {
        let hosts: Vec<String> = parse_hosts(config);
        let r: Vec<Suggestion> = plain_suggestions(&hosts, ctx.current_token.as_str());
        self.cache.replace(hosts, now);
        r
    }
}

} // verus!
