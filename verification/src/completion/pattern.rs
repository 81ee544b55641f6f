//! Regular expressions of the `regex` crate, as functions of a pattern and a
//! text. What is not a pattern matches nothing.

use crate::completion::escapes::{ansi_pattern, unescaped};
use crate::completion::parser::opt_view;
use crate::text::views;
use regex::Regex;
use vstd::prelude::*;

verus! {

/// `regex::Regex`: a compiled pattern.
#[verifier::external_type_specification]
#[verifier::external_body]
pub struct ExRegex(regex::Regex);

/// `regex::Error`: that a text is not a pattern, and why.
#[verifier::external_type_specification]
#[verifier::external_body]
pub struct ExRegexError(regex::Error);

/// The text of a compiled pattern.
pub uninterp spec fn pattern_of(re: Regex) -> Seq<char>;

/// Whether a text is a pattern.
pub uninterp spec fn is_pattern(pattern: Seq<char>) -> bool;

/// Whether a pattern matches somewhere in a text.
pub uninterp spec fn regex_matches(pattern: Seq<char>, text: Seq<char>) -> bool;

/// The matches of a pattern in a text, in order.
pub uninterp spec fn regex_finds(pattern: Seq<char>, text: Seq<char>) -> Seq<Seq<char>>;

/// What a numbered group holds in each match of a pattern in a text, in order:
/// none where the group has no part in the match.
pub uninterp spec fn regex_groups(pattern: Seq<char>, text: Seq<char>, group: usize) -> Seq<
    Option<Seq<char>>,
>;

/// What a named group holds in the first match of a pattern in a text: none
/// without a match, an inner none where the group has no part in it.
pub uninterp spec fn regex_named(pattern: Seq<char>, text: Seq<char>, name: Seq<char>) -> Option<
    Option<Seq<char>>,
>;

/// A text with each match of a pattern replaced.
pub uninterp spec fn regex_replaced(pattern: Seq<char>, text: Seq<char>, with: Seq<char>) -> Seq<char>;

/// What owned texts hold.
pub open spec fn opt_texts(s: Seq<Option<String>>) -> Seq<Option<Seq<char>>> {
    s.map_values(|t: Option<String>| opt_view(t))
}

/// `Regex::new` of `regex`: compiles a text, or fails where it is not a
/// pattern. The syntax of patterns is not stated, except that the pattern of
/// escape sequences is one.
#[verifier::external_body]
fn compile(pattern: &str) -> (r: Result<Regex, regex::Error>)
    ensures
        r is Ok == is_pattern(pattern@),
        r matches Ok(re) ==> pattern_of(re) == pattern@,
        pattern@ == ansi_pattern() ==> r is Ok,
{
    Regex::new(pattern)
}

/// `Regex::is_match` of `regex`: a function of pattern and text.
#[verifier::external_body]
fn is_match(re: &Regex, text: &str) -> (r: bool)
    ensures
        r == regex_matches(pattern_of(*re), text@),
{
    re.is_match(text)
}

/// `Regex::find_iter` of `regex`, the text of each match: a function of pattern
/// and text.
#[verifier::external_body]
fn find_all(re: &Regex, text: &str) -> (r: Vec<String>)
    ensures
        views(r@) == regex_finds(pattern_of(*re), text@),
{
    re.find_iter(text).map(|m| m.as_str().to_string()).collect()
}

/// `Regex::captures_iter` of `regex`, the text of one group in each match: a
/// function of pattern, text and the number of the group.
#[verifier::external_body]
fn group_all(re: &Regex, text: &str, group: usize) -> (r: Vec<Option<String>>)
    ensures
        opt_texts(r@) == regex_groups(pattern_of(*re), text@, group),
{
    re.captures_iter(text).map(|c| c.get(group).map(|m| m.as_str().to_string())).collect()
}

/// `Regex::captures` of `regex`, the text of one named group: a function of
/// pattern, text and name.
#[verifier::external_body]
fn named_group(re: &Regex, text: &str, name: &str) -> (r: Option<Option<String>>)
    ensures
        regex_named(pattern_of(*re), text@, name@) == match r {
            Some(t) => Some(opt_view(t)),
            None => None,
        },
{
    re.captures(text).map(|c| c.name(name).map(|m| m.as_str().to_string()))
}

/// `Regex::replace_all` of `regex`: a function of pattern, text and
/// replacement. A text without a match stays as it is. What the pattern of escape
/// sequences matches is stated too, for an empty replacement: read from the left,
/// each sequence is taken out where it begins.
#[verifier::external_body]
fn replace_all(re: &Regex, text: &str, with: &str) -> (r: String)
    ensures
        r@ == regex_replaced(pattern_of(*re), text@, with@),
        !regex_matches(pattern_of(*re), text@) ==> r@ == text@,
        pattern_of(*re) == ansi_pattern() && with@.len() == 0 ==> r@ == unescaped(text@),
{
    re.replace_all(text, with).into_owned()
}

/// Whether a pattern matches somewhere in a text.
pub open spec fn matches_in(pattern: Seq<char>, text: Seq<char>) -> bool {
    is_pattern(pattern) && regex_matches(pattern, text)
}

/// The matches of a pattern in a text, in order.
pub open spec fn finds_in(pattern: Seq<char>, text: Seq<char>) -> Seq<Seq<char>> {
    if is_pattern(pattern) {
        regex_finds(pattern, text)
    } else {
        seq![]
    }
}

/// A text, or an empty one.
pub open spec fn or_empty(t: Option<Seq<char>>) -> Seq<char> {
    match t {
        Some(t) => t,
        None => seq![],
    }
}

/// What a numbered group holds in each match of a pattern in a text, in order:
/// an empty text where the group has no part in the match.
pub open spec fn groups_in(pattern: Seq<char>, text: Seq<char>, group: usize) -> Seq<Seq<char>> {
    if is_pattern(pattern) {
        regex_groups(pattern, text, group).map_values(|t: Option<Seq<char>>| or_empty(t))
    } else {
        seq![]
    }
}

/// What a named group holds in the first match of a pattern in a text: none
/// without a match, an inner none where the group has no part in it.
pub open spec fn named_in(pattern: Seq<char>, text: Seq<char>, name: Seq<char>) -> Option<
    Option<Seq<char>>,
> {
    if is_pattern(pattern) {
        regex_named(pattern, text, name)
    } else {
        None
    }
}

/// A text with each match of a pattern replaced.
pub open spec fn replaced_in(pattern: Seq<char>, text: Seq<char>, with: Seq<char>) -> Seq<char> {
    if is_pattern(pattern) {
        regex_replaced(pattern, text, with)
    } else {
        text
    }
}

/// A pattern to be held against many texts.
pub struct Pattern {
    re: Option<Regex>,
    source: Ghost<Seq<char>>,
}

impl View for Pattern {
    type V = Seq<char>;

    closed spec fn view(&self) -> Seq<char> {
        self.source@
    }
}

impl Pattern {
    #[verifier::type_invariant]
    spec fn compiled(&self) -> bool {
        match self.re {
            Some(re) => is_pattern(self.source@) && pattern_of(re) == self.source@,
            None => !is_pattern(self.source@),
        }
    }

    /// A text as a pattern.
    pub fn new(pattern: &str) -> (r: Self)
        ensures
            r@ == pattern@,
            pattern@ == ansi_pattern() ==> is_pattern(pattern@),
    {
        let re: Option<Regex> = match compile(pattern) {
            Ok(re) => Some(re),
            Err(_) => None,
        };
        Pattern { re, source: Ghost(pattern@) }
    }

    /// Whether the pattern matches somewhere in a text.
    pub fn matches(&self, text: &str) -> (r: bool)
        ensures
            r == matches_in(self@, text@),
    {
        proof {
            use_type_invariant(self);
        }
        match &self.re {
            Some(re) => is_match(re, text),
            None => false,
        }
    }

    /// The matches of the pattern in a text, in order.
    pub fn finds(&self, text: &str) -> (r: Vec<String>)
        ensures
            views(r@) == finds_in(self@, text@),
    {
        proof {
            use_type_invariant(self);
        }
        match &self.re {
            Some(re) => find_all(re, text),
            None => {
                let none: Vec<String> = Vec::new();
                assert(views(none@) =~= seq![]);
                none
            },
        }
    }

    /// What a numbered group holds in each match of the pattern in a text, in
    /// order: an empty text where the group has no part in the match.
    pub fn groups(&self, text: &str, group: usize) -> (r: Vec<String>)
        ensures
            views(r@) == groups_in(self@, text@, group),
    {
        proof {
            use_type_invariant(self);
        }
        let mut out: Vec<String> = Vec::new();
        match &self.re {
            Some(re) => {
                let held: Vec<Option<String>> = group_all(re, text, group);
                let ghost all = groups_in(self@, text@, group);
                assert(opt_texts(held@).len() == held@.len());
                let mut i: usize = 0;
                assert(views(out@) =~= all.take(0));
                while i < held.len()
                    invariant
                        all == opt_texts(held@).map_values(|t: Option<Seq<char>>| or_empty(t)),
                        i <= held@.len() == all.len(),
                        views(out@) == all.take(i as int),
                    decreases held@.len() - i,
                {
                    let t: String = match &held[i] {
                        Some(t) => t.clone(),
                        None => String::new(),
                    };
                    proof {
                        assert(opt_texts(held@)[i as int] == opt_view(held@[i as int]));
                        assert(t@ =~= all[i as int]);
                        assert(views(out@.push(t)) =~= views(out@).push(t@));
                        assert(all.take(i + 1) =~= all.take(i as int).push(all[i as int]));
                    }
                    out.push(t);
                    i = i + 1;
                }
                assert(all.take(all.len() as int) =~= all);
            },
            None => {
                assert(views(out@) =~= seq![]);
            },
        }
        out
    }

    /// What a named group holds in the first match of the pattern in a text:
    /// none without a match, an inner none where the group has no part in it.
    pub fn named(&self, text: &str, name: &str) -> (r: Option<Option<String>>)
        ensures
            named_in(self@, text@, name@) == match r {
                Some(t) => Some(opt_view(t)),
                None => None,
            },
    {
        proof {
            use_type_invariant(self);
        }
        match &self.re {
            Some(re) => named_group(re, text, name),
            None => None,
        }
    }

    /// A text with each match of the pattern replaced.
    pub fn replaced(&self, text: &str, with: &str) -> (r: String)
        ensures
            r@ == replaced_in(self@, text@, with@),
            !matches_in(self@, text@) ==> r@ == text@,
            self@ == ansi_pattern() && is_pattern(self@) && with@.len() == 0 ==> r@ == unescaped(text@),
    {
        proof {
            use_type_invariant(self);
        }
        match &self.re {
            Some(re) => replace_all(re, text, with),
            None => text.to_string(),
        }
    }
}

} // verus!
