//! Reads the help text of a program: its flags, subcommands and arguments.

use crate::completion::escapes::{
    is_proper, law_escapes_come_out, shown, unescaped, written, Bit,
};
use crate::completion::pattern::{finds_in, groups_in, matches_in, Pattern};
use crate::completion::{suggestion_views, Suggestion, SuggestionGroup, SuggestionView};
use crate::seqs::{first_where, lemma_first_where};
use crate::text::{
    at_any, begins, chars_of, contains, ends, ends_with, fields, halves, has_char, is_char,
    is_white_space, lines, lowered, occurs, one_of, same, same_ignoring_case, skip_back, skip_front,
    slice_views, split_fields, split_lines, split_once, split_words, starts_with, string_of, strip,
    strip_cut, to_lower, trim, trimmed, views, white, white_space, words, Cut,
};
use vstd::prelude::*;
use vstd::slice::slice_subrange;
use vstd::string::StringExecFns;

verus! {

/// The style of a help text.
#[derive(Debug, Clone, Copy, PartialEq, Eq, Structural)]
pub enum HelpFormat {
    Clap,
    Argparse,
    Docopt,
    Unknown,
}

/// What a help text tells.
#[derive(Debug, Clone, PartialEq, Eq)]
pub struct ParsedHelp {
    pub format: HelpFormat,
    pub flags: Vec<FlagSpec>,
    pub subcommands: Vec<SubcommandSpec>,
    pub positional_args: Vec<ArgSpec>,
}

#[derive(Debug, Clone, PartialEq, Eq)]
pub struct FlagSpec {
    pub short: Option<String>,
    pub long: Option<String>,
    pub takes_value: bool,
    pub value_name: Option<String>,
    pub description: String,
}

#[derive(Debug, Clone, PartialEq, Eq)]
pub struct SubcommandSpec {
    pub name: String,
    pub description: String,
}

#[derive(Debug, Clone, PartialEq, Eq)]
pub struct ArgSpec {
    pub name: String,
    pub description: String,
    pub required: bool,
}

/// What is wrong with a description of a help text.
#[derive(Debug, Clone, PartialEq, Eq)]
pub struct ParseErr {
    pub message: String,
}

/// A flag as plain values.
#[verifier::ext_equal]
pub ghost struct Flag {
    pub short: Option<Seq<char>>,
    pub long: Option<Seq<char>>,
    pub takes_value: bool,
    pub value_name: Option<Seq<char>>,
    pub description: Seq<char>,
}

/// A subcommand as plain values.
#[verifier::ext_equal]
pub ghost struct Sub {
    pub name: Seq<char>,
    pub description: Seq<char>,
}

/// An argument as plain values.
#[verifier::ext_equal]
pub ghost struct Arg {
    pub name: Seq<char>,
    pub description: Seq<char>,
    pub required: bool,
}

/// What a help text tells, as plain values.
#[verifier::ext_equal]
pub ghost struct Help {
    pub format: HelpFormat,
    pub flags: Seq<Flag>,
    pub subs: Seq<Sub>,
    pub args: Seq<Arg>,
}

/// The view of an optional string.
pub open spec fn opt_view(s: Option<String>) -> Option<Seq<char>> {
    match s {
        Some(s) => Some(s@),
        None => None,
    }
}

impl View for FlagSpec {
    type V = Flag;

    open spec fn view(&self) -> Flag {
        Flag {
            short: opt_view(self.short),
            long: opt_view(self.long),
            takes_value: self.takes_value,
            value_name: opt_view(self.value_name),
            description: self.description@,
        }
    }
}

impl View for SubcommandSpec {
    type V = Sub;

    open spec fn view(&self) -> Sub {
        Sub { name: self.name@, description: self.description@ }
    }
}

impl View for ArgSpec {
    type V = Arg;

    open spec fn view(&self) -> Arg {
        Arg { name: self.name@, description: self.description@, required: self.required }
    }
}

pub open spec fn flag_views(s: Seq<FlagSpec>) -> Seq<Flag> {
    s.map_values(|f: FlagSpec| f@)
}

pub open spec fn sub_views(s: Seq<SubcommandSpec>) -> Seq<Sub> {
    s.map_values(|c: SubcommandSpec| c@)
}

pub open spec fn arg_views(s: Seq<ArgSpec>) -> Seq<Arg> {
    s.map_values(|a: ArgSpec| a@)
}

impl View for ParsedHelp {
    type V = Help;

    open spec fn view(&self) -> Help {
        Help {
            format: self.format,
            flags: flag_views(self.flags@),
            subs: sub_views(self.subcommands@),
            args: arg_views(self.positional_args@),
        }
    }
}

/// The ASCII white space.
pub open spec fn ascii_white(c: char) -> bool {
    c == ' ' || c == '\t' || c == '\n' || c == '\r' || c == '\u{c}'
}

/// The first position from `i` on at which two white spaces stand; the length
/// where there is none.
pub open spec fn gap(s: Seq<char>, i: int) -> int
    decreases s.len() - i,
{
    if i + 1 >= s.len() {
        s.len() as int
    } else if ascii_white(s[i]) && ascii_white(s[i + 1]) {
        i
    } else {
        gap(s, i + 1)
    }
}

/// What stands in front of a gap, and the description behind it.
pub open spec fn split_gap(s: Seq<char>) -> (Seq<char>, Seq<char>) {
    let k = gap(s, 0);
    if k < s.len() {
        (trimmed(s.take(k)), trimmed(s.skip(k)))
    } else {
        (s, seq![])
    }
}

/// `s` without as many dots in threes as it ends in.
pub open spec fn without_dots(s: Seq<char>) -> Seq<char>
    decreases s.len(),
{
    if s.len() >= 3 && s[s.len() - 1] == '.' && s[s.len() - 2] == '.' && s[s.len() - 3] == '.' {
        without_dots(s.take(s.len() - 3))
    } else {
        s
    }
}

/// White space or a comma.
pub open spec fn token_cut() -> spec_fn(char) -> bool {
    |c: char| is_white_space(c) || seq![','].contains(c)
}

/// Brackets.
pub open spec fn brackets() -> spec_fn(char) -> bool {
    one_of(seq!['[', ']', '(', ')'])
}

/// The pieces without brackets that are not empty and not a bar.
pub open spec fn unbracketed(ps: Seq<Seq<char>>) -> Seq<Seq<char>>
    decreases ps.len(),
{
    if ps.len() == 0 {
        seq![]
    } else {
        let t = strip(ps.last(), brackets());
        let front = unbracketed(ps.drop_last());
        if t.len() == 0 || t == seq!['|'] {
            front
        } else {
            front.push(t)
        }
    }
}

/// The words of a flag's line: between white space and commas, without
/// brackets.
pub open spec fn flag_words(s: Seq<char>) -> Seq<Seq<char>> {
    unbracketed(fields(s, token_cut()))
}

/// Whether `t` is written as a short flag: a dash and something else than a
/// dash.
pub open spec fn is_short(t: Seq<char>) -> bool {
    t.len() >= 2 && t[0] == '-' && t[1] != '-'
}

/// Whether `t` is written as a long flag.
pub open spec fn is_long(t: Seq<char>) -> bool {
    begins(t, seq!['-', '-'])
}

/// A value's name without brackets, commas and dots.
pub open spec fn clean_value(t: Seq<char>) -> Seq<char> {
    without_dots(strip(t, one_of(seq!['[', ']', '(', ')', ','])))
}

/// Whether a character is an ASCII upper-case letter.
pub open spec fn is_upper(c: char) -> bool {
    'A' as u32 <= c as u32 <= 'Z' as u32
}

/// Whether `t` is written as the name of a value.
pub open spec fn is_value(t: Seq<char>) -> bool {
    t.len() > 0 && t[0] != '-' && (t[0] == '<' || t[0] == '{' || exists|i: int|
        0 <= i < t.len() && ((#[trigger] t[i]) == '_' || is_upper(t[i])))
}

/// The name of the value behind the first `=` that has one.
pub open spec fn value_behind_equals(ts: Seq<Seq<char>>) -> Option<Seq<char>>
    decreases ts.len(),
{
    if ts.len() == 0 {
        None
    } else {
        match halves(ts[0], '=') {
            Some((_, v)) => if is_value(clean_value(v)) {
                Some(clean_value(v))
            } else {
                value_behind_equals(ts.skip(1))
            },
            None => value_behind_equals(ts.skip(1)),
        }
    }
}

/// The name of the value that is the word behind a flag.
pub open spec fn value_behind_flag(ts: Seq<Seq<char>>) -> Option<Seq<char>>
    decreases ts.len(),
{
    if ts.len() < 2 {
        None
    } else if ts[0].len() > 0 && ts[0][0] == '-' && is_value(clean_value(ts[1])) {
        Some(clean_value(ts[1]))
    } else {
        value_behind_flag(ts.skip(1))
    }
}

/// The name of a flag's value.
pub open spec fn value_name(ts: Seq<Seq<char>>) -> Option<Seq<char>> {
    match value_behind_equals(ts) {
        Some(v) => Some(v),
        None => value_behind_flag(ts),
    }
}

/// A long flag without its value and dots.
pub open spec fn long_name(t: Seq<char>) -> Seq<char> {
    without_dots(
        match halves(t, '=') {
            Some((name, _)) => name,
            None => t,
        },
    )
}

/// What a line tells of a flag: none where it tells of no flag. A line whose
/// short flag is not ASCII cannot be read at all.
pub ghost enum FlagLine {
    Absent,
    Present(Flag),
    Unreadable,
}

/// What a line tells of a flag.
pub open spec fn flag_line(line: Seq<char>) -> FlagLine {
    let t = trimmed(line);
    if t.len() == 0 || t[0] != '-' {
        FlagLine::Absent
    } else {
        let (spec, description) = split_gap(t);
        let ts = flag_words(spec);
        let short = first_where(ts, |w: Seq<char>| is_short(w));
        let long = first_where(ts, |w: Seq<char>| is_long(w));
        if short is Some && ts[short->0][1] as u32 >= 0x80 {
            FlagLine::Unreadable
        } else if short is None && long is None {
            FlagLine::Absent
        } else {
            FlagLine::Present(
                Flag {
                    short: match short {
                        Some(i) => Some(ts[i].take(2)),
                        None => None,
                    },
                    long: match long {
                        Some(i) => Some(long_name(ts[i])),
                        None => None,
                    },
                    takes_value: value_name(ts) is Some,
                    value_name: value_name(ts),
                    description,
                },
            )
        }
    }
}

/// A name and a description, with a gap between them.
pub open spec fn name_line(line: Seq<char>) -> Option<(Seq<char>, Seq<char>)> {
    let t = trimmed(line);
    let (name, description) = split_gap(t);
    if name != t && !(name.len() > 0 && name[0] == '-') {
        Some((name, description))
    } else {
        None
    }
}

fn is_ascii_white(c: char) -> (b: bool)
    ensures
        b == ascii_white(c),
{
    c == ' ' || c == '\t' || c == '\n' || c == '\r' || c == '\u{c}'
}

/// What stands in front of a gap, and the description behind it.
fn split_spec_description<'a>(s: &'a [char]) -> (r: (&'a [char], &'a [char]))
    ensures
        (r.0@, r.1@) == split_gap(s@),
{
    let n: usize = s.len();
    let mut i: usize = 0;
    while i < n && n - i > 1 && !(is_ascii_white(s[i]) && is_ascii_white(s[i + 1]))
        invariant
            n == s@.len(),
            i <= n,
            gap(s@, i as int) == gap(s@, 0),
        decreases n - i,
    {
        i = i + 1;
    }
    if i < n && n - i > 1 {
        let a: &'a [char] = slice_subrange(s, 0, i);
        let b: &'a [char] = slice_subrange(s, i, n);
        assert(a@ =~= s@.take(i as int));
        assert(b@ =~= s@.skip(i as int));
        (trim(a), trim(b))
    } else {
        let empty: &'a [char] = slice_subrange(s, n, n);
        assert(empty@ =~= seq![]);
        (s, empty)
    }
}

/// `s` without as many dots in threes as it ends in.
fn trim_dots<'a>(s: &'a [char]) -> (r: &'a [char])
    ensures
        r@ == without_dots(s@),
{
    let mut n: usize = s.len();
    assert(s@.take(n as int) =~= s@);
    while n >= 3 && s[n - 1] == '.' && s[n - 2] == '.' && s[n - 3] == '.'
        invariant
            n <= s@.len(),
            without_dots(s@.take(n as int)) == without_dots(s@),
        decreases n,
    {
        assert(s@.take(n as int).take(n - 3) =~= s@.take(n - 3));
        n = n - 3;
    }
    let r: &'a [char] = slice_subrange(s, 0, n);
    assert(r@ =~= s@.take(n as int));
    r
}

/// The words of a flag's line.
fn flag_tokens<'a>(s: &'a [char]) -> (r: Vec<&'a [char]>)
    ensures
        slice_views(r@) == flag_words(s@),
{
    let commas: [char; 1] = [','];
    let cut = Cut { white: true, set: commas.as_slice() };
    assert(commas@ =~= seq![',']);
    assert(cut.pred() =~= token_cut());
    let ps: Vec<&'a [char]> = split_fields(s, &cut);
    let ghost all = slice_views(ps@);
    let marks: [char; 4] = ['[', ']', '(', ')'];
    assert(marks@ =~= seq!['[', ']', '(', ')']);
    let mut out: Vec<&'a [char]> = Vec::new();
    let mut i: usize = 0;
    assert(slice_views(out@) =~= unbracketed(all.take(0)));
    while i < ps.len()
        invariant
            all == slice_views(ps@),
            marks@ == seq!['[', ']', '(', ')'],
            i <= ps@.len(),
            slice_views(out@) == unbracketed(all.take(i as int)),
        decreases ps@.len() - i,
    {
        let t: &'a [char] = strip_cut(ps[i], &at_any(marks.as_slice()));
        proof {
            assert(all.take(i + 1).drop_last() =~= all.take(i as int));
            assert(all.take(i + 1).last() == ps@[i as int]@);
            if t@.len() == 1 && t@[0] == '|' {
                assert(t@ =~= seq!['|']);
            }
        }
        if t.len() > 0 && !(t.len() == 1 && t[0] == '|') {
            let ghost before = out@;
            out.push(t);
            assert(slice_views(out@) =~= slice_views(before).push(t@));
        }
        i = i + 1;
    }
    assert(all.take(all.len() as int) =~= all);
    out
}

/// Whether `c` is an ASCII upper-case letter.
fn upper(c: char) -> (b: bool)
    ensures
        b == is_upper(c),
{
    'A' <= c && c <= 'Z'
}

/// A value's name without brackets, commas and dots.
fn clean_value_token<'a>(t: &'a [char]) -> (r: &'a [char])
    ensures
        r@ == clean_value(t@),
{
    let marks: [char; 5] = ['[', ']', '(', ')', ','];
    assert(marks@ =~= seq!['[', ']', '(', ')', ',']);
    trim_dots(strip_cut(t, &at_any(marks.as_slice())))
}

/// Whether `t` is written as the name of a value.
fn is_value_token(t: &[char]) -> (b: bool)
    ensures
        b == is_value(t@),
{
    if t.len() == 0 || t[0] == '-' {
        return false;
    }
    if t[0] == '<' || t[0] == '{' {
        return true;
    }
    let mut i: usize = 0;
    while i < t.len()
        invariant
            i <= t@.len(),
            t@.len() > 0,
            t@[0] != '-',
            t@[0] != '<' && t@[0] != '{',
            forall|j: int| 0 <= j < i ==> (#[trigger] t@[j]) != '_' && !is_upper(t@[j]),
        decreases t@.len() - i,
    {
        if t[i] == '_' || upper(t[i]) {
            assert(t@[i as int] == '_' || is_upper(t@[i as int]));
            return true;
        }
        i = i + 1;
    }
    false
}

/// The name of a flag's value.
fn find_value_name<'a>(ts: &Vec<&'a [char]>) -> (r: Option<&'a [char]>)
    ensures
        match r {
            Some(v) => value_name(slice_views(ts@)) == Some(v@),
            None => value_name(slice_views(ts@)) is None,
        },
{
    let ghost all = slice_views(ts@);
    let mut i: usize = 0;
    assert(all.skip(0) =~= all);
    while i < ts.len()
        invariant
            all == slice_views(ts@),
            i <= ts@.len(),
            value_behind_equals(all.skip(i as int)) == value_behind_equals(all),
        decreases ts@.len() - i,
    {
        proof {
            assert(all.skip(i as int)[0] == ts@[i as int]@);
            assert(all.skip(i as int).skip(1) =~= all.skip(i + 1));
        }
        if let Some((_, v)) = split_once(ts[i], '=') {
            let v: &'a [char] = clean_value_token(v);
            if is_value_token(v) {
                return Some(v);
            }
        }
        i = i + 1;
    }
    assert(all.skip(i as int) =~= Seq::<Seq<char>>::empty());
    let mut j: usize = 0;
    while j < ts.len() && ts.len() - j > 1
        invariant
            all == slice_views(ts@),
            j <= ts@.len(),
            value_behind_equals(all) is None,
            value_behind_flag(all.skip(j as int)) == value_behind_flag(all),
        decreases ts@.len() - j,
    {
        proof {
            assert(all.skip(j as int)[0] == ts@[j as int]@);
            assert(all.skip(j as int)[1] == ts@[j + 1]@);
            assert(all.skip(j as int).skip(1) =~= all.skip(j + 1));
        }
        let v: &'a [char] = clean_value_token(ts[j + 1]);
        if ts[j].len() > 0 && ts[j][0] == '-' && is_value_token(v) {
            return Some(v);
        }
        j = j + 1;
    }
    None
}

/// The position of the first word that is written as a short flag.
fn find_short(ts: &Vec<&[char]>) -> (r: Option<usize>)
    ensures
        match r {
            Some(i) => first_where(slice_views(ts@), |w: Seq<char>| is_short(w)) == Some(i as int)
                && i < ts@.len() && is_short(ts@[i as int]@),
            None => first_where(slice_views(ts@), |w: Seq<char>| is_short(w)) is None,
        },
{
    let ghost all = slice_views(ts@);
    let ghost p = |w: Seq<char>| is_short(w);
    let mut i: usize = 0;
    while i < ts.len()
        invariant
            all == slice_views(ts@),
            p == (|w: Seq<char>| is_short(w)),
            i <= ts@.len() == all.len(),
            forall|j: int| 0 <= j < i ==> !p(#[trigger] all[j]),
        decreases ts@.len() - i,
    {
        assert(all[i as int] == ts@[i as int]@);
        if ts[i].len() >= 2 && ts[i][0] == '-' && ts[i][1] != '-' {
            proof {
                lemma_first_where(all, p, i as int);
            }
            return Some(i);
        }
        i = i + 1;
    }
    proof {
        lemma_first_where(all, p, i as int);
    }
    None
}

/// The position of the first word that is written as a long flag.
fn find_long(ts: &Vec<&[char]>) -> (r: Option<usize>)
    ensures
        match r {
            Some(i) => first_where(slice_views(ts@), |w: Seq<char>| is_long(w)) == Some(i as int)
                && i < ts@.len(),
            None => first_where(slice_views(ts@), |w: Seq<char>| is_long(w)) is None,
        },
{
    let ghost all = slice_views(ts@);
    let ghost p = |w: Seq<char>| is_long(w);
    let dashes: [char; 2] = ['-', '-'];
    assert(dashes@ =~= seq!['-', '-']);
    let mut i: usize = 0;
    while i < ts.len()
        invariant
            all == slice_views(ts@),
            dashes@ == seq!['-', '-'],
            p == (|w: Seq<char>| is_long(w)),
            i <= ts@.len() == all.len(),
            forall|j: int| 0 <= j < i ==> !p(#[trigger] all[j]),
        decreases ts@.len() - i,
    {
        assert(all[i as int] == ts@[i as int]@);
        if starts_with(ts[i], dashes.as_slice()) {
            proof {
                lemma_first_where(all, p, i as int);
            }
            return Some(i);
        }
        i = i + 1;
    }
    proof {
        lemma_first_where(all, p, i as int);
    }
    None
}

/// What a line tells of a flag.
enum LineFlag {
    Absent,
    Present(FlagSpec),
    Unreadable,
}

impl LineFlag {
    spec fn model(self) -> FlagLine {
        match self {
            LineFlag::Absent => FlagLine::Absent,
            LineFlag::Present(f) => FlagLine::Present(f@),
            LineFlag::Unreadable => FlagLine::Unreadable,
        }
    }
}

/// What a line tells of a flag.
fn parse_flag_line(line: &[char]) -> (r: LineFlag)
    ensures
        r.model() == flag_line(line@),
{
    let t: &[char] = trim(line);
    if t.len() == 0 || t[0] != '-' {
        return LineFlag::Absent;
    }
    let (spec, description) = split_spec_description(t);
    let ts: Vec<&[char]> = flag_tokens(spec);
    let short: Option<usize> = find_short(&ts);
    let long: Option<usize> = find_long(&ts);
    let short: Option<String> = match short {
        Some(i) => {
            assert(slice_views(ts@)[i as int] == ts@[i as int]@);
            if ts[i][1] as u32 >= 0x80 {
                return LineFlag::Unreadable;
            }
            let two: &[char] = slice_subrange(ts[i], 0, 2);
            assert(two@ =~= ts@[i as int]@.take(2));
            Some(string_of(two))
        },
        None => None,
    };
    let long: Option<String> = match long {
        Some(i) => {
            assert(slice_views(ts@)[i as int] == ts@[i as int]@);
            let name: &[char] = match split_once(ts[i], '=') {
                Some((name, _)) => name,
                None => ts[i],
            };
            Some(string_of(trim_dots(name)))
        },
        None => None,
    };
    if short.is_none() && long.is_none() {
        return LineFlag::Absent;
    }
    let value_name: Option<String> = match find_value_name(&ts) {
        Some(v) => Some(string_of(v)),
        None => None,
    };
    let takes_value: bool = value_name.is_some();
    let f = FlagSpec { short, long, takes_value, value_name, description: string_of(description) };
    proof {
        assert(flag_line(line@) is Present);
        assert(f@ =~= flag_line(line@)->Present_0);
    }
    LineFlag::Present(f)
}

/// A name and a description, with a gap between them.
fn parse_name_description<'a>(line: &'a [char]) -> (r: Option<(&'a [char], &'a [char])>)
    ensures
        match r {
            Some((a, b)) => name_line(line@) == Some((a@, b@)),
            None => name_line(line@) is None,
        },
{
    let t: &'a [char] = trim(line);
    let (name, description) = split_spec_description(t);
    if !same(name, t) && !(name.len() > 0 && name[0] == '-') {
        Some((name, description))
    } else {
        None
    }
}

/// The part of a help text that a line is in.
#[derive(Debug, Clone, Copy, PartialEq, Eq, Structural)]
enum Section {
    Other,
    Usage,
    Options,
    Subcommands,
    Positionals,
}

/// A part of a help text, as a value of specifications.
pub ghost enum Part {
    Other,
    Usage,
    Options,
    Subcommands,
    Positionals,
}

impl Section {
    spec fn part(self) -> Part {
        match self {
            Section::Other => Part::Other,
            Section::Usage => Part::Usage,
            Section::Options => Part::Options,
            Section::Subcommands => Part::Subcommands,
            Section::Positionals => Part::Positionals,
        }
    }
}

/// Whether `name` is one of the names, in whatever case.
pub open spec fn named(names: Seq<Seq<char>>, name: Seq<char>) -> bool {
    exists|i: int| 0 <= i < names.len() && lowered(#[trigger] names[i]) == lowered(name)
}

/// The part that a line is the heading of. `commands` and `options` are the
/// headings of those parts.
pub open spec fn heading(
    t: Seq<char>,
    commands: Seq<Seq<char>>,
    options: Seq<Seq<char>>,
) -> Option<Part> {
    if t.len() == 0 || t.last() != ':' {
        None
    } else {
        let name = trimmed(t.drop_last());
        if named(commands, name) {
            Some(Part::Subcommands)
        } else if named(options, name) {
            Some(Part::Options)
        } else if lowered(name) == lowered("arguments"@) || lowered(name) == lowered(
            "positional arguments"@,
        ) {
            Some(Part::Positionals)
        } else {
            None
        }
    }
}

/// Whether a character may stand in the name of a command.
pub open spec fn is_name_char(c: char) -> bool {
    ||| is_upper(c)
    ||| 'a' as u32 <= c as u32 <= 'z' as u32
    ||| '0' as u32 <= c as u32 <= '9' as u32
    ||| c == '-'
    ||| c == '_'
}

/// Whether `s` is written as the name of a command.
pub open spec fn is_command(s: Seq<char>) -> bool {
    s.len() > 0 && forall|i: int| 0 <= i < s.len() ==> is_name_char(#[trigger] s[i])
}

/// Whether a flag with these names is in the list.
pub open spec fn has_flag(s: Seq<Flag>, short: Option<Seq<char>>, long: Option<Seq<char>>) -> bool {
    exists|i: int| 0 <= i < s.len() && (#[trigger] s[i]).short == short && s[i].long == long
}

/// The list with one more subcommand, if its name is one and is new.
pub open spec fn with_sub(s: Seq<Sub>, name: Seq<char>, description: Seq<char>) -> Seq<Sub> {
    if is_command(name) && !(exists|i: int| 0 <= i < s.len() && (#[trigger] s[i]).name == name) {
        s.push(Sub { name, description })
    } else {
        s
    }
}

/// The list with one more argument, if its name is new.
pub open spec fn with_arg(s: Seq<Arg>, name: Seq<char>, description: Seq<char>, required: bool) -> Seq<
    Arg,
> {
    if exists|i: int| 0 <= i < s.len() && (#[trigger] s[i]).name == name {
        s
    } else {
        s.push(Arg { name, description, required })
    }
}

/// A description with one more line.
pub open spec fn continued(description: Seq<char>, line: Seq<char>) -> Seq<char> {
    if line.len() == 0 {
        description
    } else if description.len() == 0 {
        line
    } else {
        description.push(' ') + line
    }
}

/// What has been read of a help text in sections.
pub ghost struct Reading {
    pub help: Help,
    pub part: Part,
    pub last: Option<int>,
}

impl Reading {
    /// After one more line; none where it cannot be read.
    pub open spec fn line(
        self,
        line: Seq<char>,
        commands: Seq<Seq<char>>,
        options: Seq<Seq<char>>,
    ) -> Option<Reading> {
        let t = trimmed(line);
        if t.len() == 0 {
            Some(self)
        } else if heading(t, commands, options) is Some {
            Some(Reading { part: heading(t, commands, options)->0, last: None, ..self })
        } else {
            match flag_line(line) {
                FlagLine::Unreadable => None,
                FlagLine::Present(f) => if has_flag(self.help.flags, f.short, f.long) {
                    Some(self)
                } else {
                    Some(
                        Reading {
                            help: Help { flags: self.help.flags.push(f), ..self.help },
                            last: Some(self.help.flags.len() as int),
                            ..self
                        },
                    )
                },
                FlagLine::Absent => Some(self.plain_line(line, t)),
            }
        }
    }

    /// After a line that is neither a heading nor a flag's.
    pub open spec fn plain_line(self, line: Seq<char>, t: Seq<char>) -> Reading {
        let h = self.help;
        if self.part == Part::Options && is_white_space(line[0]) {
            match self.last {
                Some(i) => Reading {
                    help: Help {
                        flags: h.flags.update(
                            i,
                            Flag {
                                description: continued(h.flags[i].description, t),
                                ..h.flags[i]
                            },
                        ),
                        ..h
                    },
                    ..self
                },
                None => self,
            }
        } else if self.part == Part::Subcommands {
            match name_line(line) {
                Some((name, description)) => Reading {
                    help: Help {
                        subs: with_sub(h.subs, skip_back(name, is_char(',')), description),
                        ..h
                    },
                    ..self
                },
                None => self,
            }
        } else if self.part == Part::Positionals {
            match name_line(line) {
                Some((name, description)) => Reading {
                    help: Help { args: with_arg(h.args, name, description, true), ..h },
                    ..self
                },
                None => self,
            }
        } else {
            self
        }
    }
}

/// What the first `n` lines of a help text tell, read in sections.
pub open spec fn read_sections(
    ls: Seq<Seq<char>>,
    n: int,
    format: HelpFormat,
    commands: Seq<Seq<char>>,
    options: Seq<Seq<char>>,
) -> Option<Reading>
    decreases n,
{
    if n <= 0 {
        Some(
            Reading {
                help: Help { format, flags: seq![], subs: seq![], args: seq![] },
                part: Part::Other,
                last: None,
            },
        )
    } else {
        match read_sections(ls, n - 1, format, commands, options) {
            Some(r) => r.line(ls[n - 1], commands, options),
            None => None,
        }
    }
}

/// What a help text in sections tells; none where a line cannot be read.
pub open spec fn sectioned(
    text: Seq<char>,
    format: HelpFormat,
    commands: Seq<Seq<char>>,
    options: Seq<Seq<char>>,
) -> Option<Help> {
    let ls = lines(text);
    match read_sections(ls, ls.len() as int, format, commands, options) {
        Some(r) => Some(r.help),
        None => None,
    }
}

/// Whether `name` is one of the names, in whatever case.
fn contains_section(names: &[&str], name: &[char]) -> (b: bool)
    ensures
        b == named(str_views(names@), name@),
{
    let ghost all = str_views(names@);
    let mut i: usize = 0;
    while i < names.len()
        invariant
            all == str_views(names@),
            i <= names@.len() == all.len(),
            forall|j: int| 0 <= j < i ==> lowered(#[trigger] all[j]) != lowered(name@),
        decreases names@.len() - i,
    {
        assert(all[i as int] == names@[i as int]@);
        if same_ignoring_case(chars_of(names[i]).as_slice(), name) {
            assert(lowered(all[i as int]) == lowered(name@));
            return true;
        }
        i = i + 1;
    }
    false
}

/// The views of a sequence of string slices.
pub open spec fn str_views(s: Seq<&str>) -> Seq<Seq<char>> {
    s.map_values(|t: &str| t@)
}

/// The part that a line is the heading of.
fn read_heading(t: &[char], commands: &[&str], options: &[&str]) -> (r: Option<Section>)
    ensures
        match r {
            Some(s) => heading(t@, str_views(commands@), str_views(options@)) == Some(s.part()),
            None => heading(t@, str_views(commands@), str_views(options@)) is None,
        },
{
    if t.len() == 0 || t[t.len() - 1] != ':' {
        return None;
    }
    let front: &[char] = slice_subrange(t, 0, t.len() - 1);
    assert(front@ =~= t@.drop_last());
    let name: &[char] = trim(front);
    if contains_section(commands, name) {
        Some(Section::Subcommands)
    } else if contains_section(options, name) {
        Some(Section::Options)
    } else if same_ignoring_case(name, chars_of("arguments").as_slice()) || same_ignoring_case(
        name,
        chars_of("positional arguments").as_slice(),
    ) {
        Some(Section::Positionals)
    } else {
        None
    }
}

/// Whether `s` is written as the name of a command.
fn is_command_name(s: &[char]) -> (b: bool)
    ensures
        b == is_command(s@),
{
    if s.len() == 0 {
        return false;
    }
    let mut i: usize = 0;
    while i < s.len()
        invariant
            i <= s@.len(),
            s@.len() > 0,
            forall|j: int| 0 <= j < i ==> is_name_char(#[trigger] s@[j]),
        decreases s@.len() - i,
    {
        let c: char = s[i];
        let v: u32 = c as u32;
        let letter: bool = upper(c) || (0x61 <= v && v <= 0x7a);
        let ok: bool = letter || (0x30 <= v && v <= 0x39) || c == '-' || c == '_';
        if !ok {
            assert(!is_name_char(s@[i as int]));
            return false;
        }
        i = i + 1;
    }
    true
}

/// Whether two optional strings hold the same text.
fn same_option(a: &Option<String>, b: &Option<String>) -> (r: bool)
    ensures
        r == (opt_view(*a) == opt_view(*b)),
{
    match (a, b) {
        (Some(x), Some(y)) => *x == *y,
        (None, None) => true,
        _ => false,
    }
}

/// Whether a flag with these names is in the list.
fn flag_known(flags: &Vec<FlagSpec>, short: &Option<String>, long: &Option<String>) -> (b: bool)
    ensures
        b == has_flag(flag_views(flags@), opt_view(*short), opt_view(*long)),
{
    let ghost all = flag_views(flags@);
    let mut i: usize = 0;
    while i < flags.len()
        invariant
            all == flag_views(flags@),
            i <= flags@.len() == all.len(),
            forall|j: int|
                0 <= j < i ==> !((#[trigger] all[j]).short == opt_view(*short) && all[j].long
                    == opt_view(*long)),
        decreases flags@.len() - i,
    {
        assert(all[i as int] == flags@[i as int]@);
        if same_option(&flags[i].short, short) && same_option(&flags[i].long, long) {
            assert(all[i as int].short == opt_view(*short));
            return true;
        }
        i = i + 1;
    }
    false
}

/// Adds a subcommand, if its name is one and is new.
fn push_subcommand(subs: &mut Vec<SubcommandSpec>, name: &[char], description: &[char])
    ensures
        sub_views(final(subs)@) == with_sub(sub_views(old(subs)@), name@, description@),
{
    let ghost all = sub_views(subs@);
    if !is_command_name(name) {
        return;
    }
    let owned: String = string_of(name);
    let mut i: usize = 0;
    while i < subs.len()
        invariant
            subs@ == old(subs)@,
            all == sub_views(subs@),
            is_command(name@),
            owned@ == name@,
            i <= subs@.len() == all.len(),
            forall|j: int| 0 <= j < i ==> (#[trigger] all[j]).name != name@,
        decreases subs@.len() - i,
    {
        assert(all[i as int] == subs@[i as int]@);
        if subs[i].name == owned {
            assert(all[i as int].name == name@);
            return;
        }
        i = i + 1;
    }
    let s = SubcommandSpec { name: owned, description: string_of(description) };
    proof {
        assert(s@ =~= Sub { name: name@, description: description@ });
        assert(sub_views(subs@.push(s)) =~= all.push(s@));
    }
    subs.push(s);
}

/// Adds an argument, if its name is new.
fn push_arg(args: &mut Vec<ArgSpec>, name: String, description: &[char], required: bool)
    ensures
        arg_views(final(args)@) == with_arg(
            arg_views(old(args)@),
            name@,
            description@,
            required,
        ),
{
    let ghost all = arg_views(args@);
    let mut i: usize = 0;
    while i < args.len()
        invariant
            args@ == old(args)@,
            all == arg_views(args@),
            i <= args@.len() == all.len(),
            forall|j: int| 0 <= j < i ==> (#[trigger] all[j]).name != name@,
        decreases args@.len() - i,
    {
        assert(all[i as int] == args@[i as int]@);
        if args[i].name == name {
            assert(all[i as int].name == name@);
            return;
        }
        i = i + 1;
    }
    let a = ArgSpec { name, description: string_of(description), required };
    proof {
        assert(a@ =~= Arg { name: name@, description: description@, required });
        assert(arg_views(args@.push(a)) =~= all.push(a@));
    }
    args.push(a);
}

/// `s` without the commas that it ends in.
fn trim_commas<'a>(s: &'a [char]) -> (r: &'a [char])
    ensures
        r@ == skip_back(s@, is_char(',')),
{
    let mut n: usize = s.len();
    assert(s@.take(n as int) =~= s@);
    while n > 0 && s[n - 1] == ','
        invariant
            n <= s@.len(),
            skip_back(s@.take(n as int), is_char(',')) == skip_back(s@, is_char(',')),
        decreases n,
    {
        assert(s@.take(n as int).drop_last() =~= s@.take(n - 1));
        assert(s@.take(n as int).last() == s@[n - 1]);
        n = n - 1;
    }
    let r: &'a [char] = slice_subrange(s, 0, n);
    assert(r@ =~= s@.take(n as int));
    r
}

/// Adds a line to a description.
fn append_description(description: &mut String, line: &[char])
    ensures
        final(description)@ == continued(old(description)@, line@),
{
    if line.len() > 0 {
        if !description.as_str().is_empty() {
            description.push(' ');
        } else {
            assert(old(description)@ + line@ =~= line@);
        }
        description.append(string_of(line).as_str());
    }
}

impl ParsedHelp {
    fn empty(format: HelpFormat) -> (r: Self)
        ensures
            r@ == (Help { format, flags: seq![], subs: seq![], args: seq![] }),
    {
        let r = ParsedHelp {
            format,
            flags: Vec::new(),
            subcommands: Vec::new(),
            positional_args: Vec::new(),
        };
        assert(r@ =~= Help { format, flags: seq![], subs: seq![], args: seq![] });
        r
    }
}

/// What has been read of a help text in sections.
struct Reader {
    help: ParsedHelp,
    section: Section,
    last: Option<usize>,
}

impl Reader {
    spec fn model(self) -> Reading {
        Reading {
            help: self.help@,
            part: self.section.part(),
            last: match self.last {
                Some(i) => Some(i as int),
                None => None,
            },
        }
    }

    spec fn inv(self) -> bool {
        self.last matches Some(i) ==> i < self.help.flags@.len()
    }

    /// Reads one more line. Tells whether it can be read.
    fn line(&mut self, line: &[char], commands: &[&str], options: &[&str]) -> (ok: bool)
        requires
            old(self).inv(),
        ensures
            final(self).inv(),
            match old(self).model().line(line@, str_views(commands@), str_views(options@)) {
                Some(next) => ok && final(self).model() == next,
                None => !ok,
            },
    {
        let t: &[char] = trim(line);
        if t.len() == 0 {
            return true;
        }
        if let Some(section) = read_heading(t, commands, options) {
            self.section = section;
            self.last = None;
            return true;
        }
        match parse_flag_line(line) {
            LineFlag::Unreadable => false,
            LineFlag::Present(f) => {
                if !flag_known(&self.help.flags, &f.short, &f.long) {
                    proof {
                        assert(flag_views(self.help.flags@.push(f)) =~= flag_views(
                            self.help.flags@,
                        ).push(f@));
                    }
                    self.last = Some(self.help.flags.len());
                    self.help.flags.push(f);
                }
                true
            },
            LineFlag::Absent => {
                proof {
                    lemma_trimmed_nonempty(line@);
                }
                self.plain_line(line, t);
                true
            },
        }
    }

    /// Reads a line that is neither a heading nor a flag's.
    fn plain_line(&mut self, line: &[char], t: &[char])
        requires
            old(self).inv(),
            line@.len() > 0,
        ensures
            final(self).inv(),
            final(self).model() == old(self).model().plain_line(line@, t@),
    {
        if self.section == Section::Options && white_space(line[0]) {
            if let Some(i) = self.last {
                let ghost before = flag_views(self.help.flags@);
                assert(before[i as int] == self.help.flags@[i as int]@);
                let f = &mut self.help.flags[i];
                append_description(&mut f.description, t);
                assert(flag_views(self.help.flags@) =~= before.update(
                    i as int,
                    Flag {
                        description: continued(before[i as int].description, t@),
                        ..before[i as int]
                    },
                ));
            }
        } else if self.section == Section::Subcommands {
            if let Some((name, description)) = parse_name_description(line) {
                push_subcommand(&mut self.help.subcommands, trim_commas(name), description);
            }
        } else if self.section == Section::Positionals {
            if let Some((name, description)) = parse_name_description(line) {
                push_arg(&mut self.help.positional_args, string_of(name), description, true);
            }
        }
    }
}

proof fn lemma_trimmed_nonempty(s: Seq<char>)
    requires
        trimmed(s).len() > 0,
    ensures
        s.len() > 0,
{
    if s.len() == 0 {
        assert(trimmed(s) =~= s);
    }
}

/// What a help text in sections tells; none where a line cannot be read.
fn parse_sectioned(
    text: &[char],
    format: HelpFormat,
    commands: &[&str],
    options: &[&str],
) -> (r: Option<ParsedHelp>)
    ensures
        match r {
            Some(h) => sectioned(text@, format, str_views(commands@), str_views(options@)) == Some(
                h@,
            ),
            None => sectioned(text@, format, str_views(commands@), str_views(options@)) is None,
        },
{
    let ls: Vec<&[char]> = split_lines(text);
    let ghost all = lines(text@);
    let ghost cs = str_views(commands@);
    let ghost os = str_views(options@);
    assert(slice_views(ls@).len() == ls@.len());
    let mut reader = Reader {
        help: ParsedHelp::empty(format),
        section: Section::Other,
        last: None,
    };
    let mut i: usize = 0;
    while i < ls.len()
        invariant
            all == lines(text@),
            all == slice_views(ls@),
            cs == str_views(commands@),
            os == str_views(options@),
            i <= ls@.len() == all.len(),
            reader.inv(),
            read_sections(all, i as int, format, cs, os) == Some(reader.model()),
        decreases ls@.len() - i,
    {
        assert(all[i as int] == ls@[i as int]@);
        if !reader.line(ls[i], commands, options) {
            proof {
                lemma_unreadable(all, i + 1, all.len() as int, format, cs, os);
            }
            return None;
        }
        i = i + 1;
    }
    Some(reader.help)
}

/// Once a line cannot be read, the text cannot.
proof fn lemma_unreadable(
    ls: Seq<Seq<char>>,
    i: int,
    n: int,
    format: HelpFormat,
    commands: Seq<Seq<char>>,
    options: Seq<Seq<char>>,
)
    requires
        0 <= i <= n,
        read_sections(ls, i, format, commands, options) is None,
    ensures
        read_sections(ls, n, format, commands, options) is None,
    decreases n - i,
{
    if i < n {
        lemma_unreadable(ls, i, n - 1, format, commands, options);
    }
}

/// The headings of the parts that list subcommands.
pub open spec fn command_headings() -> Seq<Seq<char>> {
    seq!["commands"@, "subcommands"@]
}

/// Whether a line is the heading `name`, in whatever case, with a colon.
pub open spec fn opens(t: Seq<char>, name: Seq<char>) -> bool {
    t.len() > name.len() && lowered(t.take(name.len() as int)) == lowered(name) && t[name.len() as int]
        == ':'
}

/// What has been read of a help text that shows its usage.
pub ghost struct Manual {
    pub flags: Seq<Flag>,
    pub usages: Seq<Seq<char>>,
    pub part: Part,
}

impl Manual {
    /// After one more line; none where it cannot be read.
    pub open spec fn line(self, line: Seq<char>) -> Option<Manual> {
        let t = trimmed(line);
        if t.len() == 0 {
            Some(Manual { part: Part::Other, ..self })
        } else if opens(t, "Usage"@) {
            let rest = match halves(t, ':') {
                Some((_, rest)) => trimmed(rest),
                None => seq![],
            };
            Some(
                Manual {
                    part: Part::Usage,
                    usages: if rest.len() > 0 {
                        self.usages.push(rest)
                    } else {
                        self.usages
                    },
                    ..self
                },
            )
        } else if opens(t, "Options"@) {
            Some(Manual { part: Part::Options, ..self })
        } else if self.part == Part::Usage {
            Some(Manual { usages: self.usages.push(t), ..self })
        } else if self.part == Part::Options {
            match flag_line(line) {
                FlagLine::Unreadable => None,
                FlagLine::Present(f) => Some(Manual { flags: self.flags.push(f), ..self }),
                FlagLine::Absent => Some(self),
            }
        } else {
            Some(self)
        }
    }
}

/// What the first `n` lines of a help text that shows its usage tell.
pub open spec fn read_manual(ls: Seq<Seq<char>>, n: int) -> Option<Manual>
    decreases n,
{
    if n <= 0 {
        Some(Manual { flags: seq![], usages: seq![], part: Part::Other })
    } else {
        match read_manual(ls, n - 1) {
            Some(m) => m.line(ls[n - 1]),
            None => None,
        }
    }
}

/// The marks round a word in a usage.
pub open spec fn usage_marks() -> spec_fn(char) -> bool {
    one_of(seq!['[', ']', '(', ')', '|', ',', '.', ':', '<', '>'])
}

/// Whether a word in a usage is written as a subcommand.
pub open spec fn is_usage_sub(t: Seq<char>) -> bool {
    t.len() > 0 && t[0] != '-' && !t.contains('=') && forall|i: int|
        0 <= i < t.len() ==> !is_upper(#[trigger] t[i])
}

/// The list with the names of the first `n` values of a usage.
pub open spec fn with_values(s: Seq<Arg>, values: Seq<Seq<char>>, n: int, required: bool) -> Seq<Arg>
    decreases n,
{
    if n <= 0 {
        s
    } else {
        with_arg(with_values(s, values, n - 1, required), values[n - 1], seq![], required)
    }
}

/// The list with the subcommands among the first `n` words of a usage, the
/// first of which is the program.
pub open spec fn with_usage_subs(s: Seq<Sub>, ws: Seq<Seq<char>>, n: int) -> Seq<Sub>
    decreases n,
{
    if n <= 1 {
        s
    } else {
        let front = with_usage_subs(s, ws, n - 1);
        let t = strip(ws[n - 1], usage_marks());
        if is_usage_sub(t) {
            with_sub(front, t, seq![])
        } else {
            front
        }
    }
}

/// What the first `n` usages add. A value is required where nothing in its
/// usage is optional.
pub open spec fn with_usages(h: Help, usages: Seq<Seq<char>>, n: int) -> Help
    decreases n,
{
    if n <= 0 {
        h
    } else {
        let front = with_usages(h, usages, n - 1);
        let usage = usages[n - 1];
        let values = finds_in(r"<[^>\s]+>"@, usage);
        Help {
            args: with_values(front.args, values, values.len() as int, !usage.contains('[')),
            subs: with_usage_subs(front.subs, words(usage), words(usage).len() as int),
            ..front
        }
    }
}

/// What a help text that shows its usage tells; none where a line cannot be
/// read.
pub open spec fn manual(text: Seq<char>) -> Option<Help> {
    let ls = lines(text);
    match read_manual(ls, ls.len() as int) {
        Some(m) => Some(
            with_usages(
                Help {
                    format: HelpFormat::Docopt,
                    flags: m.flags,
                    subs: seq![],
                    args: seq![],
                },
                m.usages,
                m.usages.len() as int,
            ),
        ),
        None => None,
    }
}

/// Whether a line is the heading `name`, in whatever case, with a colon.
fn starts_section(t: &[char], name: &str) -> (b: bool)
    ensures
        b == opens(t@, name@),
{
    let n: Vec<char> = chars_of(name);
    if t.len() <= n.len() {
        return false;
    }
    let front: &[char] = slice_subrange(t, 0, n.len());
    assert(front@ =~= t@.take(n@.len() as int));
    same_ignoring_case(front, n.as_slice()) && t[n.len()] == ':'
}

/// Whether a word in a usage is written as a subcommand.
fn is_usage_subcommand(t: &[char]) -> (b: bool)
    ensures
        b == is_usage_sub(t@),
{
    if t.len() == 0 || t[0] == '-' || has_char(t, '=') {
        return false;
    }
    let mut i: usize = 0;
    while i < t.len()
        invariant
            i <= t@.len(),
            t@.len() > 0 && t@[0] != '-' && !t@.contains('='),
            forall|j: int| 0 <= j < i ==> !is_upper(#[trigger] t@[j]),
        decreases t@.len() - i,
    {
        if upper(t[i]) {
            assert(is_upper(t@[i as int]));
            return false;
        }
        i = i + 1;
    }
    true
}

/// Adds the values of a usage to the arguments.
pub fn add_usage_values(args: &mut Vec<ArgSpec>, values: &Vec<String>, required: bool)
    ensures
        arg_views(final(args)@) == with_values(
            arg_views(old(args)@),
            views(values@),
            values@.len() as int,
            required,
        ),
{
    let ghost all = views(values@);
    let mut i: usize = 0;
    while i < values.len()
        invariant
            all == views(values@),
            i <= values@.len() == all.len(),
            arg_views(args@) == with_values(arg_views(old(args)@), all, i as int, required),
        decreases values@.len() - i,
    {
        assert(all[i as int] == values@[i as int]@);
        let none: [char; 0] = [];
        assert(none@ =~= seq![]);
        push_arg(args, values[i].clone(), none.as_slice(), required);
        i = i + 1;
    }
}

/// Adds what a usage tells.
fn read_usage(help: &mut ParsedHelp, usage: &[char])
    ensures
        ({
            let values = finds_in(r"<[^>\s]+>"@, usage@);
            final(help)@ == (Help {
                args: with_values(
                    old(help)@.args,
                    values,
                    values.len() as int,
                    !usage@.contains('['),
                ),
                subs: with_usage_subs(
                    old(help)@.subs,
                    words(usage@),
                    words(usage@).len() as int,
                ),
                ..old(help)@
            })
        }),
{
    let required: bool = !has_char(usage, '[');
    let found: Vec<String> = Pattern::new(r"<[^>\s]+>").finds(string_of(usage).as_str());
    let ghost values = finds_in(r"<[^>\s]+>"@, usage@);
    assert(views(found@).len() == found@.len());
    add_usage_values(&mut help.positional_args, &found, required);
    let ghost args = help@.args;
    let ws: Vec<&[char]> = split_words(usage);
    let ghost all = words(usage@);
    assert(slice_views(ws@).len() == ws@.len());
    let marks: [char; 10] = ['[', ']', '(', ')', '|', ',', '.', ':', '<', '>'];
    assert(marks@ =~= seq!['[', ']', '(', ')', '|', ',', '.', ':', '<', '>']);
    if ws.len() == 0 {
        return;
    }
    let mut j: usize = 1;
    while j < ws.len()
        invariant
            all == slice_views(ws@),
            marks@ == seq!['[', ']', '(', ')', '|', ',', '.', ':', '<', '>'],
            1 <= j <= ws@.len() == all.len(),
            help@ == (Help {
                args,
                subs: with_usage_subs(old(help)@.subs, all, j as int),
                ..old(help)@
            }),
        decreases ws@.len() - j,
    {
        assert(all[j as int] == ws@[j as int]@);
        let t: &[char] = strip_cut(ws[j], &at_any(marks.as_slice()));
        if is_usage_subcommand(t) {
            let none: [char; 0] = [];
            assert(none@ =~= seq![]);
            push_subcommand(&mut help.subcommands, t, none.as_slice());
        }
        j = j + 1;
    }
}

/// What a help text that shows its usage tells; none where a line cannot be
/// read.
fn parse_manual(text: &[char]) -> (r: Option<ParsedHelp>)
    ensures
        match r {
            Some(h) => manual(text@) == Some(h@),
            None => manual(text@) is None,
        },
{
    let ls: Vec<&[char]> = split_lines(text);
    let ghost all = lines(text@);
    assert(slice_views(ls@).len() == ls@.len());
    let mut flags: Vec<FlagSpec> = Vec::new();
    let mut usages: Vec<&[char]> = Vec::new();
    let mut section: Section = Section::Other;
    let mut i: usize = 0;
    assert(flag_views(flags@) =~= seq![]);
    assert(slice_views(usages@) =~= seq![]);
    while i < ls.len()
        invariant
            all == lines(text@),
            all == slice_views(ls@),
            i <= ls@.len() == all.len(),
            read_manual(all, i as int) == Some(
                Manual {
                    flags: flag_views(flags@),
                    usages: slice_views(usages@),
                    part: section.part(),
                },
            ),
        decreases ls@.len() - i,
    {
        assert(all[i as int] == ls@[i as int]@);
        let line: &[char] = ls[i];
        let t: &[char] = trim(line);
        let ghost before = usages@;
        if t.len() == 0 {
            section = Section::Other;
        } else if starts_section(t, "Usage") {
            section = Section::Usage;
            if let Some((_, rest)) = split_once(t, ':') {
                let rest: &[char] = trim(rest);
                if rest.len() > 0 {
                    usages.push(rest);
                    assert(slice_views(usages@) =~= slice_views(before).push(rest@));
                }
            }
        } else if starts_section(t, "Options") {
            section = Section::Options;
        } else if section == Section::Usage {
            usages.push(t);
            assert(slice_views(usages@) =~= slice_views(before).push(t@));
        } else if section == Section::Options {
            match parse_flag_line(line) {
                LineFlag::Unreadable => {
                    proof {
                        lemma_manual_unreadable(all, i + 1, all.len() as int);
                    }
                    return None;
                },
                LineFlag::Present(f) => {
                    assert(flag_views(flags@.push(f)) =~= flag_views(flags@).push(f@));
                    flags.push(f);
                },
                LineFlag::Absent => {},
            }
        }
        i = i + 1;
    }
    let mut help = ParsedHelp::empty(HelpFormat::Docopt);
    help.flags = flags;
    let ghost start = help@;
    let ghost us = slice_views(usages@);
    let mut k: usize = 0;
    while k < usages.len()
        invariant
            us == slice_views(usages@),
            k <= usages@.len() == us.len(),
            help@ == with_usages(start, us, k as int),
        decreases usages@.len() - k,
    {
        assert(us[k as int] == usages@[k as int]@);
        read_usage(&mut help, usages[k]);
        k = k + 1;
    }
    Some(help)
}

proof fn lemma_manual_unreadable(ls: Seq<Seq<char>>, i: int, n: int)
    requires
        0 <= i <= n,
        read_manual(ls, i) is None,
    ensures
        read_manual(ls, n) is None,
    decreases n - i,
{
    if i < n {
        lemma_manual_unreadable(ls, i, n - 1);
    }
}

/// White space, a comma or a bar.
pub open spec fn brace_cut() -> spec_fn(char) -> bool {
    |c: char| is_white_space(c) || seq![',', '|'].contains(c)
}

/// A short flag of one ASCII letter.
pub open spec fn is_short_exact(t: Seq<char>) -> bool {
    t.len() == 2 && t[0] == '-' && t[1] != '-' && (t[1] as u32) < 0x80
}

/// A long flag that is not empty.
pub open spec fn is_long_exact(t: Seq<char>) -> bool {
    is_long(t) && t.len() > 2
}

/// The flag that is written in braces.
pub open spec fn brace_flag(inside: Seq<char>) -> Flag {
    let ts = fields(inside, brace_cut());
    Flag {
        short: match first_where(ts, |t: Seq<char>| is_short_exact(t)) {
            Some(i) => Some(ts[i]),
            None => None,
        },
        long: match first_where(ts, |t: Seq<char>| is_long_exact(t)) {
            Some(i) => Some(ts[i]),
            None => None,
        },
        takes_value: false,
        value_name: None,
        description: seq![],
    }
}

/// The list with the flags in the first `n` braces that are new.
pub open spec fn with_braces(s: Seq<Flag>, braces: Seq<Seq<char>>, n: int) -> Seq<Flag>
    decreases n,
{
    if n <= 0 {
        s
    } else {
        let front = with_braces(s, braces, n - 1);
        let f = brace_flag(braces[n - 1]);
        if (f.short is None && f.long is None) || has_flag(front, f.short, f.long) {
            front
        } else {
            front.push(f)
        }
    }
}

/// The flag that is written in braces.
fn read_brace(inside: &str) -> (r: FlagSpec)
    ensures
        r@ == brace_flag(inside@),
{
    let chars: Vec<char> = chars_of(inside);
    let marks: [char; 2] = [',', '|'];
    let cut = Cut { white: true, set: marks.as_slice() };
    assert(marks@ =~= seq![',', '|']);
    assert(cut.pred() =~= brace_cut());
    let ts: Vec<&[char]> = split_fields(chars.as_slice(), &cut);
    let ghost all = slice_views(ts@);
    let ghost p = |t: Seq<char>| is_short_exact(t);
    let ghost q = |t: Seq<char>| is_long_exact(t);
    let dashes: [char; 2] = ['-', '-'];
    assert(dashes@ =~= seq!['-', '-']);
    let mut short: Option<usize> = None;
    let mut long: Option<usize> = None;
    let mut i: usize = 0;
    while i < ts.len()
        invariant
            all == slice_views(ts@),
            dashes@ == seq!['-', '-'],
            p == (|t: Seq<char>| is_short_exact(t)),
            q == (|t: Seq<char>| is_long_exact(t)),
            i <= ts@.len() == all.len(),
            match short {
                Some(k) => k < i && p(all[k as int]) && forall|j: int|
                    0 <= j < k ==> !p(#[trigger] all[j]),
                None => forall|j: int| 0 <= j < i ==> !p(#[trigger] all[j]),
            },
            match long {
                Some(k) => k < i && q(all[k as int]) && forall|j: int|
                    0 <= j < k ==> !q(#[trigger] all[j]),
                None => forall|j: int| 0 <= j < i ==> !q(#[trigger] all[j]),
            },
        decreases ts@.len() - i,
    {
        assert(all[i as int] == ts@[i as int]@);
        let t: &[char] = ts[i];
        if short.is_none() && t.len() == 2 && t[0] == '-' && t[1] != '-' && (t[1] as u32) < 0x80 {
            short = Some(i);
        }
        if long.is_none() && t.len() > 2 && starts_with(t, dashes.as_slice()) {
            long = Some(i);
        }
        i = i + 1;
    }
    proof {
        lemma_first_where(
            all,
            p,
            match short {
                Some(k) => k as int,
                None => i as int,
            },
        );
        lemma_first_where(
            all,
            q,
            match long {
                Some(k) => k as int,
                None => i as int,
            },
        );
    }
    let short: Option<String> = match short {
        Some(k) => {
            assert(all[k as int] == ts@[k as int]@);
            Some(string_of(ts[k]))
        },
        None => None,
    };
    let long: Option<String> = match long {
        Some(k) => {
            assert(all[k as int] == ts@[k as int]@);
            Some(string_of(ts[k]))
        },
        None => None,
    };
    let f = FlagSpec {
        short,
        long,
        takes_value: false,
        value_name: None,
        description: String::new(),
    };
    assert(f@ =~= brace_flag(inside@));
    f
}

/// Adds the flags that are written in braces, each of which is given by what
/// stands in them.
pub fn add_brace_flags(flags: &mut Vec<FlagSpec>, braces: &Vec<String>)
    ensures
        flag_views(final(flags)@) == with_braces(
            flag_views(old(flags)@),
            views(braces@),
            braces@.len() as int,
        ),
{
    let ghost all = views(braces@);
    let mut i: usize = 0;
    while i < braces.len()
        invariant
            all == views(braces@),
            i <= braces@.len() == all.len(),
            flag_views(flags@) == with_braces(flag_views(old(flags)@), all, i as int),
        decreases braces@.len() - i,
    {
        assert(all[i as int] == braces@[i as int]@);
        let f: FlagSpec = read_brace(braces[i].as_str());
        if (f.short.is_some() || f.long.is_some()) && !flag_known(flags, &f.short, &f.long) {
            assert(flag_views(flags@.push(f)) =~= flag_views(flags@).push(f@));
            flags.push(f);
        }
        i = i + 1;
    }
}

/// Whether a line is the heading of the options: `flags:`, or one that ends in
/// `options:`, in whatever case.
pub open spec fn is_options_heading(line: Seq<char>) -> bool {
    let l = lowered(trimmed(line));
    l == "flags:"@ || ends(l, "options:"@)
}

/// Whether a line tells a short flag.
pub open spec fn tells_short(line: Seq<char>) -> bool {
    first_where(flag_words(trimmed(line)), |w: Seq<char>| is_short(w)) is Some
}

/// Whether a line begins with `usage:`.
pub open spec fn is_usage_line(line: Seq<char>) -> bool {
    begins(crate::text::skip_front(line, white()), "usage:"@)
}

/// Whether one of the lines satisfies `p`.
pub open spec fn any_line(ls: Seq<Seq<char>>, p: spec_fn(Seq<char>) -> bool) -> bool {
    first_where(ls, p) is Some
}

/// The style of a help text. `docopt` tells whether a usage heading stands
/// alone on its line.
pub open spec fn style(text: Seq<char>, docopt: bool) -> HelpFormat {
    let lower = lowered(text);
    if docopt {
        HelpFormat::Docopt
    } else if occurs(lower, "optional arguments:"@) || occurs(lower, "positional arguments:"@) || (
    any_line(lines(text), |l: Seq<char>| is_usage_line(l)) && occurs(text, "\noptions:"@)) {
        HelpFormat::Argparse
    } else if any_line(lines(text), |l: Seq<char>| is_options_heading(l)) && any_line(
        lines(text),
        |l: Seq<char>| tells_short(l),
    ) {
        HelpFormat::Clap
    } else {
        HelpFormat::Unknown
    }
}

/// The headings of the options in the three styles with sections.
pub open spec fn option_headings(format: HelpFormat) -> Seq<Seq<char>> {
    match format {
        HelpFormat::Clap => seq!["options"@],
        HelpFormat::Argparse => seq!["options"@, "optional arguments"@],
        _ => seq![],
    }
}

/// What a help text tells, without escape sequences in it: none where a line
/// cannot be read. `braces` is what stands in its braces.
pub open spec fn told(text: Seq<char>, docopt: bool, braces: Seq<Seq<char>>) -> Option<Help> {
    let format = style(text, docopt);
    let help = if format == HelpFormat::Docopt {
        manual(text)
    } else {
        sectioned(text, format, command_headings(), option_headings(format))
    };
    match help {
        Some(h) => Some(
            Help { flags: with_braces(h.flags, braces, braces.len() as int), ..h },
        ),
        None => None,
    }
}

/// The pattern of a usage heading that stands alone on its line.
pub open spec fn usage_pattern() -> Seq<char> {
    r"(?m)^Usage:\s*\n\s+\S"@
}

/// The pattern of flags in braces.
pub open spec fn brace_pattern() -> Seq<char> {
    r"\{(-[A-Za-z0-9][^}]*)\}"@
}

/// What a help text tells: none where a line cannot be read.
pub open spec fn help_of(raw: Seq<char>) -> Option<Help> {
    let text = unescaped(raw);
    told(text, matches_in(usage_pattern(), text), groups_in(brace_pattern(), text, 1))
}

/// `s` without leading white space.
fn trim_start<'a>(s: &'a [char]) -> (r: &'a [char])
    ensures
        r@ == crate::text::skip_front(s@, white()),
{
    let n: usize = s.len();
    let mut i: usize = 0;
    assert(s@.skip(0) =~= s@);
    while i < n && white_space(s[i])
        invariant
            n == s@.len(),
            i <= n,
            crate::text::skip_front(s@.skip(i as int), white()) == crate::text::skip_front(
                s@,
                white(),
            ),
        decreases n - i,
    {
        assert(s@.skip(i as int).skip(1) =~= s@.skip(i + 1));
        i = i + 1;
    }
    let r: &'a [char] = slice_subrange(s, i, n);
    assert(r@ =~= s@.skip(i as int));
    r
}

/// Whether one of the lines begins with `usage:`.
fn has_usage_line(ls: &Vec<&[char]>) -> (b: bool)
    ensures
        b == any_line(slice_views(ls@), |l: Seq<char>| is_usage_line(l)),
{
    let ghost all = slice_views(ls@);
    let ghost p = |l: Seq<char>| is_usage_line(l);
    let usage: Vec<char> = chars_of("usage:");
    let mut i: usize = 0;
    while i < ls.len()
        invariant
            all == slice_views(ls@),
            usage@ == "usage:"@,
            p == (|l: Seq<char>| is_usage_line(l)),
            i <= ls@.len() == all.len(),
            forall|j: int| 0 <= j < i ==> !p(#[trigger] all[j]),
        decreases ls@.len() - i,
    {
        assert(all[i as int] == ls@[i as int]@);
        if starts_with(trim_start(ls[i]), usage.as_slice()) {
            proof {
                lemma_first_where(all, p, i as int);
            }
            return true;
        }
        i = i + 1;
    }
    proof {
        lemma_first_where(all, p, i as int);
    }
    false
}

/// Whether one of the lines is the heading of the options.
fn has_options_section(ls: &Vec<&[char]>) -> (b: bool)
    ensures
        b == any_line(slice_views(ls@), |l: Seq<char>| is_options_heading(l)),
{
    let ghost all = slice_views(ls@);
    let ghost p = |l: Seq<char>| is_options_heading(l);
    let flags: Vec<char> = chars_of("flags:");
    let options: Vec<char> = chars_of("options:");
    let mut i: usize = 0;
    while i < ls.len()
        invariant
            all == slice_views(ls@),
            flags@ == "flags:"@,
            options@ == "options:"@,
            p == (|l: Seq<char>| is_options_heading(l)),
            i <= ls@.len() == all.len(),
            forall|j: int| 0 <= j < i ==> !p(#[trigger] all[j]),
        decreases ls@.len() - i,
    {
        assert(all[i as int] == ls@[i as int]@);
        let l: Vec<char> = to_lower(trim(ls[i]));
        if same(l.as_slice(), flags.as_slice()) || ends_with(l.as_slice(), options.as_slice()) {
            proof {
                lemma_first_where(all, p, i as int);
            }
            return true;
        }
        i = i + 1;
    }
    proof {
        lemma_first_where(all, p, i as int);
    }
    false
}

/// Whether one of the lines tells a short flag.
fn has_short_option(ls: &Vec<&[char]>) -> (b: bool)
    ensures
        b == any_line(slice_views(ls@), |l: Seq<char>| tells_short(l)),
{
    let ghost all = slice_views(ls@);
    let ghost p = |l: Seq<char>| tells_short(l);
    let mut i: usize = 0;
    while i < ls.len()
        invariant
            all == slice_views(ls@),
            p == (|l: Seq<char>| tells_short(l)),
            i <= ls@.len() == all.len(),
            forall|j: int| 0 <= j < i ==> !p(#[trigger] all[j]),
        decreases ls@.len() - i,
    {
        assert(all[i as int] == ls@[i as int]@);
        if find_short(&flag_tokens(trim(ls[i]))).is_some() {
            proof {
                lemma_first_where(all, p, i as int);
            }
            return true;
        }
        i = i + 1;
    }
    proof {
        lemma_first_where(all, p, i as int);
    }
    false
}

/// The style of a help text, given whether a usage heading stands alone on its
/// line.
pub fn style_of(text: &str, docopt: bool) -> (r: HelpFormat)
    ensures
        r == style(text@, docopt),
{
    if docopt {
        return HelpFormat::Docopt;
    }
    let chars: Vec<char> = chars_of(text);
    let s: &[char] = chars.as_slice();
    let lower: Vec<char> = to_lower(s);
    let ls: Vec<&[char]> = split_lines(s);
    if contains(lower.as_slice(), chars_of("optional arguments:").as_slice()) || contains(
        lower.as_slice(),
        chars_of("positional arguments:").as_slice(),
    ) || (has_usage_line(&ls) && contains(s, chars_of("\noptions:").as_slice())) {
        HelpFormat::Argparse
    } else if has_options_section(&ls) && has_short_option(&ls) {
        HelpFormat::Clap
    } else {
        HelpFormat::Unknown
    }
}

/// The style of a help text.
pub fn detect_format(text: &str) -> (r: HelpFormat)
    ensures
        r == style(text@, matches_in(usage_pattern(), text@)),
{
    style_of(text, Pattern::new(r"(?m)^Usage:\s*\n\s+\S").matches(text))
}

/// What a help text in sections tells; none where a line cannot be read.
fn parse_styled(text: &[char], format: HelpFormat) -> (r: Option<ParsedHelp>)
    ensures
        match r {
            Some(h) => sectioned(text@, format, command_headings(), option_headings(format))
                == Some(h@),
            None => sectioned(text@, format, command_headings(), option_headings(format)) is None,
        },
{
    let commands: [&str; 2] = ["commands", "subcommands"];
    let clap: [&str; 1] = ["options"];
    let argparse: [&str; 2] = ["options", "optional arguments"];
    let none: [&str; 0] = [];
    proof {
        assert(str_views(commands@) =~= command_headings());
        assert(str_views(clap@) =~= option_headings(HelpFormat::Clap));
        assert(str_views(argparse@) =~= option_headings(HelpFormat::Argparse));
        assert(str_views(none@) =~= option_headings(HelpFormat::Unknown));
    }
    match format {
        HelpFormat::Clap => parse_sectioned(text, format, commands.as_slice(), clap.as_slice()),
        HelpFormat::Argparse => parse_sectioned(
            text,
            format,
            commands.as_slice(),
            argparse.as_slice(),
        ),
        _ => parse_sectioned(text, format, commands.as_slice(), none.as_slice()),
    }
}

/// What a help text with options and commands tells. Its short flags are
/// ASCII.
pub fn parse_clap(text: &str) -> (r: ParsedHelp)
    requires
        sectioned(
            text@,
            HelpFormat::Clap,
            command_headings(),
            option_headings(HelpFormat::Clap),
        ) is Some,
    ensures
        sectioned(
            text@,
            HelpFormat::Clap,
            command_headings(),
            option_headings(HelpFormat::Clap),
        ) == Some(r@),
{
    match parse_styled(chars_of(text).as_slice(), HelpFormat::Clap) {
        Some(h) => h,
        None => ParsedHelp::empty(HelpFormat::Clap),
    }
}

/// What a help text with optional and positional arguments tells. Its short
/// flags are ASCII.
pub fn parse_argparse(text: &str) -> (r: ParsedHelp)
    requires
        sectioned(
            text@,
            HelpFormat::Argparse,
            command_headings(),
            option_headings(HelpFormat::Argparse),
        ) is Some,
    ensures
        sectioned(
            text@,
            HelpFormat::Argparse,
            command_headings(),
            option_headings(HelpFormat::Argparse),
        ) == Some(r@),
{
    match parse_styled(chars_of(text).as_slice(), HelpFormat::Argparse) {
        Some(h) => h,
        None => ParsedHelp::empty(HelpFormat::Argparse),
    }
}

/// What a help text that shows its usage tells. Its short flags are ASCII.
pub fn parse_docopt(text: &str) -> (r: ParsedHelp)
    requires
        read_manual(lines(text@), lines(text@).len() as int) is Some,
    ensures
        manual(text@) == Some(r@),
{
    match parse_manual(chars_of(text).as_slice()) {
        Some(h) => h,
        None => ParsedHelp::empty(HelpFormat::Docopt),
    }
}

/// What a help text without escape sequences tells: none where a line cannot
/// be read. `docopt` tells whether a usage heading stands alone on its line,
/// `braces` what stands in its braces.
pub fn parse_text(text: &str, docopt: bool, braces: &Vec<String>) -> (r: Option<ParsedHelp>)
    ensures
        match r {
            Some(h) => told(text@, docopt, views(braces@)) == Some(h@),
            None => told(text@, docopt, views(braces@)) is None,
        },
{
    let format: HelpFormat = style_of(text, docopt);
    let chars: Vec<char> = chars_of(text);
    let parsed: Option<ParsedHelp> = if format == HelpFormat::Docopt {
        parse_manual(chars.as_slice())
    } else {
        parse_styled(chars.as_slice(), format)
    };
    match parsed {
        None => None,
        Some(h) => {
            let mut help: ParsedHelp = h;
            add_brace_flags(&mut help.flags, braces);
            assert(views(braces@).len() == braces@.len());
            Some(help)
        },
    }
}

/// A help text without the escape sequences in it.
pub fn strip_ansi(input: &str) -> (r: String)
    ensures
        r@ == unescaped(input@),
{
    let escapes: Pattern = Pattern::new(
        r"\x1b\[[0-9;?]*[a-zA-Z]|\x1b\][^\x07\x1b]*(?:\x07|\x1b\\)|\x1b[()][\x20-\x7e]",
    );
    proof {
        reveal_strlit("");
    }
    escapes.replaced(input, "")
}

/// What a help text tells: none where a line cannot be read.
pub fn try_parse(help_output: &str) -> (r: Option<ParsedHelp>)
    ensures
        match r {
            Some(h) => help_of(help_output@) == Some(h@),
            None => help_of(help_output@) is None,
        },
{
    let text: String = strip_ansi(help_output);
    let docopt: bool = Pattern::new(r"(?m)^Usage:\s*\n\s+\S").matches(text.as_str());
    let braces: Vec<String> = Pattern::new(r"\{(-[A-Za-z0-9][^}]*)\}").groups(text.as_str(), 1);
    parse_text(text.as_str(), docopt, &braces)
}

/// What a help text tells. Every line of it can be read: its short flags are
/// ASCII.
pub fn parse(help_output: &str) -> (r: ParsedHelp)
    requires
        help_of(help_output@) is Some,
    ensures
        help_of(help_output@) == Some(r@),
{
    match try_parse(help_output) {
        Some(h) => h,
        None => ParsedHelp::empty(HelpFormat::Unknown),
    }
}

/// Escape sequences do not matter: a text with some between its characters tells
/// what it tells without them.
pub proof fn law_escapes_do_not_matter(bits: Seq<Bit>)
    requires
        forall|i: int| 0 <= i < bits.len() ==> is_proper(#[trigger] bits[i]),
    ensures
        help_of(written(bits)) == help_of(shown(bits)),
{
    law_escapes_come_out(bits);
}

/// The list with one more suggestion, if it begins with the token and its text
/// is new.
pub open spec fn offered(
    s: Seq<SuggestionView>,
    text: Seq<char>,
    description: Seq<char>,
    group: SuggestionGroup,
    token: Seq<char>,
) -> Seq<SuggestionView> {
    if (token.len() > 0 && !begins(text, token)) || (exists|i: int|
        0 <= i < s.len() && (#[trigger] s[i]).text == text) {
        s
    } else {
        s.push(SuggestionView { text, display: text, description, group })
    }
}

/// The list with a flag's names.
pub open spec fn with_flag(s: Seq<SuggestionView>, f: Flag, token: Seq<char>) -> Seq<SuggestionView> {
    let first = match f.short {
        Some(t) => offered(s, t, f.description, SuggestionGroup::Flag, token),
        None => s,
    };
    match f.long {
        Some(t) => offered(first, t, f.description, SuggestionGroup::Flag, token),
        None => first,
    }
}

/// The names of the first `n` flags.
pub open spec fn flag_offers(s: Seq<Flag>, n: int, token: Seq<char>) -> Seq<SuggestionView>
    decreases n,
{
    if n <= 0 {
        seq![]
    } else {
        with_flag(flag_offers(s, n - 1, token), s[n - 1], token)
    }
}

/// The list with the names of the first `n` subcommands.
pub open spec fn sub_offers(s: Seq<SuggestionView>, subs: Seq<Sub>, n: int, token: Seq<char>) -> Seq<
    SuggestionView,
>
    decreases n,
{
    if n <= 0 {
        s
    } else {
        offered(
            sub_offers(s, subs, n - 1, token),
            subs[n - 1].name,
            subs[n - 1].description,
            SuggestionGroup::Subcommand,
            token,
        )
    }
}

/// The list with the names of the first `n` arguments.
pub open spec fn arg_offers(s: Seq<SuggestionView>, args: Seq<Arg>, n: int, token: Seq<char>) -> Seq<
    SuggestionView,
>
    decreases n,
{
    if n <= 0 {
        s
    } else {
        offered(
            arg_offers(s, args, n - 1, token),
            args[n - 1].name,
            args[n - 1].description,
            SuggestionGroup::Dynamic,
            token,
        )
    }
}

/// What a help text offers for a token: its flags, subcommands and arguments,
/// in this order, none twice.
pub open spec fn offers_of(h: Help, token: Seq<char>) -> Seq<SuggestionView> {
    arg_offers(
        sub_offers(
            flag_offers(h.flags, h.flags.len() as int, token),
            h.subs,
            h.subs.len() as int,
            token,
        ),
        h.args,
        h.args.len() as int,
        token,
    )
}

/// Adds a suggestion, if it begins with the token and its text is new.
pub(crate) fn push_suggestion(
    list: &mut Vec<Suggestion>,
    text: &str,
    description: &str,
    group: SuggestionGroup,
    token: &str,
)
    ensures
        suggestion_views(final(list)@) == offered(
            suggestion_views(old(list)@),
            text@,
            description@,
            group,
            token@,
        ),
{
    let ghost all = suggestion_views(list@);
    if !token.is_empty() && !crate::text::str_starts_with(text, token) {
        return;
    }
    let owned: String = text.to_owned();
    let mut i: usize = 0;
    while i < list.len()
        invariant
            list@ == old(list)@,
            all == suggestion_views(list@),
            owned@ == text@,
            i <= list@.len() == all.len(),
            token@.len() == 0 || begins(text@, token@),
            forall|j: int| 0 <= j < i ==> (#[trigger] all[j]).text != text@,
        decreases list@.len() - i,
    {
        assert(all[i as int] == list@[i as int]@);
        if list[i].text == owned {
            assert(all[i as int].text == text@);
            return;
        }
        i = i + 1;
    }
    let s = Suggestion {
        text: owned,
        display: text.to_owned(),
        description: description.to_owned(),
        group,
    };
    proof {
        assert(s@ =~= SuggestionView {
            text: text@,
            display: text@,
            description: description@,
            group,
        });
        assert(suggestion_views(list@.push(s)) =~= all.push(s@));
    }
    list.push(s);
}

/// What a help text offers for a token.
pub fn to_suggestions(parsed: &ParsedHelp, current_token: &str) -> (r: Vec<Suggestion>)
    ensures
        suggestion_views(r@) == offers_of(parsed@, current_token@),
{
    let ghost h = parsed@;
    let ghost token = current_token@;
    let mut out: Vec<Suggestion> = Vec::new();
    let mut i: usize = 0;
    assert(suggestion_views(out@) =~= seq![]);
    while i < parsed.flags.len()
        invariant
            h == parsed@,
            token == current_token@,
            i <= parsed.flags@.len() == h.flags.len(),
            suggestion_views(out@) == flag_offers(h.flags, i as int, token),
        decreases parsed.flags@.len() - i,
    {
        let f: &FlagSpec = &parsed.flags[i];
        assert(h.flags[i as int] == f@);
        if let Some(t) = &f.short {
            push_suggestion(
                &mut out,
                t.as_str(),
                f.description.as_str(),
                SuggestionGroup::Flag,
                current_token,
            );
        }
        if let Some(t) = &f.long {
            push_suggestion(
                &mut out,
                t.as_str(),
                f.description.as_str(),
                SuggestionGroup::Flag,
                current_token,
            );
        }
        i = i + 1;
    }
    let ghost flags = suggestion_views(out@);
    let mut j: usize = 0;
    while j < parsed.subcommands.len()
        invariant
            h == parsed@,
            token == current_token@,
            j <= parsed.subcommands@.len() == h.subs.len(),
            suggestion_views(out@) == sub_offers(flags, h.subs, j as int, token),
        decreases parsed.subcommands@.len() - j,
    {
        let c: &SubcommandSpec = &parsed.subcommands[j];
        assert(h.subs[j as int] == c@);
        push_suggestion(
            &mut out,
            c.name.as_str(),
            c.description.as_str(),
            SuggestionGroup::Subcommand,
            current_token,
        );
        j = j + 1;
    }
    let ghost subs = suggestion_views(out@);
    let mut k: usize = 0;
    while k < parsed.positional_args.len()
        invariant
            h == parsed@,
            token == current_token@,
            k <= parsed.positional_args@.len() == h.args.len(),
            suggestion_views(out@) == arg_offers(subs, h.args, k as int, token),
        decreases parsed.positional_args@.len() - k,
    {
        let a: &ArgSpec = &parsed.positional_args[k];
        assert(h.args[k as int] == a@);
        push_suggestion(
            &mut out,
            a.name.as_str(),
            a.description.as_str(),
            SuggestionGroup::Dynamic,
            current_token,
        );
        k = k + 1;
    }
    out
}

/// What is wrong with a description of a help text, in words.
pub open spec fn fault(h: Help) -> Option<Seq<char>> {
    if exists|i: int|
        0 <= i < h.flags.len() && (#[trigger] h.flags[i]).short is None && h.flags[i].long is None {
        Some("flag must have short or long name"@)
    } else if exists|i: int|
        0 <= i < h.flags.len() && (#[trigger] h.flags[i]).takes_value != (
        h.flags[i].value_name is Some) {
        Some("flag takes_value must match value_name"@)
    } else if (exists|i: int| 0 <= i < h.subs.len() && (#[trigger] h.subs[i]).name.len() == 0) || (
    exists|i: int| 0 <= i < h.args.len() && (#[trigger] h.args[i]).name.len() == 0) {
        Some("parsed names must not be empty"@)
    } else {
        None
    }
}

/// Holds a description of a help text to its rules: every flag has a name, and
/// a name of a value where it takes one; no other name is empty.
pub fn validate_parsed_help(parsed: &ParsedHelp) -> (r: Result<(), ParseErr>)
    ensures
        match r {
            Ok(_) => fault(parsed@) is None,
            Err(e) => fault(parsed@) == Some(e.message@),
        },
{
    let ghost h = parsed@;
    let mut i: usize = 0;
    while i < parsed.flags.len()
        invariant
            h == parsed@,
            i <= parsed.flags@.len() == h.flags.len(),
            forall|j: int|
                0 <= j < i ==> !((#[trigger] h.flags[j]).short is None && h.flags[j].long is None),
        decreases parsed.flags@.len() - i,
    {
        assert(h.flags[i as int] == parsed.flags@[i as int]@);
        if parsed.flags[i].short.is_none() && parsed.flags[i].long.is_none() {
            assert(h.flags[i as int].short is None);
            return Err(ParseErr { message: "flag must have short or long name".to_owned() });
        }
        i = i + 1;
    }
    let mut j: usize = 0;
    while j < parsed.flags.len()
        invariant
            h == parsed@,
            j <= parsed.flags@.len() == h.flags.len(),
            forall|k: int|
                0 <= k < h.flags.len() ==> !((#[trigger] h.flags[k]).short is None
                    && h.flags[k].long is None),
            forall|k: int|
                0 <= k < j ==> (#[trigger] h.flags[k]).takes_value == (
                h.flags[k].value_name is Some),
        decreases parsed.flags@.len() - j,
    {
        assert(h.flags[j as int] == parsed.flags@[j as int]@);
        if parsed.flags[j].takes_value != parsed.flags[j].value_name.is_some() {
            assert(h.flags[j as int].takes_value != (h.flags[j as int].value_name is Some));
            return Err(ParseErr { message: "flag takes_value must match value_name".to_owned() });
        }
        j = j + 1;
    }
    let mut k: usize = 0;
    while k < parsed.subcommands.len()
        invariant
            h == parsed@,
            k <= parsed.subcommands@.len() == h.subs.len(),
            forall|m: int|
                0 <= m < h.flags.len() ==> !((#[trigger] h.flags[m]).short is None
                    && h.flags[m].long is None),
            forall|m: int|
                0 <= m < h.flags.len() ==> (#[trigger] h.flags[m]).takes_value == (
                h.flags[m].value_name is Some),
            forall|m: int| 0 <= m < k ==> (#[trigger] h.subs[m]).name.len() > 0,
        decreases parsed.subcommands@.len() - k,
    {
        assert(h.subs[k as int] == parsed.subcommands@[k as int]@);
        if parsed.subcommands[k].name.as_str().is_empty() {
            assert(h.subs[k as int].name.len() == 0);
            return Err(ParseErr { message: "parsed names must not be empty".to_owned() });
        }
        k = k + 1;
    }
    let mut l: usize = 0;
    while l < parsed.positional_args.len()
        invariant
            h == parsed@,
            l <= parsed.positional_args@.len() == h.args.len(),
            forall|m: int|
                0 <= m < h.flags.len() ==> !((#[trigger] h.flags[m]).short is None
                    && h.flags[m].long is None),
            forall|m: int|
                0 <= m < h.flags.len() ==> (#[trigger] h.flags[m]).takes_value == (
                h.flags[m].value_name is Some),
            forall|m: int| 0 <= m < h.subs.len() ==> (#[trigger] h.subs[m]).name.len() > 0,
            forall|m: int| 0 <= m < l ==> (#[trigger] h.args[m]).name.len() > 0,
        decreases parsed.positional_args@.len() - l,
    {
        assert(h.args[l as int] == parsed.positional_args@[l as int]@);
        if parsed.positional_args[l].name.as_str().is_empty() {
            assert(h.args[l as int].name.len() == 0);
            return Err(ParseErr { message: "parsed names must not be empty".to_owned() });
        }
        l = l + 1;
    }
    Ok(())
}

/// The suggestions have different texts, and each begins with the token.
pub open spec fn well_offered(s: Seq<SuggestionView>, token: Seq<char>) -> bool {
    &&& forall|i: int, j: int|
        0 <= i < j < s.len() ==> (#[trigger] s[i]).text != (#[trigger] s[j]).text
    &&& forall|i: int|
        0 <= i < s.len() ==> token.len() == 0 || begins((#[trigger] s[i]).text, token)
}

/// One more suggestion keeps the texts different.
pub proof fn law_offered_once(
    s: Seq<SuggestionView>,
    text: Seq<char>,
    description: Seq<char>,
    group: SuggestionGroup,
    token: Seq<char>,
)
    requires
        well_offered(s, token),
    ensures
        well_offered(offered(s, text, description, group, token), token),
{
    let t = offered(s, text, description, group, token);
    assert forall|i: int, j: int| 0 <= i < j < t.len() implies (#[trigger] t[i]).text != (
    #[trigger] t[j]).text by {
        if j < s.len() {
            assert(s[i].text != s[j].text);
        }
    }
}

proof fn lemma_flag_offers(s: Seq<Flag>, n: int, token: Seq<char>)
    requires
        n <= s.len(),
    ensures
        well_offered(flag_offers(s, n, token), token),
    decreases n,
{
    if n > 0 {
        lemma_flag_offers(s, n - 1, token);
        let before = flag_offers(s, n - 1, token);
        let f = s[n - 1];
        let first = match f.short {
            Some(t) => offered(before, t, f.description, SuggestionGroup::Flag, token),
            None => before,
        };
        if let Some(t) = f.short {
            law_offered_once(before, t, f.description, SuggestionGroup::Flag, token);
        }
        if let Some(t) = f.long {
            law_offered_once(first, t, f.description, SuggestionGroup::Flag, token);
        }
    }
}

proof fn lemma_sub_offers(s: Seq<SuggestionView>, subs: Seq<Sub>, n: int, token: Seq<char>)
    requires
        n <= subs.len(),
        well_offered(s, token),
    ensures
        well_offered(sub_offers(s, subs, n, token), token),
    decreases n,
{
    if n > 0 {
        lemma_sub_offers(s, subs, n - 1, token);
        law_offered_once(
            sub_offers(s, subs, n - 1, token),
            subs[n - 1].name,
            subs[n - 1].description,
            SuggestionGroup::Subcommand,
            token,
        );
    }
}

proof fn lemma_arg_offers(s: Seq<SuggestionView>, args: Seq<Arg>, n: int, token: Seq<char>)
    requires
        n <= args.len(),
        well_offered(s, token),
    ensures
        well_offered(arg_offers(s, args, n, token), token),
    decreases n,
{
    if n > 0 {
        lemma_arg_offers(s, args, n - 1, token);
        law_offered_once(
            arg_offers(s, args, n - 1, token),
            args[n - 1].name,
            args[n - 1].description,
            SuggestionGroup::Dynamic,
            token,
        );
    }
}

/// What a help text offers for a token has no text twice, and every text
/// begins with the token.
pub proof fn law_offers_differ(h: Help, token: Seq<char>)
    ensures
        well_offered(offers_of(h, token), token),
{
    lemma_flag_offers(h.flags, h.flags.len() as int, token);
    let flags = flag_offers(h.flags, h.flags.len() as int, token);
    lemma_sub_offers(flags, h.subs, h.subs.len() as int, token);
    lemma_arg_offers(
        sub_offers(flags, h.subs, h.subs.len() as int, token),
        h.args,
        h.args.len() as int,
        token,
    );
}

proof fn lemma_skip_back_keeps_first(s: Seq<char>, p: spec_fn(char) -> bool)
    requires
        s.len() > 0,
        !p(s[0]),
    ensures
        skip_back(s, p).len() > 0,
        skip_back(s, p)[0] == s[0],
    decreases s.len(),
{
    if s.len() > 1 && p(s.last()) {
        lemma_skip_back_keeps_first(s.drop_last(), p);
    }
}

proof fn lemma_skip_front_first(s: Seq<char>, p: spec_fn(char) -> bool)
    ensures
        skip_front(s, p).len() > 0 ==> !p(skip_front(s, p)[0]),
        s.len() > 0 && !p(s[0]) ==> skip_front(s, p) == s,
    decreases s.len(),
{
    if s.len() > 0 && p(s[0]) {
        lemma_skip_front_first(s.skip(1), p);
    }
}

/// A name that stands in front of a gap is not empty.
proof fn lemma_name_not_empty(line: Seq<char>)
    ensures
        name_line(line) matches Some((name, _)) ==> name.len() > 0,
{
    let t = trimmed(line);
    let p = white();
    let front = skip_front(line, p);
    lemma_skip_front_first(line, p);
    if front.len() > 0 {
        lemma_skip_back_keeps_first(front, p);
        let k = gap(t, 0);
        if k < t.len() {
            lemma_gap_within(t, 0);
            let a = t.take(k);
            assert(a[0] == t[0]);
            lemma_skip_front_first(a, p);
            lemma_skip_back_keeps_first(a, p);
        }
    } else {
        assert(t =~= seq![]);
    }
}

proof fn lemma_gap_within(s: Seq<char>, i: int)
    requires
        0 <= i,
    ensures
        gap(s, i) < s.len() ==> i <= gap(s, i) && ascii_white(s[gap(s, i)]),
    decreases s.len() - i,
{
    if i + 1 < s.len() && !(ascii_white(s[i]) && ascii_white(s[i + 1])) {
        lemma_gap_within(s, i + 1);
    }
}

proof fn lemma_line_keeps_valid(
    r: Reading,
    line: Seq<char>,
    commands: Seq<Seq<char>>,
    options: Seq<Seq<char>>,
)
    requires
        fault(r.help) is None,
        r.last matches Some(i) ==> 0 <= i < r.help.flags.len(),
    ensures
        r.line(line, commands, options) matches Some(n) ==> fault(n.help) is None && (
        n.last matches Some(i) ==> 0 <= i < n.help.flags.len()),
{
    lemma_name_not_empty(line);
    if let Some(n) = r.line(line, commands, options) {
        let h = n.help;
        assert forall|i: int| 0 <= i < h.flags.len() implies !((#[trigger] h.flags[i]).short is None
            && h.flags[i].long is None) && h.flags[i].takes_value == (
        h.flags[i].value_name is Some) by {
            if i < r.help.flags.len() {
                assert(!(r.help.flags[i].short is None && r.help.flags[i].long is None));
                assert(r.help.flags[i].takes_value == (r.help.flags[i].value_name is Some));
            }
        }
        assert forall|i: int| 0 <= i < h.subs.len() implies (#[trigger] h.subs[i]).name.len() > 0 by {
            if i < r.help.subs.len() {
                assert(r.help.subs[i].name.len() > 0);
            }
        }
        assert forall|i: int| 0 <= i < h.args.len() implies (#[trigger] h.args[i]).name.len() > 0 by {
            if i < r.help.args.len() {
                assert(r.help.args[i].name.len() > 0);
            }
        }
    }
}

proof fn lemma_sections_valid(
    ls: Seq<Seq<char>>,
    n: int,
    format: HelpFormat,
    commands: Seq<Seq<char>>,
    options: Seq<Seq<char>>,
)
    requires
        n <= ls.len(),
    ensures
        read_sections(ls, n, format, commands, options) matches Some(r) ==> fault(r.help) is None
            && (r.last matches Some(i) ==> 0 <= i < r.help.flags.len()),
    decreases n,
{
    if n > 0 {
        lemma_sections_valid(ls, n - 1, format, commands, options);
        if let Some(r) = read_sections(ls, n - 1, format, commands, options) {
            lemma_line_keeps_valid(r, ls[n - 1], commands, options);
        }
    }
}

proof fn lemma_braces_valid(h: Help, braces: Seq<Seq<char>>, n: int)
    requires
        fault(h) is None,
        n <= braces.len(),
    ensures
        fault(Help { flags: with_braces(h.flags, braces, n), ..h }) is None,
    decreases n,
{
    if n > 0 {
        lemma_braces_valid(h, braces, n - 1);
        let before = Help { flags: with_braces(h.flags, braces, n - 1), ..h };
        let after = Help { flags: with_braces(h.flags, braces, n), ..h };
        assert forall|i: int| 0 <= i < after.flags.len() implies !((
        #[trigger] after.flags[i]).short is None && after.flags[i].long is None)
            && after.flags[i].takes_value == (after.flags[i].value_name is Some) by {
            if i < before.flags.len() {
                assert(!(before.flags[i].short is None && before.flags[i].long is None));
                assert(before.flags[i].takes_value == (before.flags[i].value_name is Some));
            }
        }
        assert forall|i: int| 0 <= i < after.subs.len() implies (
        #[trigger] after.subs[i]).name.len() > 0 by {
            assert(before.subs[i].name.len() > 0);
        }
        assert forall|i: int| 0 <= i < after.args.len() implies (
        #[trigger] after.args[i]).name.len() > 0 by {
            assert(before.args[i].name.len() > 0);
        }
    }
}

/// What is read of a help text in sections keeps the rules of such
/// descriptions.
pub proof fn law_read_help_is_valid(text: Seq<char>, braces: Seq<Seq<char>>)
    ensures
        told(text, false, braces) matches Some(h) ==> fault(h) is None,
{
    let format = style(text, false);
    let ls = lines(text);
    lemma_sections_valid(
        ls,
        ls.len() as int,
        format,
        command_headings(),
        option_headings(format),
    );
    if let Some(h) = sectioned(text, format, command_headings(), option_headings(format)) {
        lemma_braces_valid(h, braces, braces.len() as int);
    }
}

} // verus!
