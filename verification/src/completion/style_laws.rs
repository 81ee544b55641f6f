//! Headings, styles and usages of help texts, and what is made of them.

use crate::completion::help_laws::{spaces, lemma_trimmed};
use crate::completion::parser::{
    brace_cut, clean_value, command_headings, fault, flag_line, has_flag, heading, is_command,
    is_long_exact, is_name_char, is_short_exact, is_options_heading, is_upper, is_usage_line,
    is_usage_sub, is_value, long_name, manual, named, opens, option_headings, read_manual,
    sectioned, style, tells_short, told, usage_marks, value_behind_equals, value_behind_flag,
    value_name, with_arg, with_braces, with_sub, with_usage_subs, with_usages, with_values, Arg,
    Flag, FlagLine, Help, HelpFormat, Manual, Part, Reading, Sub,
};
use crate::completion::pattern::finds_in;
use crate::completion::section_laws::{
    ended, flags_meant, is_one_line, is_told, is_told_flag, lemma_lines_are_read, lemma_told_one_line,
    told_line, Told,
};
use crate::seqs::{first_where, lemma_first_where, lemma_first_where_is};
use crate::text::{
    begins, ends, fields, lines, lowered, occurs, one_of, strip, trimmed, white, words,
};
use crate::text_laws::{
    firm, is_blank_char, law_halves, law_trimmed, lemma_fields_end, lemma_fields_word,
    lemma_strip_none,
};
use vstd::prelude::*;

verus! {

/// A heading is a name in whatever case with a colon behind it: of subcommands,
/// of options as the style calls them, or of arguments. Nothing else is one.
pub proof fn law_headings(name: Seq<char>, options: Seq<Seq<char>>, t: Seq<char>, k: int)
    requires
        firm(name),
        name.len() > 0,
    ensures
        ({
            let h = heading(name.push(':'), command_headings(), options);
            let l = lowered(name);
            let commands = l == lowered("commands"@) || l == lowered("subcommands"@);
            let arguments = l == lowered("arguments"@) || l == lowered("positional arguments"@);
            &&& commands ==> h == Some(Part::Subcommands)
            &&& !commands && 0 <= k < options.len() && lowered(options[k]) == l ==> h == Some(
                Part::Options,
            )
            &&& !commands && arguments && (forall|i: int|
                0 <= i < options.len() ==> lowered(#[trigger] options[i]) != l) ==> h == Some(
                Part::Positionals,
            )
            &&& !commands && !arguments && (forall|i: int|
                0 <= i < options.len() ==> lowered(#[trigger] options[i]) != l) ==> h is None
        }),
        t.len() > 0 && t.last() != ':' ==> heading(t, command_headings(), options) is None,
{
    let none = Seq::<char>::empty();
    let s = name.push(':');
    assert(s.drop_last() =~= name);
    law_trimmed(none, name, none);
    assert(none + name + none =~= name);
    let c = command_headings();
    assert(c[0] == "commands"@ && c[1] == "subcommands"@ && c.len() == 2);
    if named(c, name) {
        let i = choose|i: int| 0 <= i < c.len() && lowered(#[trigger] c[i]) == lowered(name);
        assert(i == 0 || i == 1);
    }
}

/// The options stand under `options`, and in the style of Python's programs also
/// under `optional arguments`.
pub proof fn law_option_headings(l: Seq<char>)
    ensures
        option_headings(HelpFormat::Clap) == seq!["options"@],
        option_headings(HelpFormat::Argparse) == seq!["options"@, "optional arguments"@],
        option_headings(HelpFormat::Unknown).len() == 0,
{
}

/// Under the options a line that stands further in and names no flag goes on
/// with the description of the flag before it, and changes nothing else.
pub proof fn law_description_goes_on(
    r: Reading,
    indent: nat,
    d: Seq<char>,
    commands: Seq<Seq<char>>,
    options: Seq<Seq<char>>,
    i: int,
)
    requires
        r.part == Part::Options,
        r.last == Some(i),
        0 <= i < r.help.flags.len(),
        indent > 0,
        is_told(d),
        d[0] != '-',
    ensures
        match r.line(spaces(indent) + d, commands, options) {
            Some(next) => {
                &&& next.part == r.part && next.last == r.last
                &&& next.help.format == r.help.format && next.help.subs == r.help.subs
                    && next.help.args == r.help.args
                &&& next.help.flags.len() == r.help.flags.len()
                &&& forall|j: int|
                    0 <= j < r.help.flags.len() && j != i ==> #[trigger] next.help.flags[j]
                        == r.help.flags[j]
                &&& next.help.flags[i].short == r.help.flags[i].short
                &&& next.help.flags[i].long == r.help.flags[i].long
                &&& next.help.flags[i].value_name == r.help.flags[i].value_name
                &&& next.help.flags[i].takes_value == r.help.flags[i].takes_value
                &&& r.help.flags[i].description.len() > 0 ==> next.help.flags[i].description
                    == r.help.flags[i].description + seq![' '] + d
                &&& r.help.flags[i].description.len() == 0 ==> next.help.flags[i].description == d
            },
            None => false,
        },
{
    let line = spaces(indent) + d;
    lemma_trimmed(indent, d, 0);
    assert(spaces(indent) + d + spaces(0) =~= line);
    assert(line[0] == ' ');
    let old = r.help.flags[i].description;
    assert(old.push(' ') =~= old + seq![' ']);
}

/// A blank line changes nothing, nor does a flag whose two names are those of one
/// that is there; a subcommand or an argument counts once under its name.
pub proof fn law_names_count_once(
    r: Reading,
    line: Seq<char>,
    commands: Seq<Seq<char>>,
    options: Seq<Seq<char>>,
    subs: Seq<Sub>,
    args: Seq<Arg>,
    name: Seq<char>,
    description: Seq<char>,
    required: bool,
    i: int,
)
    ensures
        trimmed(line).len() == 0 ==> r.line(line, commands, options) == Some(r),
        trimmed(line).len() > 0 && trimmed(line).last() != ':' && 0 <= i < r.help.flags.len() && (
        match flag_line(line) {
            FlagLine::Present(f) => f.short == r.help.flags[i].short && f.long
                == r.help.flags[i].long,
            _ => false,
        }) ==> r.line(line, commands, options) == Some(r),
        0 <= i < subs.len() && subs[i].name == name ==> with_sub(subs, name, description) == subs,
        0 <= i < args.len() && args[i].name == name ==> with_arg(args, name, description, required)
            == args,
        (forall|j: int| 0 <= j < args.len() ==> (#[trigger] args[j]).name != name) ==> with_arg(
            args,
            name,
            description,
            required,
        ) == args.push(Arg { name, description, required }),
        is_word_of_command(name) && (forall|j: int|
            0 <= j < subs.len() ==> (#[trigger] subs[j]).name != name) ==> with_sub(
            subs,
            name,
            description,
        ) == subs.push(Sub { name, description }),
        !is_word_of_command(name) ==> with_sub(subs, name, description) == subs,
{
    if trimmed(line).len() > 0 && 0 <= i < r.help.flags.len() {
        if let FlagLine::Present(f) = flag_line(line) {
            if f.short == r.help.flags[i].short && f.long == r.help.flags[i].long {
                assert(has_flag(r.help.flags, f.short, f.long));
            }
        }
    }
    assert(is_word_of_command(name) <==> is_command(name)) by {
        assert(forall|k: int|
            #![trigger name[k]]
            0 <= k < name.len() ==> is_name_char(name[k]) == is_command_char(name[k]));
        if is_command(name) {
            assert forall|k: int| 0 <= k < name.len() implies is_command_char(
                #[trigger] name[k],
            ) by {
                assert(is_name_char(name[k]));
            }
        }
        if is_word_of_command(name) {
            assert forall|k: int| 0 <= k < name.len() implies is_name_char(#[trigger] name[k]) by {
                assert(is_command_char(name[k]));
            }
        }
    }
}

/// An ASCII letter or digit, a dash or an underscore.
pub open spec fn is_command_char(c: char) -> bool {
    let v = c as u32;
    0x41 <= v <= 0x5a || 0x61 <= v <= 0x7a || 0x30 <= v <= 0x39 || c == '-' || c == '_'
}

/// What can be the name of a command.
pub open spec fn is_word_of_command(s: Seq<char>) -> bool {
    s.len() > 0 && forall|i: int| 0 <= i < s.len() ==> is_command_char(#[trigger] s[i])
}

/// The style of a help text: a usage heading alone on its line tells docopt's;
/// `optional arguments:` or `positional arguments:` in whatever case, or a line
/// that begins with `usage:` together with a heading `options:`, tells that of
/// Python's programs; a heading of options together with a short flag tells
/// clap's.
pub proof fn law_style(text: Seq<char>, docopt: bool, i: int, j: int)
    ensures
        docopt ==> style(text, docopt) == HelpFormat::Docopt,
        !docopt && occurs(lowered(text), "optional arguments:"@) ==> style(text, docopt)
            == HelpFormat::Argparse,
        !docopt && occurs(lowered(text), "positional arguments:"@) ==> style(text, docopt)
            == HelpFormat::Argparse,
        !docopt && 0 <= i < lines(text).len() && is_usage_line(lines(text)[i]) && occurs(
            text,
            "\noptions:"@,
        ) ==> style(text, docopt) == HelpFormat::Argparse,
        !docopt && style(text, docopt) != HelpFormat::Argparse && 0 <= i < lines(text).len()
            && is_options_heading(lines(text)[i]) && 0 <= j < lines(text).len() && tells_short(
            lines(text)[j],
        ) ==> style(text, docopt) == HelpFormat::Clap,
        style(text, docopt) == HelpFormat::Argparse ==> !docopt && (occurs(
            lowered(text),
            "optional arguments:"@,
        ) || occurs(lowered(text), "positional arguments:"@) || occurs(text, "\noptions:"@)),
        style(text, docopt) == HelpFormat::Clap ==> (exists|k: int|
            0 <= k < lines(text).len() && is_options_heading(#[trigger] lines(text)[k])) && (exists|
            k: int,
        |
            0 <= k < lines(text).len() && tells_short(#[trigger] lines(text)[k])),
{
    let ls = lines(text);
    let (a, b, c) = (
        |l: Seq<char>| is_usage_line(l),
        |l: Seq<char>| is_options_heading(l),
        |l: Seq<char>| tells_short(l),
    );
    lemma_first_where_is(ls, a);
    lemma_first_where_is(ls, b);
    lemma_first_where_is(ls, c);
    if 0 <= i < ls.len() {
        assert(is_usage_line(ls[i]) ==> a(ls[i]));
        assert(is_options_heading(ls[i]) ==> b(ls[i]));
    }
    if 0 <= j < ls.len() {
        assert(tells_short(ls[j]) ==> c(ls[j]));
    }
    if let Some(k) = first_where(ls, b) {
        assert(b(ls[k]));
        assert(is_options_heading(ls[k]));
    }
    if let Some(k) = first_where(ls, c) {
        assert(c(ls[k]));
        assert(tells_short(ls[k]));
    }
}

/// A text is read in its style, and what stands in braces is added.
pub proof fn law_text_is_read_in_its_style(text: Seq<char>, docopt: bool, braces: Seq<Seq<char>>)
    ensures
        ({
            let read = if docopt {
                manual(text)
            } else {
                sectioned(
                    text,
                    style(text, docopt),
                    command_headings(),
                    option_headings(style(text, docopt)),
                )
            };
            &&& told(text, docopt, braces) is Some <==> read is Some
            &&& told(text, docopt, seq![]) == read
            &&& read is Some ==> {
                let (h, t) = (read->0, told(text, docopt, braces)->0);
                t.format == h.format && t.subs == h.subs && t.args == h.args && t.flags
                    == with_braces(h.flags, braces, braces.len() as int)
            }
        }),
{
}

/// In braces a flag is given by its two names, with a comma, a bar or a blank
/// between them; it is added where no flag has these names.
pub proof fn law_flags_in_braces(
    flags: Seq<Flag>,
    braces: Seq<Seq<char>>,
    c: char,
    cut: char,
    name: Seq<char>,
)
    requires
        braces.len() > 0,
        (c as u32) < 0x80 && c != '-' && c != ',' && c != '|' && !is_blank_char(c),
        cut == ',' || cut == '|' || cut == ' ',
        name.len() > 0,
        forall|i: int|
            0 <= i < name.len() ==> !is_blank_char(#[trigger] name[i]) && name[i] != ',' && name[i]
                != '|',
        braces.last() == seq!['-', c, cut, '-', '-'] + name,
    ensures
        ({
            let before = with_braces(flags, braces, braces.len() - 1);
            let f = Flag {
                short: Some(seq!['-', c]),
                long: Some(seq!['-', '-'] + name),
                takes_value: false,
                value_name: None,
                description: seq![],
            };
            let known = exists|i: int|
                0 <= i < before.len() && (#[trigger] before[i]).short == f.short && before[i].long
                    == f.long;
            with_braces(flags, braces, braces.len() as int) == if known {
                before
            } else {
                before.push(f)
            }
        }),
{
    let inside = braces.last();
    let p = brace_cut();
    let a = seq!['-', c];
    let b = seq!['-', '-'] + name;
    assert(seq![',', '|'][0] == ',' && seq![',', '|'][1] == '|');
    assert(p(cut));
    assert(!seq![',', '|'].contains('-'));
    assert(!seq![',', '|'].contains(c));
    assert forall|i: int| 0 <= i < a.len() implies !p(#[trigger] a[i]) by {
        assert(a[i] == '-' || a[i] == c);
    }
    assert forall|i: int| 0 <= i < b.len() implies !p(#[trigger] b[i]) by {
        if i >= 2 {
            assert(b[i] == name[i - 2]);
        } else {
            assert(b[i] == '-');
        }
    }
    lemma_fields_word(a, cut, b, p);
    lemma_fields_end(b, p);
    assert(inside =~= a + seq![cut] + b);
    let ts = fields(inside, p);
    assert(ts =~= seq![a, b]);
    assert(is_short_exact(a));
    lemma_first_where(ts, |t: Seq<char>| is_short_exact(t), 0);
    assert(b.subrange(0, 2) =~= seq!['-', '-']);
    assert(is_long_exact(b));
    assert(!is_long_exact(a));
    lemma_first_where(ts, |t: Seq<char>| is_long_exact(t), 1);
    assert(braces[braces.len() - 1] == inside);
}

/// Letters that tell the name of a value: capital ones and underscores.
pub open spec fn is_capital(c: char) -> bool {
    0x41 <= c as u32 <= 0x5a || c == '_'
}

proof fn lemma_capitals(v: Seq<char>)
    requires
        v.len() > 0,
        forall|i: int| 0 <= i < v.len() ==> is_capital(#[trigger] v[i]),
    ensures
        clean_value(v) == v,
        is_value(v),
        v[0] != '-' && !v.contains('='),
{
    let marks = seq!['[', ']', '(', ')', ','];
    assert(marks[0] == '[' && marks[1] == ']' && marks[2] == '(' && marks[3] == ')' && marks[4]
        == ',' && marks.len() == 5);
    assert(is_capital(v[0]) && is_capital(v[v.len() - 1]));
    assert(v.last() == v[v.len() - 1]);
    assert(!marks.contains(v[0])) by {
        if marks.contains(v[0]) {
            let i = choose|i: int| 0 <= i < marks.len() && marks[i] == v[0];
            assert(i == 0 || i == 1 || i == 2 || i == 3 || i == 4);
        }
    }
    assert(!marks.contains(v.last())) by {
        if marks.contains(v.last()) {
            let i = choose|i: int| 0 <= i < marks.len() && marks[i] == v.last();
            assert(i == 0 || i == 1 || i == 2 || i == 3 || i == 4);
        }
    }
    lemma_strip_none(v, one_of(marks));
    assert(v[0] == '_' || is_upper(v[0]));
    if v.contains('=') {
        let i = choose|i: int| 0 <= i < v.len() && v[i] == '=';
        assert(is_capital(v[i]));
    }
}

/// The name of a flag's value stands behind a sign, or is the word behind the
/// flag where that is in capitals; a word in small letters is no value.
pub proof fn law_names_of_values(flag: Seq<char>, v: Seq<char>, w: Seq<char>)
    requires
        flag.len() > 0 && flag[0] == '-' && !flag.contains('=') && flag.last() != '.',
        v.len() > 0,
        forall|i: int| 0 <= i < v.len() ==> is_capital(#[trigger] v[i]),
        w.len() > 0,
        forall|i: int| 0 <= i < w.len() ==> 0x61 <= (#[trigger] w[i]) as u32 <= 0x7a,
    ensures
        value_name(seq![flag + seq!['='] + v]) == Some(v),
        value_name(seq![flag, v]) == Some(v),
        value_name(seq![flag, w]) is None,
        value_name(seq![flag]) is None,
        long_name(flag + seq!['='] + v) == flag,
        long_name(flag) == flag,
{
    lemma_capitals(v);
    law_halves(flag, '=', v);
    law_halves(v, '=', v);
    assert(!w.contains('=')) by {
        if w.contains('=') {
            let i = choose|i: int| 0 <= i < w.len() && w[i] == '=';
            assert(0x61 <= w[i] as u32);
        }
    }
    law_halves(w, '=', w);
    let (a, b, c, d) = (seq![flag + seq!['='] + v], seq![flag, v], seq![flag, w], seq![flag]);
    assert(b.skip(1) =~= seq![v] && c.skip(1) =~= seq![w]);
    assert(seq![v].skip(1) =~= seq![] && seq![w].skip(1) =~= seq![] && d.skip(1) =~= seq![]);
    reveal_with_fuel(value_behind_equals, 4);
    reveal_with_fuel(value_behind_flag, 4);
    assert(value_behind_equals(b) is None);
    assert(value_behind_equals(c) is None);
    assert(value_behind_equals(d) is None);
    let x = clean_value(w);
    let marks = seq!['[', ']', '(', ')', ','];
    assert(marks[0] == '[' && marks[1] == ']' && marks[2] == '(' && marks[3] == ')' && marks[4]
        == ',' && marks.len() == 5);
    assert(0x61 <= w[0] as u32 && 0x61 <= w[w.len() - 1] as u32 && w[w.len() - 1] as u32 <= 0x7a
        && w[0] as u32 <= 0x7a);
    assert(w.last() == w[w.len() - 1]);
    assert(!marks.contains(w[0]) && !marks.contains(w.last())) by {
        if marks.contains(w[0]) {
            let i = choose|i: int| 0 <= i < marks.len() && marks[i] == w[0];
            assert(i == 0 || i == 1 || i == 2 || i == 3 || i == 4);
        }
        if marks.contains(w.last()) {
            let i = choose|i: int| 0 <= i < marks.len() && marks[i] == w.last();
            assert(i == 0 || i == 1 || i == 2 || i == 3 || i == 4);
        }
    }
    lemma_strip_none(w, one_of(marks));
    assert(x == w);
    assert(!is_value(w)) by {
        if exists|i: int| 0 <= i < w.len() && ((#[trigger] w[i]) == '_' || is_upper(w[i])) {
            let i = choose|i: int| 0 <= i < w.len() && ((#[trigger] w[i]) == '_' || is_upper(w[i]));
            assert(0x61 <= w[i] as u32 <= 0x7a);
        }
    }
}

/// What is wrong with a description: a flag without a name, a flag that takes a
/// value without a name for it or has one and takes none, or an empty name. They
/// are told in this order, and nothing else is wrong.
pub proof fn law_faults(h: Help)
    ensures
        ({
            let unnamed = exists|i: int|
                0 <= i < h.flags.len() && (#[trigger] h.flags[i]).short is None
                    && h.flags[i].long is None;
            let mismatched = exists|i: int|
                0 <= i < h.flags.len() && (#[trigger] h.flags[i]).takes_value != (
                h.flags[i].value_name is Some);
            let empty = (exists|i: int| 0 <= i < h.subs.len() && (#[trigger] h.subs[i]).name.len() == 0)
                || (exists|i: int| 0 <= i < h.args.len() && (#[trigger] h.args[i]).name.len() == 0);
            &&& unnamed ==> fault(h) == Some("flag must have short or long name"@)
            &&& !unnamed && mismatched ==> fault(h) == Some("flag takes_value must match value_name"@)
            &&& !unnamed && !mismatched && empty ==> fault(h) == Some(
                "parsed names must not be empty"@,
            )
            &&& !unnamed && !mismatched && !empty ==> fault(h) is None
        }),
{
}

/// The values of a usage are arguments, each once and in order; a value counts as
/// required where nothing in its usage is optional.
pub proof fn law_values_of_usages(s: Seq<Arg>, values: Seq<Seq<char>>, n: int, required: bool, i: int)
    requires
        0 <= n <= values.len(),
    ensures
        ({
            let t = with_values(s, values, n, required);
            &&& s.len() <= t.len()
            &&& forall|k: int| 0 <= k < s.len() ==> #[trigger] t[k] == s[k]
            &&& 0 <= i < n ==> exists|k: int| 0 <= k < t.len() && (#[trigger] t[k]).name == values[i]
            &&& forall|k: int|
                s.len() <= k < t.len() ==> (#[trigger] t[k]).required == required && values.contains(
                    t[k].name,
                ) && t[k].description.len() == 0
        }),
    decreases n,
{
    if n > 0 {
        law_values_of_usages(s, values, n - 1, required, i);
        let before = with_values(s, values, n - 1, required);
        let t = with_values(s, values, n, required);
        let name = values[n - 1];
        assert(values.contains(name));
        assert forall|k: int| 0 <= k < before.len() implies #[trigger] t[k] == before[k] by {}
        if 0 <= i < n {
            if i < n - 1 {
                let k = choose|k: int|
                    0 <= k < before.len() && (#[trigger] before[k]).name == values[i];
                assert(t[k].name == values[i]);
            } else if exists|k: int| 0 <= k < before.len() && (#[trigger] before[k]).name == name {
                let k = choose|k: int| 0 <= k < before.len() && (#[trigger] before[k]).name == name;
                assert(t[k].name == name);
            } else {
                assert(t[before.len() as int].name == name);
            }
        }
    }
}

/// A usage adds its values, required where the usage holds no bracket, and its
/// subcommands; flags and the style stay as they are.
pub proof fn law_usages_add_up(h: Help, usages: Seq<Seq<char>>)
    requires
        usages.len() > 0,
    ensures
        ({
            let before = with_usages(h, usages, usages.len() - 1);
            let after = with_usages(h, usages, usages.len() as int);
            let usage = usages.last();
            let values = finds_in(r"<[^>\s]+>"@, usage);
            &&& after.flags == before.flags && after.format == before.format
            &&& after.args == with_values(
                before.args,
                values,
                values.len() as int,
                !usage.contains('['),
            )
            &&& after.subs == with_usage_subs(
                before.subs,
                words(usage),
                words(usage).len() as int,
            )
        }),
        with_usages(h, usages, 0) == h,
{
}

/// A small letter.
pub open spec fn is_small(c: char) -> bool {
    0x61 <= c as u32 <= 0x7a
}

/// A word of small letters.
pub open spec fn is_small_word(w: Seq<char>) -> bool {
    w.len() > 0 && forall|i: int| 0 <= i < w.len() ==> is_small(#[trigger] w[i])
}

proof fn lemma_small_word(w: Seq<char>)
    requires
        is_small_word(w),
    ensures
        strip(w, usage_marks()) == w,
        is_usage_sub(w),
        is_command(w),
{
    let marks = seq!['[', ']', '(', ')', '|', ',', '.', ':', '<', '>'];
    assert(marks[0] == '[' && marks[1] == ']' && marks[2] == '(' && marks[3] == ')' && marks[4]
        == '|' && marks[5] == ',' && marks[6] == '.' && marks[7] == ':' && marks[8] == '<'
        && marks[9] == '>' && marks.len() == 10);
    assert(is_small(w[0]) && is_small(w[w.len() - 1]));
    assert(w.last() == w[w.len() - 1]);
    assert(!marks.contains(w[0])) by {
        if marks.contains(w[0]) {
            let i = choose|i: int| 0 <= i < marks.len() && marks[i] == w[0];
            assert(0 <= i < 10);
        }
    }
    assert(!marks.contains(w.last())) by {
        if marks.contains(w.last()) {
            let i = choose|i: int| 0 <= i < marks.len() && marks[i] == w.last();
            assert(0 <= i < 10);
        }
    }
    lemma_strip_none(w, usage_marks());
    assert forall|i: int| 0 <= i < w.len() implies !is_upper(#[trigger] w[i]) && is_name_char(w[i])
        && w[i] != '=' by {
        assert(is_small(w[i]));
    }
}

/// The words of a usage behind the program's name that are made of small letters
/// are subcommands, each once; the program's name is none.
pub proof fn law_subcommands_of_usages(s: Seq<Sub>, ws: Seq<Seq<char>>, n: int, i: int)
    requires
        0 <= n <= ws.len(),
    ensures
        ({
            let t = with_usage_subs(s, ws, n);
            &&& s.len() <= t.len()
            &&& forall|k: int| 0 <= k < s.len() ==> #[trigger] t[k] == s[k]
            &&& 0 < i < n && is_small_word(ws[i]) ==> exists|k: int|
                0 <= k < t.len() && (#[trigger] t[k]).name == ws[i]
            &&& forall|k: int|
                s.len() <= k < t.len() ==> (#[trigger] t[k]).description.len() == 0
                    && t[k].name.len() > 0 && t[k].name[0] != '-' && exists|j: int|
                    0 < j < n && t[k].name == strip(#[trigger] ws[j], usage_marks())
            &&& n <= 1 ==> t == s
        }),
    decreases n,
{
    if n > 1 {
        law_subcommands_of_usages(s, ws, n - 1, i);
        let before = with_usage_subs(s, ws, n - 1);
        let t = with_usage_subs(s, ws, n);
        let w = strip(ws[n - 1], usage_marks());
        assert forall|k: int| 0 <= k < before.len() implies #[trigger] t[k] == before[k] by {}
        assert forall|k: int| s.len() <= k < t.len() implies (#[trigger] t[k]).description.len() == 0
            && t[k].name.len() > 0 && t[k].name[0] != '-' && exists|j: int|
            0 < j < n && t[k].name == strip(#[trigger] ws[j], usage_marks()) by {
            if k < before.len() {
                assert(t[k] == before[k]);
                let j = choose|j: int|
                    0 < j < n - 1 && before[k].name == strip(#[trigger] ws[j], usage_marks());
                assert(t[k].name == strip(ws[j], usage_marks()));
            } else {
                assert(t[k].name == strip(ws[n - 1], usage_marks()));
            }
        }
        if 0 < i < n && is_small_word(ws[i]) {
            if i < n - 1 {
                let k = choose|k: int| 0 <= k < before.len() && (#[trigger] before[k]).name == ws[i];
                assert(t[k].name == ws[i]);
            } else {
                lemma_small_word(ws[i]);
                if exists|k: int| 0 <= k < before.len() && (#[trigger] before[k]).name == w {
                    let k = choose|k: int| 0 <= k < before.len() && (#[trigger] before[k]).name == w;
                    assert(t[k].name == ws[i]);
                } else {
                    assert(t[before.len() as int].name == ws[i]);
                }
            }
        }
    }
}

/// The lines of a help text that shows its usage: the usages under their
/// heading, an empty line, and the options under theirs.
pub open spec fn manual_lines(us: Seq<Seq<char>>, flags: Seq<Told>, indent: nat, n: nat) -> Seq<
    Seq<char>,
> {
    seq!["Usage:"@] + us.map_values(|u: Seq<char>| spaces(indent) + u) + seq![
        Seq::<char>::empty(),
        "Options:"@,
    ] + flags.map_values(|t: Told| told_line(t, indent, n))
}

/// A usage as it is written: it begins and ends with a character that shows, and
/// is no heading.
pub open spec fn is_usage(u: Seq<char>) -> bool {
    &&& u.len() > 0 && '!' <= u[0] <= '~' && '!' <= u.last() <= '~' && is_one_line(u)
    &&& !opens(u, "Usage"@) && !opens(u, "Options"@)
}

proof fn lemma_usages_read(ls: Seq<Seq<char>>, us: Seq<Seq<char>>, indent: nat, i: int)
    requires
        0 <= i <= us.len(),
        us.len() + 1 <= ls.len(),
        forall|j: int| 0 <= j < us.len() ==> is_usage(#[trigger] us[j]),
        forall|j: int| 0 <= j < us.len() ==> #[trigger] ls[1 + j] == spaces(indent) + us[j],
        read_manual(ls, 1) == Some(
            Manual { flags: seq![], usages: seq![], part: Part::Usage },
        ),
    ensures
        read_manual(ls, 1 + i) == Some(
            Manual { flags: seq![], usages: us.take(i), part: Part::Usage },
        ),
    decreases i,
{
    if i == 0 {
        assert(us.take(0) =~= seq![]);
    } else {
        lemma_usages_read(ls, us, indent, i - 1);
        let u = us[i - 1];
        assert(is_usage(u));
        assert(ls[1 + (i - 1)] == spaces(indent) + u);
        lemma_trimmed(indent, u, 0);
        assert(spaces(indent) + u + spaces(0) =~= spaces(indent) + u);
        assert(us.take(i) =~= us.take(i - 1).push(u));
    }
}

proof fn lemma_manual_flags(
    ls: Seq<Seq<char>>,
    from: int,
    ts: Seq<Told>,
    i: int,
    indent: nat,
    n: nat,
    m: Manual,
)
    requires
        0 <= from,
        0 <= i <= ts.len(),
        from + ts.len() <= ls.len(),
        n >= 2,
        forall|j: int| 0 <= j < ts.len() ==> is_told_flag(#[trigger] ts[j]),
        forall|j: int|
            0 <= j < ts.len() ==> #[trigger] ls[from + j] == told_line(ts[j], indent, n),
        read_manual(ls, from) == Some(m),
        m.part == Part::Options,
        m.flags.len() == 0,
    ensures
        read_manual(ls, from + i) == Some(Manual { flags: flags_meant(ts.take(i)), ..m }),
    decreases i,
{
    if i == 0 {
        assert(flags_meant(ts.take(0)) =~= m.flags);
    } else {
        lemma_manual_flags(ls, from, ts, i - 1, indent, n, m);
        let t = ts[i - 1];
        let line = told_line(t, indent, n);
        let commas = seq![t.flag.short is Some && t.flag.long is Some, false];
        assert(is_told_flag(t));
        assert(ls[from + (i - 1)] == line);
        crate::completion::help_laws::law_flags_are_read(t.flag, commas, indent, n, t.description);
        crate::completion::help_laws::lemma_trimmed_flag(t.flag, commas, indent, n, t.description);
        let w = trimmed(line);
        assert(w[0] == '-');
        reveal_strlit("Usage");
        reveal_strlit("Options");
        assert(lowered("Usage"@)[0] == 'u' && lowered("Options"@)[0] == 'o');
        assert(!opens(w, "Usage"@)) by {
            if opens(w, "Usage"@) {
                assert(lowered(w.take(5))[0] == '-');
            }
        }
        assert(!opens(w, "Options"@)) by {
            if opens(w, "Options"@) {
                assert(lowered(w.take(7))[0] == '-');
            }
        }
        let front = ts.take(i - 1);
        assert(ts.take(i) =~= front.push(t));
        assert(flags_meant(ts.take(i)) =~= flags_meant(front).push(
            crate::completion::help_laws::flag_meant(t.flag, t.description),
        ));
    }
}

/// A help text that shows its usage is read as it is: exactly these usages and
/// flags, in this order; the usages tell the rest.
pub proof fn law_manual_is_read(us: Seq<Seq<char>>, flags: Seq<Told>, indent: nat, n: nat)
    requires
        n >= 2,
        forall|i: int| 0 <= i < us.len() ==> is_usage(#[trigger] us[i]),
        forall|i: int| 0 <= i < flags.len() ==> is_told_flag(#[trigger] flags[i]),
    ensures
        manual(ended(manual_lines(us, flags, indent, n))) == Some(
            with_usages(
                Help {
                    format: HelpFormat::Docopt,
                    flags: flags_meant(flags),
                    subs: seq![],
                    args: seq![],
                },
                us,
                us.len() as int,
            ),
        ),
{
    let ls = manual_lines(us, flags, indent, n);
    let a = 1 + us.len() as int;
    let none = Seq::<char>::empty();
    reveal_strlit("Usage:");
    reveal_strlit("Options:");
    reveal_strlit("Usage");
    reveal_strlit("Options");
    let (x, y) = ("Usage:"@, "Options:"@);
    assert(ls.len() == a + 2 + flags.len());
    assert(ls[0] == x && ls[a] == none && ls[a + 1] == y);
    assert forall|i: int| 0 <= i < ls.len() implies is_one_line(#[trigger] ls[i]) by {
        if i == 0 {
            if x.contains('\n') {
                let j = choose|j: int| 0 <= j < x.len() && x[j] == '\n';
                assert(0 <= j < 6);
            }
        } else if i < a {
            let u = us[i - 1];
            assert(is_usage(u));
            let l = spaces(indent) + u;
            assert(ls[i] == l);
            assert(l.last() == u.last());
            if l.contains('\n') {
                let j = choose|j: int| 0 <= j < l.len() && l[j] == '\n';
                if j < indent {
                    assert(l[j] == ' ');
                } else {
                    assert(u[j - indent] == '\n');
                }
            }
        } else if i == a {
            assert(!none.contains('\n'));
        } else if i == a + 1 {
            if y.contains('\n') {
                let j = choose|j: int| 0 <= j < y.len() && y[j] == '\n';
                assert(0 <= j < 8);
            }
        } else {
            let t = flags[i - a - 2];
            assert(is_told_flag(t));
            lemma_told_one_line(t, indent, n);
            assert(ls[i] == told_line(t, indent, n));
        }
    }
    lemma_lines_are_read(ls);
    lemma_strip_none(x, white());
    lemma_strip_none(y, white());
    lemma_strip_none(none, white());
    assert(x.take(5) =~= "Usage"@);
    assert(y.take(7) =~= "Options"@);
    assert(opens(x, "Usage"@));
    assert(opens(y, "Options"@));
    assert(lowered("Usage"@)[0] == 'u');
    assert(!opens(y, "Usage"@)) by {
        assert(lowered(y.take(5))[0] == 'o');
    }
    assert("Usage"@ + seq![':'] + none =~= x);
    assert(!"Usage"@.contains(':')) by {
        if "Usage"@.contains(':') {
            let j = choose|j: int| 0 <= j < "Usage"@.len() && "Usage"@[j] == ':';
            assert(0 <= j < 5);
        }
    }
    law_halves("Usage"@, ':', none);
    assert(read_manual(ls, 0) == Some(Manual { flags: seq![], usages: seq![], part: Part::Other }));
    assert(read_manual(ls, 1) == Some(Manual { flags: seq![], usages: seq![], part: Part::Usage }));
    assert forall|j: int| 0 <= j < us.len() implies #[trigger] ls[1 + j] == spaces(indent)
        + us[j] by {}
    lemma_usages_read(ls, us, indent, us.len() as int);
    assert(us.take(us.len() as int) =~= us);
    assert(read_manual(ls, a + 1) == Some(
        Manual { flags: seq![], usages: us, part: Part::Other },
    ));
    let m = Manual { flags: seq![], usages: us, part: Part::Options };
    assert(read_manual(ls, a + 2) == Some(m));
    assert forall|j: int| 0 <= j < flags.len() implies #[trigger] ls[a + 2 + j] == told_line(
        flags[j],
        indent,
        n,
    ) by {}
    lemma_manual_flags(ls, a + 2, flags, flags.len() as int, indent, n, m);
    assert(flags.take(flags.len() as int) =~= flags);
}

/// Two dashes alone in braces are no name, and where there is no name there is no
/// flag.
pub proof fn law_dashes_in_braces(flags: Seq<Flag>)
    ensures
        with_braces(flags, seq![seq!['-', '-']], 1) == flags,
{
    let inside = seq!['-', '-'];
    let p = brace_cut();
    assert(seq![',', '|'][0] == ',' && seq![',', '|'][1] == '|');
    assert(!seq![',', '|'].contains('-'));
    assert forall|i: int| 0 <= i < inside.len() implies !p(#[trigger] inside[i]) by {
        assert(inside[i] == '-');
    }
    lemma_fields_end(inside, p);
    let ts = fields(inside, p);
    assert(ts =~= seq![inside]);
    lemma_first_where(ts, |t: Seq<char>| is_short_exact(t), 1);
    lemma_first_where(ts, |t: Seq<char>| is_long_exact(t), 1);
    let braces = seq![inside];
    assert(braces[0] == inside);
    assert(with_braces(flags, braces, 0) == flags);
}

} // verus!
