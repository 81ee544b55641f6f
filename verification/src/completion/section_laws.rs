//! Whole help texts in sections, as programs write them, and what is read of
//! them.

use crate::completion::help_laws::{
    can_be_spelled, flag_meant, flag_written, is_description, is_name_letter, is_plain_name,
    law_flags_are_read, law_names_are_read, lemma_trimmed_line, spaces, Spelling,
};
use crate::completion::parser::{
    command_headings, has_flag, heading, is_command, is_name_char, named, option_headings,
    read_sections, sectioned, Arg, Flag, Help, HelpFormat, Part, Reading, Sub,
};
use crate::text::{
    is_char, lemma_find_first, lines, lowered, skip_back, trimmed, white,
};
use crate::text_laws::{lemma_skip_back, lemma_strip_none};
use vstd::prelude::*;

verus! {

/// Lines one behind the other, each ended.
pub open spec fn ended(ls: Seq<Seq<char>>) -> Seq<char>
    decreases ls.len(),
{
    if ls.len() == 0 {
        seq![]
    } else {
        ls[0] + seq!['\n'] + ended(ls.skip(1))
    }
}

/// A line is one: it does not end within, nor in a carriage return.
pub open spec fn is_one_line(l: Seq<char>) -> bool {
    !l.contains('\n') && (l.len() > 0 ==> l.last() != '\r')
}

/// Lines that are ended are the lines of the text.
pub proof fn lemma_lines_are_read(ls: Seq<Seq<char>>)
    requires
        forall|i: int| 0 <= i < ls.len() ==> is_one_line(#[trigger] ls[i]),
    ensures
        lines(ended(ls)) == ls,
    decreases ls.len(),
{
    let s = ended(ls);
    if ls.len() == 0 {
        assert(lines(s) =~= ls);
    } else {
        let l = ls[0];
        let tail = ls.skip(1);
        let k = l.len() as int;
        let p = is_char('\n');
        assert(is_one_line(l));
        assert forall|i: int| 0 <= i < k implies !p(#[trigger] s[i]) by {
            assert(s[i] == l[i]);
            assert(l.contains(l[i]));
        }
        assert(s[k] == '\n');
        lemma_find_first(s, p, k);
        assert(s.take(k) =~= l);
        assert(s.skip(k + 1) =~= ended(tail));
        assert forall|i: int| 0 <= i < tail.len() implies is_one_line(#[trigger] tail[i]) by {
            assert(tail[i] == ls[i + 1]);
        }
        lemma_lines_are_read(tail);
        assert(seq![l] + tail =~= ls);
    }
}

/// A subcommand or an argument with its description.
pub ghost struct Entry {
    pub name: Seq<char>,
    pub description: Seq<char>,
}

/// The name can be that of a command, and the description stands on one line
/// and is no heading.
pub open spec fn is_entry(e: Entry) -> bool {
    &&& is_command_like(e.name) && e.name[0] != '-'
    &&& is_told(e.description)
}

/// Letters, digits, dashes and underscores.
pub open spec fn is_command_like(s: Seq<char>) -> bool {
    s.len() > 0 && forall|i: int|
        0 <= i < s.len() ==> {
            let c = #[trigger] s[i];
            'a' <= c <= 'z' || 'A' <= c <= 'Z' || '0' <= c <= '9' || c == '-' || c == '_'
        }
}

/// A description on one line that is no heading.
pub open spec fn is_told(d: Seq<char>) -> bool {
    is_description(d) && !d.contains('\n') && d.last() != ':'
}

/// The line of an entry.
pub open spec fn entry_line(e: Entry, indent: nat, n: nat) -> Seq<char> {
    spaces(indent) + e.name + spaces(n) + e.description
}

/// A flag with its description.
pub ghost struct Told {
    pub flag: Spelling,
    pub description: Seq<char>,
}

/// The line of a flag: its names have a comma between them.
pub open spec fn told_line(t: Told, indent: nat, n: nat) -> Seq<char> {
    flag_written(t.flag, seq![t.flag.short is Some && t.flag.long is Some, false], indent, n, t.description)
}

pub open spec fn is_told_flag(t: Told) -> bool {
    can_be_spelled(t.flag) && is_told(t.description)
}

/// The lines of a help text: commands, arguments and options under their
/// headings.
pub open spec fn help_lines(
    subs: Seq<Entry>,
    args: Seq<Entry>,
    flags: Seq<Told>,
    indent: nat,
    n: nat,
) -> Seq<Seq<char>> {
    seq!["Commands:"@] + subs.map_values(|e: Entry| entry_line(e, indent, n)) + seq![
        "Arguments:"@,
    ] + args.map_values(|e: Entry| entry_line(e, indent, n)) + seq!["Options:"@] + flags.map_values(
        |t: Told| told_line(t, indent, n),
    )
}

proof fn lemma_one_line(indent: nat, name: Seq<char>, n: nat, d: Seq<char>)
    requires
        !name.contains('\n'),
        is_told(d),
    ensures
        is_one_line(spaces(indent) + name + spaces(n) + d),
{
    let l = spaces(indent) + name + spaces(n) + d;
    assert(l.last() == d.last());
    if l.contains('\n') {
        let i = choose|i: int| 0 <= i < l.len() && l[i] == '\n';
        let a = indent as int;
        let b = a + name.len();
        let c = b + n;
        if i < a {
            assert(l[i] == ' ');
        } else if i < b {
            assert(l[i] == name[i - a]);
        } else if i < c {
            assert(l[i] == ' ');
        } else {
            assert(l[i] == d[i - c]);
        }
    }
}

/// The line of a flag is one line.
pub proof fn lemma_told_one_line(t: Told, indent: nat, n: nat)
    requires
        is_told_flag(t),
    ensures
        is_one_line(told_line(t, indent, n)),
{
    let commas = seq![t.flag.short is Some && t.flag.long is Some, false];
    crate::completion::help_laws::lemma_spelled_line(t.flag, commas);
    lemma_one_line(
        indent,
        crate::completion::help_laws::spelled(
            crate::completion::help_laws::flag_spelling(t.flag),
            commas,
        ),
        n,
        t.description,
    );
}

proof fn lemma_command_like(s: Seq<char>)
    requires
        is_command_like(s),
    ensures
        is_plain_name(s),
        is_command(s),
        !s.contains('\n'),
        skip_back(s, is_char(',')) == s,
{
    assert forall|i: int| 0 <= i < s.len() implies is_name_letter(#[trigger] s[i]) && is_name_char(
        s[i],
    ) && s[i] != '\n' && s[i] != ',' by {}
    assert(s.last() == s[s.len() - 1]);
    lemma_skip_back(s, seq![], is_char(','));
    assert(s + Seq::<char>::empty() =~= s);
}

/// What has been read of a text, with another list of subcommands.
spec fn with_subs(r: Reading, subs: Seq<Sub>) -> Reading {
    Reading { help: Help { subs, ..r.help }, ..r }
}

spec fn with_args(r: Reading, args: Seq<Arg>) -> Reading {
    Reading { help: Help { args, ..r.help }, ..r }
}

/// The subcommands that are meant.
pub open spec fn subs_meant(es: Seq<Entry>) -> Seq<Sub> {
    es.map_values(|e: Entry| Sub { name: e.name, description: e.description })
}

/// The arguments that are meant.
pub open spec fn args_meant(es: Seq<Entry>) -> Seq<Arg> {
    es.map_values(|e: Entry| Arg { name: e.name, description: e.description, required: true })
}

/// The flags that are meant.
pub open spec fn flags_meant(ts: Seq<Told>) -> Seq<Flag> {
    ts.map_values(|t: Told| flag_meant(t.flag, t.description))
}

/// No name occurs twice.
pub open spec fn names_differ(es: Seq<Entry>) -> bool {
    forall|i: int, j: int|
        0 <= i < j < es.len() ==> (#[trigger] es[i]).name != (#[trigger] es[j]).name
}

/// No two flags have the same names.
pub open spec fn flags_differ(ts: Seq<Told>) -> bool {
    forall|i: int, j: int|
        0 <= i < j < ts.len() ==> (#[trigger] ts[i]).flag.short != (#[trigger] ts[j]).flag.short
            || ts[i].flag.long != ts[j].flag.long
}

proof fn lemma_no_heading(t: Seq<char>, commands: Seq<Seq<char>>, options: Seq<Seq<char>>)
    requires
        t.len() > 0,
        t.last() != ':',
    ensures
        heading(t, commands, options) is None,
{
}

proof fn lemma_entries_read(
    ls: Seq<Seq<char>>,
    from: int,
    es: Seq<Entry>,
    i: int,
    indent: nat,
    n: nat,
    format: HelpFormat,
    commands: Seq<Seq<char>>,
    options: Seq<Seq<char>>,
    r: Reading,
)
    requires
        0 <= from,
        from + es.len() <= ls.len(),
        0 <= i <= es.len(),
        n >= 2,
        forall|j: int| 0 <= j < es.len() ==> is_entry(#[trigger] es[j]),
        names_differ(es),
        forall|j: int|
            0 <= j < es.len() ==> #[trigger] ls[from + j] == entry_line(es[j], indent, n),
        read_sections(ls, from, format, commands, options) == Some(r),
        r.part == Part::Subcommands || r.part == Part::Positionals,
        r.part == Part::Subcommands ==> r.help.subs.len() == 0,
        r.part == Part::Positionals ==> r.help.args.len() == 0,
    ensures
        read_sections(ls, from + i, format, commands, options) == Some(
            if r.part == Part::Subcommands {
                with_subs(r, subs_meant(es.take(i)))
            } else {
                with_args(r, args_meant(es.take(i)))
            },
        ),
    decreases i,
{
    if i == 0 {
        if r.part == Part::Subcommands {
            assert(subs_meant(es.take(0)) =~= r.help.subs);
        } else {
            assert(args_meant(es.take(0)) =~= r.help.args);
        }
    } else {
        lemma_entries_read(ls, from, es, i - 1, indent, n, format, commands, options, r);
        let e = es[i - 1];
        let line = entry_line(e, indent, n);
        assert(is_entry(e));
        assert(ls[from + (i - 1)] == line);
        lemma_command_like(e.name);
        law_names_are_read(indent, e.name, n, e.description);
        lemma_trimmed_line(indent, e.name, n, e.description);
        let t = trimmed(line);
        assert(t.last() == e.description.last());
        assert(t[0] == e.name[0]);
        lemma_no_heading(t, commands, options);
        let front = es.take(i - 1);
        assert(es.take(i) =~= front.push(e));
        if r.part == Part::Subcommands {
            let before = subs_meant(front);
            assert forall|k: int| 0 <= k < before.len() implies (#[trigger] before[k]).name
                != e.name by {
                assert(es[k].name != es[i - 1].name);
            }
            assert(subs_meant(es.take(i)) =~= before.push(
                Sub { name: e.name, description: e.description },
            ));
        } else {
            let before = args_meant(front);
            assert forall|k: int| 0 <= k < before.len() implies (#[trigger] before[k]).name
                != e.name by {
                assert(es[k].name != es[i - 1].name);
            }
            assert(args_meant(es.take(i)) =~= before.push(
                Arg { name: e.name, description: e.description, required: true },
            ));
        }
    }
}

proof fn lemma_flags_read(
    ls: Seq<Seq<char>>,
    from: int,
    ts: Seq<Told>,
    i: int,
    indent: nat,
    n: nat,
    format: HelpFormat,
    commands: Seq<Seq<char>>,
    options: Seq<Seq<char>>,
    r: Reading,
)
    requires
        0 <= from,
        from + ts.len() <= ls.len(),
        0 <= i <= ts.len(),
        n >= 2,
        forall|j: int| 0 <= j < ts.len() ==> is_told_flag(#[trigger] ts[j]),
        flags_differ(ts),
        forall|j: int|
            0 <= j < ts.len() ==> #[trigger] ls[from + j] == told_line(ts[j], indent, n),
        read_sections(ls, from, format, commands, options) == Some(r),
        r.help.flags.len() == 0,
    ensures
        read_sections(ls, from + i, format, commands, options) is Some,
        read_sections(ls, from + i, format, commands, options)->0.help == (Help {
            flags: flags_meant(ts.take(i)),
            ..r.help
        }),
    decreases i,
{
    if i == 0 {
        assert(flags_meant(ts.take(0)) =~= r.help.flags);
    } else {
        lemma_flags_read(ls, from, ts, i - 1, indent, n, format, commands, options, r);
        let t = ts[i - 1];
        let line = told_line(t, indent, n);
        let commas = seq![t.flag.short is Some && t.flag.long is Some, false];
        assert(is_told_flag(t));
        assert(ls[from + (i - 1)] == line);
        law_flags_are_read(t.flag, commas, indent, n, t.description);
        crate::completion::help_laws::lemma_trimmed_flag(t.flag, commas, indent, n, t.description);
        let w = trimmed(line);
        assert(w.last() == t.description.last());
        lemma_no_heading(w, commands, options);
        let front = ts.take(i - 1);
        let before = flags_meant(front);
        let f = flag_meant(t.flag, t.description);
        assert(!has_flag(before, f.short, f.long)) by {
            if has_flag(before, f.short, f.long) {
                let k = choose|k: int|
                    0 <= k < before.len() && (#[trigger] before[k]).short == f.short
                        && before[k].long == f.long;
                let u = ts[k].flag;
                assert(before[k] == flag_meant(u, ts[k].description));
                lemma_same_names(u, t.flag);
                assert(ts[k].flag.short != ts[i - 1].flag.short || ts[k].flag.long != ts[i
                    - 1].flag.long);
            }
        }
        assert(ts.take(i) =~= front.push(t));
        assert(flags_meant(ts.take(i)) =~= before.push(f));
    }
}

proof fn lemma_same_names(a: Spelling, b: Spelling)
    requires
        flag_meant(a, seq![]).short == flag_meant(b, seq![]).short,
        flag_meant(a, seq![]).long == flag_meant(b, seq![]).long,
    ensures
        a.short == b.short && a.long == b.long,
{
    if a.short is Some && b.short is Some {
        assert(seq!['-', a.short->0][1] == seq!['-', b.short->0][1]);
    }
    if a.long is Some && b.long is Some {
        let dashes = seq!['-', '-'];
        assert((dashes + a.long->0).skip(2) =~= a.long->0);
        assert((dashes + b.long->0).skip(2) =~= b.long->0);
    }
}

proof fn lemma_headings(format: HelpFormat)
    requires
        format is Clap || format is Argparse,
    ensures
        heading("Commands:"@, command_headings(), option_headings(format)) == Some(
            Part::Subcommands,
        ),
        heading("Arguments:"@, command_headings(), option_headings(format)) == Some(
            Part::Positionals,
        ),
        heading("Options:"@, command_headings(), option_headings(format)) == Some(Part::Options),
        trimmed("Commands:"@) == "Commands:"@,
        trimmed("Arguments:"@) == "Arguments:"@,
        trimmed("Options:"@) == "Options:"@,
        is_one_line("Commands:"@),
        is_one_line("Arguments:"@),
        is_one_line("Options:"@),
        "Commands:"@.len() > 0 && "Arguments:"@.len() > 0 && "Options:"@.len() > 0,
{
    reveal_strlit("Commands:");
    reveal_strlit("Arguments:");
    reveal_strlit("Options:");
    reveal_strlit("commands");
    reveal_strlit("subcommands");
    reveal_strlit("options");
    reveal_strlit("arguments");
    reveal_strlit("optional arguments");
    reveal_strlit("positional arguments");
    let c = "Commands:"@;
    let a = "Arguments:"@;
    let o = "Options:"@;
    lemma_strip_none(c, white());
    lemma_strip_none(a, white());
    lemma_strip_none(o, white());
    lemma_strip_none(c.drop_last(), white());
    lemma_strip_none(a.drop_last(), white());
    lemma_strip_none(o.drop_last(), white());
    assert(lowered(c.drop_last()) =~= lowered("commands"@));
    assert(lowered(a.drop_last()) =~= lowered("arguments"@));
    assert(lowered(o.drop_last()) =~= lowered("options"@));
    let names = command_headings();
    let options = option_headings(format);
    assert(names[0] == "commands"@ && names[1] == "subcommands"@ && names.len() == 2);
    assert(options[0] == "options"@);
    assert(named(names, c.drop_last()));
    assert(named(options, o.drop_last()));
    assert(lowered(a.drop_last()).len() == 9 && lowered(o.drop_last()).len() == 7);
    assert(lowered(names[0]).len() == 8 && lowered(names[1]).len() == 11);
    assert(!named(names, a.drop_last())) by {
        if named(names, a.drop_last()) {
            let i = choose|i: int|
                0 <= i < names.len() && lowered(#[trigger] names[i]) == lowered(a.drop_last());
            assert(i == 0 || i == 1);
        }
    }
    assert(!named(names, o.drop_last())) by {
        if named(names, o.drop_last()) {
            let i = choose|i: int|
                0 <= i < names.len() && lowered(#[trigger] names[i]) == lowered(o.drop_last());
            assert(i == 0 || i == 1);
        }
    }
    assert(!named(options, a.drop_last())) by {
        if named(options, a.drop_last()) {
            let i = choose|i: int|
                0 <= i < options.len() && lowered(#[trigger] options[i]) == lowered(a.drop_last());
            assert(lowered(options[0]).len() == 7);
            if i == 1 {
                assert(lowered(options[1]).len() == 18);
            }
        }
    }
    assert(!c.contains('\n')) by {
        if c.contains('\n') {
            let i = choose|i: int| 0 <= i < c.len() && c[i] == '\n';
            assert(false);
        }
    }
    assert(!a.contains('\n')) by {
        if a.contains('\n') {
            let i = choose|i: int| 0 <= i < a.len() && a[i] == '\n';
            assert(false);
        }
    }
    assert(!o.contains('\n')) by {
        if o.contains('\n') {
            let i = choose|i: int| 0 <= i < o.len() && o[i] == '\n';
            assert(false);
        }
    }
}

/// A help text that lists commands, arguments and options under their headings,
/// one on a line, is read as it is: exactly these subcommands, arguments and
/// flags, in this order, each with its description.
pub proof fn law_help_is_read(
    subs: Seq<Entry>,
    args: Seq<Entry>,
    flags: Seq<Told>,
    indent: nat,
    n: nat,
    format: HelpFormat,
)
    requires
        format is Clap || format is Argparse,
        n >= 2,
        forall|i: int| 0 <= i < subs.len() ==> is_entry(#[trigger] subs[i]),
        forall|i: int| 0 <= i < args.len() ==> is_entry(#[trigger] args[i]),
        forall|i: int| 0 <= i < flags.len() ==> is_told_flag(#[trigger] flags[i]),
        names_differ(subs),
        names_differ(args),
        flags_differ(flags),
    ensures
        sectioned(
            ended(help_lines(subs, args, flags, indent, n)),
            format,
            command_headings(),
            option_headings(format),
        ) == Some(
            Help {
                format,
                flags: flags_meant(flags),
                subs: subs_meant(subs),
                args: args_meant(args),
            },
        ),
{
    let ls = help_lines(subs, args, flags, indent, n);
    let commands = command_headings();
    let options = option_headings(format);
    let a = 1 + subs.len() as int;
    let b = a + 1 + args.len() as int;
    let c = b + 1 + flags.len() as int;
    lemma_headings(format);
    assert(ls.len() == c);
    assert forall|i: int| 0 <= i < ls.len() implies is_one_line(#[trigger] ls[i]) by {
        if 1 <= i < a {
            let e = subs[i - 1];
            assert(is_entry(e));
            lemma_command_like(e.name);
            lemma_one_line(indent, e.name, n, e.description);
            assert(ls[i] == entry_line(e, indent, n));
        } else if a < i < b {
            let e = args[i - a - 1];
            assert(is_entry(e));
            lemma_command_like(e.name);
            lemma_one_line(indent, e.name, n, e.description);
            assert(ls[i] == entry_line(e, indent, n));
        } else if b < i {
            let t = flags[i - b - 1];
            assert(is_told_flag(t));
            lemma_told_one_line(t, indent, n);
            assert(ls[i] == told_line(t, indent, n));
        } else {
            assert(ls[0] == "Commands:"@);
            assert(ls[a] == "Arguments:"@);
            assert(ls[b] == "Options:"@);
        }
    }
    lemma_lines_are_read(ls);
    let start = read_sections(ls, 0, format, commands, options)->0;
    assert(ls[0] == "Commands:"@);
    let r1 = read_sections(ls, 1, format, commands, options)->0;
    assert(read_sections(ls, 1, format, commands, options) == Some(
        Reading { part: Part::Subcommands, last: None, ..start },
    ));
    assert forall|j: int| 0 <= j < subs.len() implies #[trigger] ls[1 + j] == entry_line(
        subs[j],
        indent,
        n,
    ) by {}
    lemma_entries_read(ls, 1, subs, subs.len() as int, indent, n, format, commands, options, r1);
    assert(subs.take(subs.len() as int) =~= subs);
    let r2 = with_subs(r1, subs_meant(subs));
    assert(read_sections(ls, a, format, commands, options) == Some(r2));
    assert(ls[a] == "Arguments:"@);
    let r3 = Reading { part: Part::Positionals, last: None, ..r2 };
    assert(read_sections(ls, a + 1, format, commands, options) == Some(r3));
    assert forall|j: int| 0 <= j < args.len() implies #[trigger] ls[a + 1 + j] == entry_line(
        args[j],
        indent,
        n,
    ) by {}
    lemma_entries_read(ls, a + 1, args, args.len() as int, indent, n, format, commands, options, r3);
    assert(args.take(args.len() as int) =~= args);
    let r4 = with_args(r3, args_meant(args));
    assert(read_sections(ls, b, format, commands, options) == Some(r4));
    assert(ls[b] == "Options:"@);
    let r5 = Reading { part: Part::Options, last: None, ..r4 };
    assert(read_sections(ls, b + 1, format, commands, options) == Some(r5));
    assert forall|j: int| 0 <= j < flags.len() implies #[trigger] ls[b + 1 + j] == told_line(
        flags[j],
        indent,
        n,
    ) by {}
    lemma_flags_read(ls, b + 1, flags, flags.len() as int, indent, n, format, commands, options, r5);
    assert(flags.take(flags.len() as int) =~= flags);
}

} // verus!
