//! Help texts as programs write them, and what is read of them.

use crate::completion::parser::{
    ascii_white, brackets, clean_value, flag_line, gap, is_long, is_short, is_value, name_line,
    split_gap, token_cut, unbracketed, value_behind_equals, value_behind_flag, value_name,
    without_dots, Flag, FlagLine,
};
use crate::seqs::{first_where, lemma_first_where};
use crate::text::{
    begins, fields, halves, is_char, is_white_space, lemma_find_first, one_of, trimmed, white,
};
use crate::text_laws::{
    lemma_fields_cut, lemma_fields_end, lemma_fields_word, lemma_skip_back, lemma_skip_front,
    lemma_strip_none,
};
use vstd::prelude::*;

verus! {

/// A character of a name as it is written in a help text: an ASCII character
/// that shows, without commas, brackets and the sign that stands in front of a
/// value.
pub open spec fn is_name_letter(c: char) -> bool {
    '!' <= c <= '~' && c != ',' && c != '[' && c != ']' && c != '(' && c != ')' && c != '='
}

/// A name as it is written in a help text.
pub open spec fn is_plain_name(s: Seq<char>) -> bool {
    s.len() > 0 && forall|i: int| 0 <= i < s.len() ==> is_name_letter(#[trigger] s[i])
}

/// A description: it begins and ends with a character that shows.
pub open spec fn is_description(s: Seq<char>) -> bool {
    s.len() > 0 && '!' <= s[0] <= '~' && '!' <= s.last() <= '~'
}

/// So many spaces.
pub open spec fn spaces(n: nat) -> Seq<char> {
    Seq::new(n, |i: int| ' ')
}

/// A text between spaces without them.
pub proof fn lemma_trimmed(n: nat, x: Seq<char>, m: nat)
    requires
        x.len() > 0,
        !is_white_space(x[0]) && !is_white_space(x.last()),
    ensures
        trimmed(spaces(n) + x + spaces(m)) == x,
{
    let s = spaces(n) + x + spaces(m);
    assert(s =~= spaces(n) + (x + spaces(m)));
    lemma_skip_front(spaces(n), x + spaces(m), white());
    lemma_skip_back(x, spaces(m), white());
}

proof fn lemma_gap_is(s: Seq<char>, i: int, k: int)
    requires
        0 <= i <= k,
        forall|j: int| i <= j < k ==> !(ascii_white(#[trigger] s[j]) && ascii_white(s[j + 1])),
        k + 1 < s.len() ==> ascii_white(s[k]) && ascii_white(s[k + 1]),
        k + 1 < s.len() || k == s.len(),
    ensures
        gap(s, i) == k,
    decreases k - i,
{
    if i < k && i + 1 < s.len() {
        assert(!(ascii_white(s[i]) && ascii_white(s[i + 1])));
        lemma_gap_is(s, i + 1, k);
    }
}

/// The words of a flag's line one behind the other, each with a comma or without
/// one behind it.
pub open spec fn spelled(ws: Seq<Seq<char>>, commas: Seq<bool>) -> Seq<char>
    decreases ws.len(),
{
    if ws.len() == 0 {
        seq![]
    } else if ws.len() == 1 {
        ws[0]
    } else {
        ws[0] + (if commas[0] {
            seq![',', ' ']
        } else {
            seq![' ']
        }) + spelled(ws.skip(1), commas.skip(1))
    }
}

/// All words are names as they are written.
pub open spec fn all_plain(ws: Seq<Seq<char>>) -> bool {
    forall|i: int| 0 <= i < ws.len() ==> is_plain_name(#[trigger] ws[i])
}

proof fn lemma_spelled_fields(ws: Seq<Seq<char>>, commas: Seq<bool>)
    requires
        ws.len() > 0,
        commas.len() >= ws.len() - 1,
        all_plain(ws),
    ensures
        fields(spelled(ws, commas), token_cut()) == ws,
    decreases ws.len(),
{
    let p = token_cut();
    let w = ws[0];
    assert(is_plain_name(w));
    assert forall|i: int| 0 <= i < w.len() implies !p(#[trigger] w[i]) by {
        assert(is_name_letter(w[i]));
        assert(seq![','][0] == ',');
    }
    assert(p(',')) by {
        assert(seq![','][0] == ',');
    }
    assert(p(' '));
    if ws.len() == 1 {
        lemma_fields_end(w, p);
        assert(ws =~= seq![w]);
    } else {
        let tail = ws.skip(1);
        assert forall|i: int| 0 <= i < tail.len() implies is_plain_name(#[trigger] tail[i]) by {
            assert(tail[i] == ws[i + 1]);
        }
        lemma_spelled_fields(tail, commas.skip(1));
        let rest = spelled(tail, commas.skip(1));
        if commas[0] {
            assert(spelled(ws, commas) =~= w + seq![','] + (seq![' '] + rest));
            lemma_fields_word(w, ',', seq![' '] + rest, p);
            lemma_fields_cut(' ', rest, p);
        } else {
            assert(spelled(ws, commas) =~= w + seq![' '] + rest);
            lemma_fields_word(w, ' ', rest, p);
        }
        assert(seq![w] + tail =~= ws);
    }
}

proof fn lemma_unbracketed(ws: Seq<Seq<char>>)
    requires
        all_plain(ws),
        forall|i: int| 0 <= i < ws.len() ==> #[trigger] ws[i] != seq!['|'],
    ensures
        unbracketed(ws) == ws,
    decreases ws.len(),
{
    if ws.len() > 0 {
        let front = ws.drop_last();
        assert forall|i: int| 0 <= i < front.len() implies is_plain_name(#[trigger] front[i])
            && front[i] != seq!['|'] by {
            assert(front[i] == ws[i]);
        }
        lemma_unbracketed(front);
        let w = ws[ws.len() - 1];
        assert(is_plain_name(w));
        let set = seq!['[', ']', '(', ')'];
        assert(set[0] == '[' && set[1] == ']' && set[2] == '(' && set[3] == ')');
        assert forall|c: char| is_name_letter(c) implies !#[trigger] brackets()(c) by {
            if set.contains(c) {
                let n = choose|n: int| 0 <= n < set.len() && set[n] == c;
                assert(n == 0 || n == 1 || n == 2 || n == 3);
            }
        }
        assert(is_name_letter(w[0]) && is_name_letter(w[w.len() - 1]));
        assert(!brackets()(w[0]) && !brackets()(w.last()));
        lemma_strip_none(w, brackets());
        assert(front.push(w) =~= ws);
    }
}

proof fn lemma_spelled_shape(ws: Seq<Seq<char>>, commas: Seq<bool>)
    requires
        ws.len() > 0,
        commas.len() >= ws.len() - 1,
        all_plain(ws),
    ensures
        ({
            let s = spelled(ws, commas);
            &&& s.len() > 0 && s[0] == ws[0][0] && s.last() == ws.last().last()
            &&& forall|i: int|
                0 <= i < s.len() - 1 ==> !(ascii_white(#[trigger] s[i]) && ascii_white(s[i + 1]))
            &&& !is_white_space(s[0]) && !is_white_space(s.last())
            &&& !ascii_white(s.last())
        }),
    decreases ws.len(),
{
    let s = spelled(ws, commas);
    let w = ws[0];
    assert(is_plain_name(w));
    assert forall|i: int| 0 <= i < w.len() implies !ascii_white(#[trigger] w[i])
        && !is_white_space(w[i]) by {
        assert(is_name_letter(w[i]));
    }
    if ws.len() > 1 {
        let tail = ws.skip(1);
        assert forall|i: int| 0 <= i < tail.len() implies is_plain_name(#[trigger] tail[i]) by {
            assert(tail[i] == ws[i + 1]);
        }
        lemma_spelled_shape(tail, commas.skip(1));
        let rest = spelled(tail, commas.skip(1));
        let cut = if commas[0] {
            seq![',', ' ']
        } else {
            seq![' ']
        };
        let n = (w.len() + cut.len()) as int;
        assert(s == w + cut + rest);
        assert(tail.last() == ws.last());
        assert forall|i: int| 0 <= i < s.len() - 1 implies !(ascii_white(#[trigger] s[i])
            && ascii_white(s[i + 1])) by {
            if i < w.len() {
                assert(s[i] == w[i]);
            } else if i < n - 1 {
                assert(s[i] == ',');
            } else if i == n - 1 {
                assert(s[i + 1] == rest[0]);
                assert(is_plain_name(tail[0]));
                assert(is_name_letter(tail[0][0]));
            } else {
                assert(s[i] == rest[i - n] && s[i + 1] == rest[i - n + 1]);
            }
        }
    }
}

proof fn lemma_split(s: Seq<char>, n: nat, d: Seq<char>)
    requires
        s.len() > 0,
        !is_white_space(s[0]) && !is_white_space(s.last()) && !ascii_white(s.last()),
        forall|i: int|
            0 <= i < s.len() - 1 ==> !(ascii_white(#[trigger] s[i]) && ascii_white(s[i + 1])),
        n >= 2,
        is_description(d),
    ensures
        split_gap(s + spaces(n) + d) == (s, d),
{
    let t = s + spaces(n) + d;
    let k = s.len() as int;
    assert forall|j: int| 0 <= j < k implies !(ascii_white(#[trigger] t[j]) && ascii_white(t[j + 1])) by {
        assert(t[j] == s[j]);
        if j + 1 < k {
            assert(t[j + 1] == s[j + 1]);
        }
    }
    assert(t[k] == ' ' && t[k + 1] == ' ');
    lemma_gap_is(t, 0, k);
    assert(t.take(k) =~= spaces(0) + s + spaces(0));
    lemma_trimmed(0, s, 0);
    assert(t.skip(k) =~= spaces(n) + d + spaces(0));
    lemma_trimmed(n, d, 0);
}

/// A name and its description on a line, with two spaces or more between them,
/// are read as they are, however far the line is indented.
pub proof fn law_names_are_read(indent: nat, name: Seq<char>, n: nat, d: Seq<char>)
    requires
        is_plain_name(name),
        name[0] != '-',
        n >= 2,
        is_description(d),
    ensures
        name_line(spaces(indent) + name + spaces(n) + d) == Some((name, d)),
{
    let line = spaces(indent) + name + spaces(n) + d;
    let t = name + spaces(n) + d;
    lemma_spelled_shape(seq![name], seq![]);
    assert(spelled(seq![name], seq![]) == name);
    lemma_split(name, n, d);
    assert(t[0] == name[0] && t.last() == d.last());
    assert(line =~= spaces(indent) + t + spaces(0));
    lemma_trimmed(indent, t, 0);
    assert(t.len() > name.len());
}

/// A flag as a help text spells it: its short name, its long name and the name
/// of its value, as far as it has them.
pub ghost struct Spelling {
    pub short: Option<char>,
    pub long: Option<Seq<char>>,
    pub value: Option<Seq<char>>,
}

/// The flag can be spelled so: it has a name, and its names and that of its value
/// are such.
pub open spec fn can_be_spelled(f: Spelling) -> bool {
    &&& f.short is Some || f.long is Some
    &&& f.short matches Some(c) ==> is_name_letter(c) && c != '-'
    &&& f.long matches Some(name) ==> is_plain_name(name) && name.last() != '.'
    &&& f.value matches Some(name) ==> is_plain_name(name)
}

/// The words in which a flag is spelled: `-s`, `--long` and `<VALUE>`.
pub open spec fn flag_spelling(f: Spelling) -> Seq<Seq<char>> {
    (match f.short {
        Some(c) => seq![seq!['-', c]],
        None => seq![],
    }) + (match f.long {
        Some(name) => seq![seq!['-', '-'] + name],
        None => seq![],
    }) + (match f.value {
        Some(name) => seq![seq!['<'] + name + seq!['>']],
        None => seq![],
    })
}

proof fn lemma_flag_spelling(f: Spelling)
    requires
        can_be_spelled(f),
    ensures
        ({
            let ws = flag_spelling(f);
            &&& ws.len() > 0
            &&& all_plain(ws)
            &&& forall|i: int| 0 <= i < ws.len() ==> #[trigger] ws[i] != seq!['|']
            &&& ws[0][0] == '-'
        }),
{
    let ws = flag_spelling(f);
    assert forall|i: int| 0 <= i < ws.len() implies is_plain_name(#[trigger] ws[i]) && ws[i] != seq![
        '|',
    ] by {
        let w = ws[i];
        assert(seq!['|'].len() == 1);
        if w.len() == 2 && w[0] == '-' && f.short is Some && i == 0 {
            assert forall|k: int| 0 <= k < w.len() implies is_name_letter(#[trigger] w[k]) by {
                assert(w[0] == '-' && w[1] == f.short->0);
            }
        } else if w.len() > 2 && w[0] == '-' {
            let name = f.long->0;
            assert(w == seq!['-', '-'] + name);
            assert forall|k: int| 0 <= k < w.len() implies is_name_letter(#[trigger] w[k]) by {
                if k >= 2 {
                    assert(w[k] == name[k - 2]);
                }
            }
        } else {
            let name = f.value->0;
            assert(w == seq!['<'] + name + seq!['>']);
            assert forall|k: int| 0 <= k < w.len() implies is_name_letter(#[trigger] w[k]) by {
                if 1 <= k <= name.len() {
                    assert(w[k] == name[k - 1]);
                }
            }
        }
    }
}

proof fn lemma_no_equals(w: Seq<char>)
    requires
        is_plain_name(w),
    ensures
        halves(w, '=') is None,
{
    assert forall|i: int| 0 <= i < w.len() implies !is_char('=')(#[trigger] w[i]) by {
        assert(is_name_letter(w[i]));
    }
    lemma_find_first(w, is_char('='), w.len() as int);
}

proof fn lemma_no_equals_at_all(ws: Seq<Seq<char>>)
    requires
        all_plain(ws),
    ensures
        value_behind_equals(ws) is None,
    decreases ws.len(),
{
    if ws.len() > 0 {
        assert(is_plain_name(ws[0]));
        lemma_no_equals(ws[0]);
        let tail = ws.skip(1);
        assert forall|i: int| 0 <= i < tail.len() implies is_plain_name(#[trigger] tail[i]) by {
            assert(tail[i] == ws[i + 1]);
        }
        lemma_no_equals_at_all(tail);
    }
}

proof fn lemma_clean(w: Seq<char>)
    requires
        is_plain_name(w),
        w.last() != '.',
    ensures
        clean_value(w) == w,
        without_dots(w) == w,
{
    let set = seq!['[', ']', '(', ')', ','];
    let p = one_of(set);
    assert(set[0] == '[' && set[1] == ']' && set[2] == '(' && set[3] == ')' && set[4] == ',');
    assert forall|c: char| is_name_letter(c) implies !#[trigger] p(c) by {
        if set.contains(c) {
            let n = choose|n: int| 0 <= n < set.len() && set[n] == c;
            assert(n == 0 || n == 1 || n == 2 || n == 3 || n == 4);
        }
    }
    assert(is_name_letter(w[0]) && is_name_letter(w[w.len() - 1]));
    assert(!p(w[0]) && !p(w.last()));
    lemma_strip_none(w, p);
}

proof fn lemma_value_found(f: Spelling)
    requires
        can_be_spelled(f),
    ensures
        value_name(flag_spelling(f)) == (match f.value {
            Some(name) => Some(seq!['<'] + name + seq!['>']),
            None => None,
        }),
{
    let ws = flag_spelling(f);
    lemma_flag_spelling(f);
    lemma_no_equals_at_all(ws);
    reveal_with_fuel(value_behind_flag, 4);
    if let Some(c) = f.short {
        assert(ws[0] == seq!['-', c]);
    }
    if let Some(name) = f.long {
        let w = seq!['-', '-'] + name;
        let at = if f.short is Some {
            1int
        } else {
            0
        };
        assert(ws[at] == w);
        assert(w[0] == '-');
        assert(w.last() == name.last());
        assert(is_plain_name(ws[at]));
        lemma_clean(w);
        assert(!is_value(w));
    }
    if let Some(name) = f.value {
        let v = seq!['<'] + name + seq!['>'];
        let at = ws.len() - 1;
        assert(ws[at] == v);
        assert(is_plain_name(ws[at]));
        assert(v.last() == '>');
        assert(v[0] == '<');
        lemma_clean(v);
        assert(is_value(v));
        if f.short is Some && f.long is Some {
            assert(ws.len() == 3);
            assert(ws.skip(1)[0] == ws[1] && ws.skip(1)[1] == ws[2]);
        } else {
            assert(ws.len() == 2);
        }
    } else {
        if ws.len() == 2 {
            assert(ws.skip(1).len() == 1);
        }
    }
}

proof fn lemma_names_found(f: Spelling)
    requires
        can_be_spelled(f),
    ensures
        ({
            let ws = flag_spelling(f);
            &&& first_where(ws, |w: Seq<char>| is_short(w)) == (if f.short is Some {
                Some(0int)
            } else {
                None
            })
            &&& first_where(ws, |w: Seq<char>| is_long(w)) == (if f.long is None {
                None
            } else if f.short is Some {
                Some(1int)
            } else {
                Some(0int)
            })
        }),
{
    let ws = flag_spelling(f);
    let a = |w: Seq<char>| is_short(w);
    let b = |w: Seq<char>| is_long(w);
    let at = if f.short is Some {
        1int
    } else {
        0
    };
    let dashes = seq!['-', '-'];
    if let Some(c) = f.short {
        let w = ws[0];
        assert(w == seq!['-', c]);
        assert(w[0] == '-' && w[1] == c);
        assert(a(w));
        assert(!b(w)) by {
            if begins(w, dashes) {
                assert(w.subrange(0, 2)[1] == dashes[1]);
            }
        }
    }
    if let Some(name) = f.long {
        let w = ws[at];
        assert(w == dashes + name);
        assert(w.subrange(0, 2) =~= dashes);
        assert(b(w));
        assert(w[1] == '-');
        assert(!a(w));
    }
    if let Some(name) = f.value {
        let w = ws[ws.len() - 1];
        assert(w == seq!['<'] + name + seq!['>']);
        assert(w[0] == '<');
        assert(!a(w));
        assert(!b(w)) by {
            if begins(w, dashes) {
                assert(w.subrange(0, 2)[0] == dashes[0]);
            }
        }
    }
    assert forall|i: int| 0 <= i < ws.len() implies (#[trigger] a(ws[i])) == (i == 0
        && f.short is Some) by {}
    assert forall|i: int| 0 <= i < ws.len() implies (#[trigger] b(ws[i])) == (i == at
        && f.long is Some) by {}
    lemma_first_where(
        ws,
        a,
        if f.short is Some {
            0int
        } else {
            ws.len() as int
        },
    );
    lemma_first_where(
        ws,
        b,
        if f.long is Some {
            at
        } else {
            ws.len() as int
        },
    );
}

/// What is to be read of a flag that is spelled so.
pub open spec fn flag_meant(f: Spelling, d: Seq<char>) -> Flag {
    Flag {
        short: match f.short {
            Some(c) => Some(seq!['-', c]),
            None => None,
        },
        long: match f.long {
            Some(name) => Some(seq!['-', '-'] + name),
            None => None,
        },
        takes_value: f.value is Some,
        value_name: match f.value {
            Some(name) => Some(seq!['<'] + name + seq!['>']),
            None => None,
        },
        description: d,
    }
}

/// A flag's line: its words, each with a comma or a space behind it, and behind
/// two spaces or more its description.
pub open spec fn flag_written(
    f: Spelling,
    commas: Seq<bool>,
    indent: nat,
    n: nat,
    d: Seq<char>,
) -> Seq<char> {
    spaces(indent) + spelled(flag_spelling(f), commas) + spaces(n) + d
}

/// A flag that is spelled in the usual way is read as it is: its short name, its
/// long name, the value that it takes and its description.
pub proof fn law_flags_are_read(
    f: Spelling,
    commas: Seq<bool>,
    indent: nat,
    n: nat,
    d: Seq<char>,
)
    requires
        can_be_spelled(f),
        commas.len() >= 2,
        n >= 2,
        is_description(d),
    ensures
        flag_line(flag_written(f, commas, indent, n, d)) == FlagLine::Present(flag_meant(f, d)),
{
    let ws = flag_spelling(f);
    let s = spelled(ws, commas);
    let line = flag_written(f, commas, indent, n, d);
    let t = s + spaces(n) + d;
    lemma_flag_spelling(f);
    lemma_spelled_shape(ws, commas);
    lemma_split(s, n, d);
    assert(t[0] == s[0] && t.last() == d.last());
    assert(line =~= spaces(indent) + t + spaces(0));
    lemma_trimmed(indent, t, 0);
    lemma_spelled_fields(ws, commas);
    lemma_unbracketed(ws);
    lemma_names_found(f);
    lemma_value_found(f);
    if let Some(c) = f.short {
        assert(is_name_letter(c));
        assert(ws[0] == seq!['-', c]);
        assert(ws[0].take(2) =~= ws[0]);
    }
    if let Some(name) = f.long {
        let w = seq!['-', '-'] + name;
        let at = if f.short is Some {
            1int
        } else {
            0
        };
        assert(ws[at] == w);
        assert(is_plain_name(ws[at]));
        lemma_no_equals(w);
        assert(w.last() == name.last());
        lemma_clean(w);
    }
}

/// A line of a name and a description without its indent.
pub proof fn lemma_trimmed_line(indent: nat, name: Seq<char>, n: nat, d: Seq<char>)
    requires
        is_plain_name(name),
        is_description(d),
    ensures
        trimmed(spaces(indent) + name + spaces(n) + d) == name + spaces(n) + d,
{
    let t = name + spaces(n) + d;
    lemma_spelled_shape(seq![name], seq![]);
    assert(t[0] == name[0] && t.last() == d.last());
    assert(spaces(indent) + name + spaces(n) + d =~= spaces(indent) + t + spaces(0));
    lemma_trimmed(indent, t, 0);
}

/// A flag's line without its indent.
pub proof fn lemma_trimmed_flag(
    f: Spelling,
    commas: Seq<bool>,
    indent: nat,
    n: nat,
    d: Seq<char>,
)
    requires
        can_be_spelled(f),
        commas.len() >= 2,
        is_description(d),
    ensures
        trimmed(flag_written(f, commas, indent, n, d)) == spelled(flag_spelling(f), commas) + spaces(
            n,
        ) + d,
{
    let s = spelled(flag_spelling(f), commas);
    let t = s + spaces(n) + d;
    lemma_flag_spelling(f);
    lemma_spelled_shape(flag_spelling(f), commas);
    assert(t[0] == s[0] && t.last() == d.last());
    assert(flag_written(f, commas, indent, n, d) =~= spaces(indent) + t + spaces(0));
    lemma_trimmed(indent, t, 0);
}

proof fn lemma_spelled_chars(ws: Seq<Seq<char>>, commas: Seq<bool>)
    requires
        commas.len() >= ws.len() - 1,
        all_plain(ws),
    ensures
        forall|i: int|
            0 <= i < spelled(ws, commas).len() ==> ' ' <= #[trigger] spelled(ws, commas)[i] <= '~',
    decreases ws.len(),
{
    let s = spelled(ws, commas);
    if ws.len() > 0 {
        let w = ws[0];
        assert(is_plain_name(w));
        assert forall|i: int| 0 <= i < w.len() implies ' ' <= #[trigger] w[i] <= '~' by {
            assert(is_name_letter(w[i]));
        }
        if ws.len() > 1 {
            let tail = ws.skip(1);
            assert forall|i: int| 0 <= i < tail.len() implies is_plain_name(#[trigger] tail[i]) by {
                assert(tail[i] == ws[i + 1]);
            }
            lemma_spelled_chars(tail, commas.skip(1));
            let rest = spelled(tail, commas.skip(1));
            let cut = if commas[0] {
                seq![',', ' ']
            } else {
                seq![' ']
            };
            let n = (w.len() + cut.len()) as int;
            assert(s == w + cut + rest);
            assert forall|i: int| 0 <= i < s.len() implies ' ' <= #[trigger] s[i] <= '~' by {
                if i < w.len() {
                    assert(s[i] == w[i]);
                } else if i < n {
                    assert(s[i] == cut[i - w.len()]);
                } else {
                    assert(s[i] == rest[i - n]);
                }
            }
        }
    }
}

/// A flag is spelled on one line.
pub proof fn lemma_spelled_line(f: Spelling, commas: Seq<bool>)
    requires
        can_be_spelled(f),
        commas.len() >= 2,
    ensures
        !spelled(flag_spelling(f), commas).contains('\n'),
{
    let s = spelled(flag_spelling(f), commas);
    lemma_flag_spelling(f);
    lemma_spelled_chars(flag_spelling(f), commas);
    if s.contains('\n') {
        let i = choose|i: int| 0 <= i < s.len() && s[i] == '\n';
        assert(' ' <= s[i]);
    }
}

} // verus!
