//! The escape sequences in help texts: colours, links and character sets.

use vstd::prelude::*;

verus! {

/// The pattern of the escape sequences that help texts hold.
pub open spec fn ansi_pattern() -> Seq<char> {
    r"\x1b\[[0-9;?]*[a-zA-Z]|\x1b\][^\x07\x1b]*(?:\x07|\x1b\\)|\x1b[()][\x20-\x7e]"@
}

pub open spec fn is_parameter(c: char) -> bool {
    '0' <= c <= '9' || c == ';' || c == '?'
}

pub open spec fn is_letter(c: char) -> bool {
    'a' <= c <= 'z' || 'A' <= c <= 'Z'
}

/// A character that stands in a command to the operating system.
pub open spec fn is_payload(c: char) -> bool {
    c != '\u{7}' && c != '\u{1b}'
}

/// Where the characters of a kind that stand at `i` end.
pub open spec fn run_end(s: Seq<char>, i: int, kind: spec_fn(char) -> bool) -> int
    decreases s.len() - i,
{
    if 0 <= i < s.len() && kind(s[i]) {
        run_end(s, i + 1, kind)
    } else {
        i
    }
}

/// How long the escape sequence is that a text begins with, if it begins with
/// one: a control sequence, a command to the operating system that a bell or a
/// terminator ends, or the choice of a character set.
pub open spec fn escape_len(s: Seq<char>) -> Option<int> {
    if s.len() < 2 || s[0] != '\u{1b}' {
        None
    } else if s[1] == '[' {
        let j = run_end(s, 2, |c: char| is_parameter(c));
        if j < s.len() && is_letter(s[j]) {
            Some(j + 1)
        } else {
            None
        }
    } else if s[1] == ']' {
        let j = run_end(s, 2, |c: char| is_payload(c));
        if j < s.len() && s[j] == '\u{7}' {
            Some(j + 1)
        } else if j + 1 < s.len() && s[j] == '\u{1b}' && s[j + 1] == '\\' {
            Some(j + 2)
        } else {
            None
        }
    } else if (s[1] == '(' || s[1] == ')') && s.len() > 2 && ' ' <= s[2] <= '~' {
        Some(3)
    } else {
        None
    }
}

/// A text without the escape sequences in it.
pub open spec fn unescaped(s: Seq<char>) -> Seq<char>
    decreases s.len(),
{
    if s.len() == 0 {
        s
    } else {
        match escape_len(s) {
            Some(n) => {
                proof {
                    lemma_escape_len(s);
                }
                unescaped(s.skip(n))
            },
            None => seq![s[0]] + unescaped(s.skip(1)),
        }
    }
}

proof fn lemma_run_end(s: Seq<char>, i: int, kind: spec_fn(char) -> bool)
    requires
        0 <= i <= s.len(),
    ensures
        i <= run_end(s, i, kind) <= s.len(),
    decreases s.len() - i,
{
    if i < s.len() && kind(s[i]) {
        lemma_run_end(s, i + 1, kind);
    }
}

/// An escape sequence is part of the text.
pub proof fn lemma_escape_len(s: Seq<char>)
    ensures
        escape_len(s) matches Some(n) ==> 2 < n <= s.len(),
{
    if s.len() >= 2 {
        lemma_run_end(s, 2, |c: char| is_parameter(c));
        lemma_run_end(s, 2, |c: char| is_payload(c));
    }
}

proof fn lemma_run_end_before(s: Seq<char>, more: Seq<char>, i: int, kind: spec_fn(char) -> bool)
    requires
        0 <= i,
        run_end(s, i, kind) < s.len(),
    ensures
        run_end(s + more, i, kind) == run_end(s, i, kind),
    decreases s.len() - i,
{
    if i < s.len() && kind(s[i]) {
        lemma_run_end_before(s, more, i + 1, kind);
    }
}

/// A text is an escape sequence.
pub open spec fn is_escape(s: Seq<char>) -> bool {
    escape_len(s) == Some(s.len() as int)
}

proof fn lemma_escape_before(s: Seq<char>, more: Seq<char>)
    requires
        is_escape(s),
    ensures
        escape_len(s + more) == Some(s.len() as int),
{
    lemma_escape_len(s);
    if s[1] == '[' {
        lemma_run_end_before(s, more, 2, |c: char| is_parameter(c));
    } else if s[1] == ']' {
        lemma_run_end_before(s, more, 2, |c: char| is_payload(c));
    }
}

/// What a program writes: a character, or an escape sequence.
pub ghost enum Bit {
    Char(char),
    Escape(Seq<char>),
}

/// It is what it is called.
pub open spec fn is_proper(b: Bit) -> bool {
    match b {
        Bit::Char(c) => c != '\u{1b}',
        Bit::Escape(e) => is_escape(e),
    }
}

/// All that is written.
pub open spec fn written(bits: Seq<Bit>) -> Seq<char>
    decreases bits.len(),
{
    if bits.len() == 0 {
        seq![]
    } else {
        (match bits[0] {
            Bit::Char(c) => seq![c],
            Bit::Escape(e) => e,
        }) + written(bits.skip(1))
    }
}

/// The characters alone.
pub open spec fn shown(bits: Seq<Bit>) -> Seq<char>
    decreases bits.len(),
{
    if bits.len() == 0 {
        seq![]
    } else {
        (match bits[0] {
            Bit::Char(c) => seq![c],
            Bit::Escape(_) => seq![],
        }) + shown(bits.skip(1))
    }
}

/// Escape sequences between the characters of a text can be taken out of it
/// again, and from the text alone nothing is taken.
pub proof fn law_escapes_come_out(bits: Seq<Bit>)
    requires
        forall|i: int| 0 <= i < bits.len() ==> is_proper(#[trigger] bits[i]),
    ensures
        unescaped(written(bits)) == shown(bits),
        unescaped(shown(bits)) == shown(bits),
    decreases bits.len(),
{
    if bits.len() > 0 {
        let rest = bits.skip(1);
        assert forall|i: int| 0 <= i < rest.len() implies is_proper(#[trigger] rest[i]) by {
            assert(rest[i] == bits[i + 1]);
        }
        law_escapes_come_out(rest);
        assert(is_proper(bits[0]));
        match bits[0] {
            Bit::Char(c) => {
                assert((seq![c] + written(rest)).skip(1) =~= written(rest));
                assert((seq![c] + shown(rest)).skip(1) =~= shown(rest));
            },
            Bit::Escape(e) => {
                lemma_escape_len(e);
                lemma_escape_before(e, written(rest));
                assert((e + written(rest)).skip(e.len() as int) =~= written(rest));
                assert(Seq::<char>::empty() + shown(rest) =~= shown(rest));
            },
        }
    }
}

proof fn lemma_run_end_is(s: Seq<char>, i: int, k: int, kind: spec_fn(char) -> bool)
    requires
        0 <= i <= k <= s.len(),
        forall|j: int| i <= j < k ==> kind(#[trigger] s[j]),
        k < s.len() ==> !kind(s[k]),
    ensures
        run_end(s, i, kind) == k,
    decreases k - i,
{
    if i < k {
        assert(kind(s[i]));
        lemma_run_end_is(s, i + 1, k, kind);
    }
}

/// The escape sequences: `ESC [` with digits, semicolons and question marks and
/// a letter; `ESC ]` with anything up to a bell or `ESC \`; and `ESC (` or `ESC )`
/// with a character that shows. They are taken out of a text, and an escape that
/// begins none of them stays, like any other character.
pub proof fn law_escape_sequences(
    parameters: Seq<char>,
    letter: char,
    payload: Seq<char>,
    set: char,
    more: Seq<char>,
    c: char,
)
    requires
        forall|i: int|
            0 <= i < parameters.len() ==> '0' <= #[trigger] parameters[i] <= '9' || parameters[i]
                == ';' || parameters[i] == '?',
        'a' <= letter <= 'z' || 'A' <= letter <= 'Z',
        forall|i: int|
            0 <= i < payload.len() ==> #[trigger] payload[i] != '\u{7}' && payload[i] != '\u{1b}',
        ' ' <= set <= '~',
        c != '[' && c != ']' && c != '(' && c != ')',
    ensures
        unescaped(seq!['\u{1b}', '['] + parameters + seq![letter] + more) == unescaped(more),
        unescaped(seq!['\u{1b}', ']'] + payload + seq!['\u{7}'] + more) == unescaped(more),
        unescaped(seq!['\u{1b}', ']'] + payload + seq!['\u{1b}', '\\'] + more) == unescaped(more),
        unescaped(seq!['\u{1b}', '(', set] + more) == unescaped(more),
        unescaped(seq!['\u{1b}', ')', set] + more) == unescaped(more),
        unescaped(seq!['\u{1b}', c] + more) == seq!['\u{1b}'] + unescaped(seq![c] + more),
        c != '\u{1b}' ==> unescaped(seq![c] + more) == seq![c] + unescaped(more),
{
    let a = seq!['\u{1b}', '['] + parameters + seq![letter];
    let s = a + more;
    let n = parameters.len() as int;
    let p = |x: char| is_parameter(x);
    assert forall|j: int| 2 <= j < 2 + n implies p(#[trigger] s[j]) by {
        assert(s[j] == parameters[j - 2]);
    }
    assert(s[2 + n] == letter);
    lemma_run_end_is(s, 2, 2 + n, p);
    assert(s.skip(3 + n) =~= more);
    let q = |x: char| is_payload(x);
    let m = payload.len() as int;
    let t = seq!['\u{1b}', ']'] + payload + seq!['\u{7}'] + more;
    assert forall|j: int| 2 <= j < 2 + m implies q(#[trigger] t[j]) by {
        assert(t[j] == payload[j - 2]);
    }
    assert(t[2 + m] == '\u{7}');
    lemma_run_end_is(t, 2, 2 + m, q);
    assert(t.skip(3 + m) =~= more);
    let u = seq!['\u{1b}', ']'] + payload + seq!['\u{1b}', '\\'] + more;
    assert forall|j: int| 2 <= j < 2 + m implies q(#[trigger] u[j]) by {
        assert(u[j] == payload[j - 2]);
    }
    assert(u[2 + m] == '\u{1b}' && u[3 + m] == '\\');
    lemma_run_end_is(u, 2, 2 + m, q);
    assert(u.skip(4 + m) =~= more);
    assert((seq!['\u{1b}', '(', set] + more).skip(3) =~= more);
    assert((seq!['\u{1b}', ')', set] + more).skip(3) =~= more);
    let v = seq!['\u{1b}', c] + more;
    assert(v[0] == '\u{1b}' && v[1] == c);
    assert(v.skip(1) =~= seq![c] + more);
    assert((seq![c] + more).skip(1) =~= more);
}

} // verus!
