//! Splits a command line into shell-like tokens.
//!
//! Only the ASCII characters of the shell's own syntax are special; every
//! other character belongs to a word. Positions are byte offsets.

use crate::text::{
    chars_of, lemma_width_add, lemma_width_push, lemma_width_take, string_of, utf8_len, width,
};
use vstd::prelude::*;
use vstd::slice::slice_subrange;

verus! {

#[derive(Debug, Clone, Copy, PartialEq, Eq, Structural)]
pub enum RedirectKind {
    Out,
    Append,
    In,
    Heredoc,
    ErrTo,
    Unknown,
}

#[derive(Debug, Clone, Copy, PartialEq, Eq, Structural)]
pub enum TokenKind {
    Word,
    Pipe,
    Redirect(RedirectKind),
    Background,
    Sequence,
    Unterminated,
}

/// One token of a command line.
#[derive(Debug, Clone)]
pub struct Token {
    /// The text that the token stands for, without quotes and escapes.
    pub text: String,
    /// The token as it is written in the buffer.
    pub raw: String,
    /// Byte offset in the buffer at which `raw` begins.
    pub start: usize,
    /// Byte offset in the buffer just behind `raw`.
    pub end: usize,
    pub kind: TokenKind,
}

/// The tokens of a buffer and the one that the cursor is in.
#[derive(Debug)]
pub struct Tokenized {
    pub tokens: Vec<Token>,
    /// Index of the token that holds the cursor.
    pub current_token_idx: Option<usize>,
    /// Byte offset of the cursor in that token.
    pub current_token_offset: usize,
}

/// A token over character positions: it is written as `s[from..to]`.
pub ghost struct Lexeme {
    pub from: int,
    pub to: int,
    pub text: Seq<char>,
    pub kind: TokenKind,
}

/// What is left of a word from some position on: where it ends, what its
/// text adds, and whether a quote in it is left open.
pub ghost struct Tail {
    pub to: int,
    pub text: Seq<char>,
    pub open: bool,
}

/// The characters that separate tokens.
pub open spec fn is_blank(c: char) -> bool {
    c == ' ' || c == '\t'
}

/// The characters that end a word because an operator begins there.
pub open spec fn ends_word(c: char) -> bool {
    c == '|' || c == '&' || c == ';' || c == '>' || c == '<'
}

/// The operator that is written at position `i`: its length and kind.
pub open spec fn operator(s: Seq<char>, i: int) -> Option<(int, TokenKind)> {
    let c = s[i];
    let next = if i + 1 < s.len() {
        Some(s[i + 1])
    } else {
        None
    };
    if c == '2' && next == Some('>') {
        Some((2int, TokenKind::Redirect(RedirectKind::ErrTo)))
    } else if c == '&' && next == Some('>') {
        Some((2int, TokenKind::Redirect(RedirectKind::Out)))
    } else if c == '>' && next == Some('>') {
        Some((2int, TokenKind::Redirect(RedirectKind::Append)))
    } else if c == '<' && next == Some('<') {
        Some((2int, TokenKind::Redirect(RedirectKind::Heredoc)))
    } else if (c == '|' || c == '&') && next == Some(c) {
        Some((2int, TokenKind::Sequence))
    } else if c == '>' {
        Some((1int, TokenKind::Redirect(RedirectKind::Out)))
    } else if c == '<' {
        Some((1int, TokenKind::Redirect(RedirectKind::In)))
    } else if c == '|' {
        Some((1int, TokenKind::Pipe))
    } else if c == '&' {
        Some((1int, TokenKind::Background))
    } else if c == ';' {
        Some((1int, TokenKind::Sequence))
    } else {
        None
    }
}

/// `text` followed by the rest `t`.
pub open spec fn prefixed(text: Seq<char>, t: Tail) -> Tail {
    Tail { to: t.to, text: text + t.text, open: t.open }
}

/// Inside single quotes, from position `i`: everything up to the next quote is
/// literal. `to` is the position of that quote.
pub open spec fn single_quoted(s: Seq<char>, i: int) -> Tail
    decreases s.len() - i,
{
    if i >= s.len() {
        Tail { to: s.len() as int, text: seq![], open: true }
    } else if s[i] == '\'' {
        Tail { to: i, text: seq![], open: false }
    } else {
        prefixed(seq![s[i]], single_quoted(s, i + 1))
    }
}

/// Inside double quotes, from position `i`: a backslash quotes `"` and `\`,
/// and stands for itself before any other character. `to` is the position of
/// the closing quote.
pub open spec fn double_quoted(s: Seq<char>, i: int) -> Tail
    decreases s.len() - i,
{
    if i >= s.len() {
        Tail { to: s.len() as int, text: seq![], open: true }
    } else if s[i] == '"' {
        Tail { to: i, text: seq![], open: false }
    } else if s[i] == '\\' && i + 1 < s.len() {
        let c = s[i + 1];
        let text = if c == '"' || c == '\\' {
            seq![c]
        } else {
            seq!['\\', c]
        };
        prefixed(text, double_quoted(s, i + 2))
    } else {
        prefixed(seq![s[i]], double_quoted(s, i + 1))
    }
}

/// The rest of a word from position `i` on. Outside quotes a backslash quotes
/// the next character, and vanishes together with a newline.
pub open spec fn word(s: Seq<char>, i: int) -> Tail
    decreases s.len() - i,
{
    if i >= s.len() || is_blank(s[i]) || ends_word(s[i]) {
        Tail { to: i, text: seq![], open: false }
    } else if s[i] == '\'' || s[i] == '"' {
        let q = if s[i] == '"' {
            double_quoted(s, i + 1)
        } else {
            single_quoted(s, i + 1)
        };
        if q.open || !(i < q.to < s.len()) {
            q
        } else {
            prefixed(q.text, word(s, q.to + 1))
        }
    } else if s[i] == '\\' && i + 1 < s.len() {
        let text = if s[i + 1] == '\n' {
            seq![]
        } else {
            seq![s[i + 1]]
        };
        prefixed(text, word(s, i + 2))
    } else {
        prefixed(seq![s[i]], word(s, i + 1))
    }
}

/// The token that begins at position `i`, which is no blank.
#[verifier::opaque]
pub open spec fn lexeme(s: Seq<char>, i: int) -> Lexeme {
    match operator(s, i) {
        Some((n, kind)) => Lexeme { from: i, to: i + n, text: s.subrange(i, i + n), kind },
        None => {
            let t = word(s, i);
            Lexeme {
                from: i,
                to: t.to,
                text: t.text,
                kind: if t.open {
                    TokenKind::Unterminated
                } else {
                    TokenKind::Word
                },
            }
        },
    }
}

/// The tokens of `s` from position `i` on.
pub open spec fn lexemes(s: Seq<char>, i: int) -> Seq<Lexeme>
    decreases s.len() - i,
{
    if i >= s.len() {
        seq![]
    } else if is_blank(s[i]) {
        lexemes(s, i + 1)
    } else {
        let t = lexeme(s, i);
        if !(i < t.to <= s.len()) {
            seq![t]
        } else {
            seq![t] + lexemes(s, t.to)
        }
    }
}

/// `t` is the lexeme `l` of the buffer `s`.
pub open spec fn represents(t: Token, l: Lexeme, s: Seq<char>) -> bool {
    &&& t.text@ == l.text
    &&& t.raw@ == s.subrange(l.from, l.to)
    &&& t.start == width(s.take(l.from))
    &&& t.end == width(s.take(l.to))
    &&& t.kind == l.kind
}

/// Whether the byte offset `cursor` is in the token `t`.
pub open spec fn holds(t: Token, cursor: usize) -> bool {
    t.start <= cursor < t.end
}

/// The token that a cursor belongs to: the first that holds it; else, at the
/// end of a buffer that does not end in a blank, the last token if it reaches
/// the end.
pub open spec fn current(s: Seq<char>, tokens: Seq<Token>, cursor: usize) -> Option<int> {
    if exists|k: int| 0 <= k < tokens.len() && holds(#[trigger] tokens[k], cursor) {
        Some(
            choose|k: int|
                0 <= k < tokens.len() && holds(#[trigger] tokens[k], cursor) && (forall|j: int|
                    0 <= j < k ==> !holds(#[trigger] tokens[j], cursor)),
        )
    } else if cursor == width(s) && s.len() > 0 && !is_blank(s.last()) && tokens.len() > 0
        && tokens.last().end == cursor {
        Some(tokens.len() - 1)
    } else {
        None
    }
}

/// A quoted part that closes does so at a later position.
proof fn lemma_single_quoted(s: Seq<char>, i: int)
    requires
        0 <= i <= s.len(),
    ensures
        i <= single_quoted(s, i).to <= s.len(),
        !single_quoted(s, i).open ==> single_quoted(s, i).to < s.len(),
        single_quoted(s, i).open ==> single_quoted(s, i).to == s.len(),
    decreases s.len() - i,
{
    if i < s.len() && s[i] != '\'' {
        lemma_single_quoted(s, i + 1);
    }
}

proof fn lemma_double_quoted(s: Seq<char>, i: int)
    requires
        0 <= i <= s.len(),
    ensures
        i <= double_quoted(s, i).to <= s.len(),
        !double_quoted(s, i).open ==> double_quoted(s, i).to < s.len(),
        double_quoted(s, i).open ==> double_quoted(s, i).to == s.len(),
    decreases s.len() - i,
{
    if i < s.len() && s[i] != '"' {
        if s[i] == '\\' && i + 1 < s.len() {
            lemma_double_quoted(s, i + 2);
        } else {
            lemma_double_quoted(s, i + 1);
        }
    }
}

/// Where a word ends.
pub proof fn lemma_word(s: Seq<char>, i: int)
    requires
        0 <= i <= s.len(),
    ensures
        i <= word(s, i).to <= s.len(),
        i < s.len() && !is_blank(s[i]) && !ends_word(s[i]) ==> i < word(s, i).to,
        word(s, i).open ==> word(s, i).to == s.len(),
    decreases s.len() - i,
{
    if i < s.len() && !is_blank(s[i]) && !ends_word(s[i]) {
        if s[i] == '"' {
            lemma_double_quoted(s, i + 1);
            let q = double_quoted(s, i + 1);
            if !q.open {
                lemma_word(s, q.to + 1);
            }
        } else if s[i] == '\'' {
            lemma_single_quoted(s, i + 1);
            let q = single_quoted(s, i + 1);
            if !q.open {
                lemma_word(s, q.to + 1);
            }
        } else if s[i] == '\\' && i + 1 < s.len() {
            lemma_word(s, i + 2);
        } else {
            lemma_word(s, i + 1);
        }
    }
}

/// Where a token begins and ends.
proof fn lemma_lexeme(s: Seq<char>, i: int)
    requires
        0 <= i < s.len(),
        !is_blank(s[i]),
    ensures
        lexeme(s, i).from == i,
        i < lexeme(s, i).to <= s.len(),
{
    reveal(lexeme);
    lemma_word(s, i);
}

/// Position `p` is inside one of the tokens.
pub open spec fn covered(ls: Seq<Lexeme>, p: int) -> bool {
    exists|k: int| 0 <= k < ls.len() && (#[trigger] ls[k]).from <= p < ls[k].to
}

/// The tokens of a buffer stand in its order without overlap, each is not
/// empty, and only blanks stand outside them.
pub proof fn law_blanks_between(s: Seq<char>, i: int)
    requires
        0 <= i <= s.len(),
    ensures
        forall|k: int|
            0 <= k < lexemes(s, i).len() ==> {
                let l = #[trigger] lexemes(s, i)[k];
                &&& i <= l.from < l.to <= s.len()
                &&& l == lexeme(s, l.from)
                &&& !is_blank(s[l.from])
            },
        forall|k: int, m: int|
            0 <= k < m < lexemes(s, i).len() ==> (#[trigger] lexemes(s, i)[k]).to <= (
            #[trigger] lexemes(s, i)[m]).from,
        forall|p: int| i <= p < s.len() && !is_blank(s[p]) ==> #[trigger] covered(lexemes(s, i), p),
    decreases s.len() - i,
{
    if i < s.len() {
        if is_blank(s[i]) {
            law_blanks_between(s, i + 1);
        } else {
            lemma_lexeme(s, i);
            let t = lexeme(s, i);
            let rest = lexemes(s, t.to);
            let all = lexemes(s, i);
            law_blanks_between(s, t.to);
            assert(all == seq![t] + rest);
            assert(all[0] == t);
            assert forall|k: int| 1 <= k < all.len() implies #[trigger] all[k] == rest[k - 1] by {}
            assert forall|p: int| i <= p < s.len() && !is_blank(s[p]) implies #[trigger] covered(
                all,
                p,
            ) by {
                if p < t.to {
                    assert(all[0].from <= p < all[0].to);
                } else {
                    assert(covered(rest, p));
                    let k = choose|k: int|
                        0 <= k < rest.len() && (#[trigger] rest[k]).from <= p < rest[k].to;
                    assert(all[k + 1] == rest[k]);
                }
            }
        }
    }
}

/// Whether `c` separates tokens.
fn blank(c: char) -> (b: bool)
    ensures
        b == is_blank(c),
{
    c == ' ' || c == '\t'
}

/// The operator that is written at position `i`: its length and kind.
fn operator_at(s: &[char], i: usize) -> (r: Option<(usize, TokenKind)>)
    requires
        i < s@.len(),
    ensures
        match r {
            Some((n, kind)) => operator(s@, i as int) == Some((n as int, kind)) && i + n <= s@.len()
                && 1 <= n,
            None => operator(s@, i as int) is None,
        },
{
    let c: char = s[i];
    if i + 1 < s.len() {
        let d: char = s[i + 1];
        if d == '>' {
            if c == '2' {
                return Some((2, TokenKind::Redirect(RedirectKind::ErrTo)));
            }
            if c == '&' {
                return Some((2, TokenKind::Redirect(RedirectKind::Out)));
            }
            if c == '>' {
                return Some((2, TokenKind::Redirect(RedirectKind::Append)));
            }
        }
        if c == '<' && d == '<' {
            return Some((2, TokenKind::Redirect(RedirectKind::Heredoc)));
        }
        if (c == '|' || c == '&') && d == c {
            return Some((2, TokenKind::Sequence));
        }
    }
    match c {
        '>' => Some((1, TokenKind::Redirect(RedirectKind::Out))),
        '<' => Some((1, TokenKind::Redirect(RedirectKind::In))),
        '|' => Some((1, TokenKind::Pipe)),
        '&' => Some((1, TokenKind::Background)),
        ';' => Some((1, TokenKind::Sequence)),
        _ => None,
    }
}

/// Reads a single-quoted part from position `i`, behind its opening quote, and
/// adds its text to `text`. Returns the position of the closing quote, or the
/// length.
fn read_single(s: &[char], i: usize, text: &mut Vec<char>) -> (to: usize)
    requires
        i <= s@.len(),
    ensures
        to == single_quoted(s@, i as int).to,
        single_quoted(s@, i as int).open == (to >= s@.len()),
        i <= to <= s@.len(),
        final(text)@ == old(text)@ + single_quoted(s@, i as int).text,
{
    let mut j: usize = i;
    assert(text@ + single_quoted(s@, i as int).text =~= old(text)@ + single_quoted(s@, i as int).text);
    while j < s.len() && s[j] != '\''
        invariant
            i <= j <= s@.len(),
            single_quoted(s@, j as int).to == single_quoted(s@, i as int).to,
            single_quoted(s@, j as int).open == single_quoted(s@, i as int).open,
            text@ + single_quoted(s@, j as int).text == old(text)@ + single_quoted(
                s@,
                i as int,
            ).text,
        decreases s@.len() - j,
    {
        let ghost rest = single_quoted(s@, j + 1).text;
        assert(text@ + (seq![s@[j as int]] + rest) =~= text@.push(s@[j as int]) + rest);
        text.push(s[j]);
        j = j + 1;
    }
    assert(text@ + single_quoted(s@, j as int).text =~= text@);
    j
}

/// Reads a double-quoted part from position `i`, behind its opening quote, and
/// adds its text to `text`. Returns the position of the closing quote, or the
/// length.
fn read_double(s: &[char], i: usize, text: &mut Vec<char>) -> (to: usize)
    requires
        i <= s@.len(),
    ensures
        to == double_quoted(s@, i as int).to,
        double_quoted(s@, i as int).open == (to >= s@.len()),
        i <= to <= s@.len(),
        final(text)@ == old(text)@ + double_quoted(s@, i as int).text,
{
    let mut j: usize = i;
    while j < s.len() && s[j] != '"'
        invariant
            i <= j <= s@.len(),
            double_quoted(s@, j as int).to == double_quoted(s@, i as int).to,
            double_quoted(s@, j as int).open == double_quoted(s@, i as int).open,
            text@ + double_quoted(s@, j as int).text == old(text)@ + double_quoted(
                s@,
                i as int,
            ).text,
        decreases s@.len() - j,
    {
        let ghost before = text@;
        let ghost at = j as int;
        if s[j] == '\\' && s.len() - j > 1 {
            let c: char = s[j + 1];
            if c == '"' || c == '\\' {
                text.push(c);
                assert(text@ =~= before + seq![c]);
            } else {
                text.push('\\');
                text.push(c);
                assert(text@ =~= before + seq!['\\', c]);
            }
            j = j + 2;
        } else {
            text.push(s[j]);
            assert(text@ =~= before + seq![s@[at]]);
            j = j + 1;
        }
        proof {
            let added = text@.skip(before.len() as int);
            assert(text@ =~= before + added);
            assert(double_quoted(s@, at).text =~= added + double_quoted(s@, j as int).text);
            assert(before + (added + double_quoted(s@, j as int).text) =~= (before + added)
                + double_quoted(s@, j as int).text);
        }
    }
    assert(text@ + double_quoted(s@, j as int).text =~= text@);
    j
}

/// Reads a word from position `i` on.
fn read_word(s: &[char], i: usize) -> (r: (usize, Vec<char>, bool))
    requires
        i <= s@.len(),
    ensures
        r.0 == word(s@, i as int).to,
        r.1@ == word(s@, i as int).text,
        r.2 == word(s@, i as int).open,
{
    let mut text: Vec<char> = Vec::new();
    let mut j: usize = i;
    assert(text@ + word(s@, i as int).text =~= word(s@, i as int).text);
    while j < s.len()
        invariant_except_break
            i <= j <= s@.len(),
            word(s@, j as int).to == word(s@, i as int).to,
            word(s@, j as int).open == word(s@, i as int).open,
            text@ + word(s@, j as int).text == word(s@, i as int).text,
        ensures
            j == word(s@, i as int).to,
            text@ == word(s@, i as int).text,
            !word(s@, i as int).open,
        decreases s@.len() - j,
    {
        let c: char = s[j];
        let ghost before = text@;
        let ghost at = j as int;
        if blank(c) || c == '|' || c == '&' || c == ';' || c == '>' || c == '<' {
            assert(text@ + word(s@, j as int).text =~= text@);
            break;
        }
        proof {
            lemma_single_quoted(s@, at + 1);
            lemma_double_quoted(s@, at + 1);
        }
        if c == '\'' || c == '"' {
            let to: usize = if c == '"' {
                read_double(s, j + 1, &mut text)
            } else {
                read_single(s, j + 1, &mut text)
            };
            if to >= s.len() {
                return (to, text, true);
            }
            j = to + 1;
        } else if c == '\\' && s.len() - j > 1 {
            let d: char = s[j + 1];
            if d != '\n' {
                text.push(d);
            }
            j = j + 2;
        } else {
            text.push(c);
            j = j + 1;
        }
        proof {
            let added = text@.skip(before.len() as int);
            assert(text@ =~= before + added);
            assert(word(s@, at).text =~= added + word(s@, j as int).text);
            assert(before + (added + word(s@, j as int).text) =~= (before + added) + word(
                s@,
                j as int,
            ).text);
        }
    }
    assert(j >= s@.len() ==> text@ + word(s@, j as int).text =~= text@);
    (j, text, false)
}

/// The tokens of a list are the lexemes of the buffer `s`.
pub open spec fn all_represent(ts: Seq<Token>, ls: Seq<Lexeme>, s: Seq<char>) -> bool {
    &&& ts.len() == ls.len()
    &&& forall|k: int| 0 <= k < ts.len() ==> represents(#[trigger] ts[k], ls[k], s)
}

/// The byte offset behind the characters `s[..j]`, given that of `s[..i]`.
fn advance(s: &[char], i: usize, j: usize, offset: usize, Ghost(total): Ghost<int>) -> (r: usize)
    requires
        i <= j <= s@.len(),
        offset == width(s@.take(i as int)),
        total == width(s@),
        total <= usize::MAX,
    ensures
        r == width(s@.take(j as int)),
{
    let mut k: usize = i;
    let mut r: usize = offset;
    while k < j
        invariant
            i <= k <= j <= s@.len(),
            r == width(s@.take(k as int)),
            width(s@) <= usize::MAX,
        decreases j - k,
    {
        proof {
            lemma_width_push(s@.take(k as int), s@[k as int]);
            assert(s@.take(k as int).push(s@[k as int]) =~= s@.take(k + 1));
            lemma_width_take(s@, k + 1, k + 1);
        }
        r = r + utf8_len(s[k]);
        k = k + 1;
    }
    r
}

/// All tokens of a buffer.
fn lex(s: &[char], Ghost(total): Ghost<int>) -> (r: Vec<Token>)
    requires
        total == width(s@),
        total <= usize::MAX,
    ensures
        all_represent(r@, lexemes(s@, 0), s@),
{
    let mut tokens: Vec<Token> = Vec::new();
    let mut i: usize = 0;
    let mut offset: usize = 0;
    let ghost mut done: Seq<Lexeme> = seq![];
    assert(done + lexemes(s@, 0) =~= lexemes(s@, 0));
    assert(s@.take(0) =~= Seq::<char>::empty());
    while i < s.len()
        invariant
            i <= s@.len(),
            offset == width(s@.take(i as int)),
            total == width(s@),
            total <= usize::MAX,
            done + lexemes(s@, i as int) == lexemes(s@, 0),
            all_represent(tokens@, done, s@),
        decreases s@.len() - i,
    {
        if blank(s[i]) {
            offset = advance(s, i, i + 1, offset, Ghost(total));
            i = i + 1;
            continue;
        }
        proof {
            reveal(lexeme);
            lemma_lexeme(s@, i as int);
        }
        let (to, text, kind): (usize, Vec<char>, TokenKind) = match operator_at(s, i) {
            Some((n, kind)) => {
                let mut text: Vec<char> = Vec::new();
                text.extend_from_slice(slice_subrange(s, i, i + n));
                assert(text@ =~= s@.subrange(i as int, i + n));
                (i + n, text, kind)
            },
            None => {
                let (to, text, open) = read_word(s, i);
                let kind = if open {
                    TokenKind::Unterminated
                } else {
                    TokenKind::Word
                };
                (to, text, kind)
            },
        };
        let end: usize = advance(s, i, to, offset, Ghost(total));
        let token = Token {
            text: string_of(text.as_slice()),
            raw: string_of(slice_subrange(s, i, to)),
            start: offset,
            end,
            kind,
        };
        proof {
            let l = lexeme(s@, i as int);
            assert(represents(token, l, s@));
            assert(done + (seq![l] + lexemes(s@, to as int)) =~= done.push(l) + lexemes(
                s@,
                to as int,
            ));
            done = done.push(l);
        }
        tokens.push(token);
        offset = end;
        i = to;
    }
    assert(done + lexemes(s@, i as int) =~= done);
    tokens
}

/// The tokens of a buffer stand apart: each has a place of its own in the
/// buffer, as long as what is written there, before those of all later ones.
/// So no cursor is in two of them.
pub proof fn law_tokens_apart(s: Seq<char>, ts: Seq<Token>, cursor: usize)
    requires
        all_represent(ts, lexemes(s, 0), s),
    ensures
        forall|k: int|
            0 <= k < ts.len() ==> (#[trigger] ts[k]).start < ts[k].end <= width(s),
        forall|k: int|
            0 <= k < ts.len() ==> width((#[trigger] ts[k]).raw@) == ts[k].end - ts[k].start,
        forall|k: int, m: int|
            0 <= k < m < ts.len() ==> (#[trigger] ts[k]).end <= (#[trigger] ts[m]).start,
        forall|k: int, m: int|
            0 <= k < m < ts.len() ==> !(holds(#[trigger] ts[k], cursor) && holds(
                #[trigger] ts[m],
                cursor,
            )),
{
    let ls = lexemes(s, 0);
    law_blanks_between(s, 0);
    assert forall|k: int| 0 <= k < ts.len() implies (#[trigger] ts[k]).start < ts[k].end <= width(s)
        && width(ts[k].raw@) == ts[k].end - ts[k].start by {
        let l = ls[k];
        assert(represents(ts[k], l, s));
        lemma_width_take(s, l.from, l.to);
        lemma_width_take(s, l.to, s.len() as int);
        assert(s.take(s.len() as int) =~= s);
        lemma_width_add(s.take(l.from), s.subrange(l.from, l.to));
        assert(s.take(l.from) + s.subrange(l.from, l.to) =~= s.take(l.to));
    }
    assert forall|k: int, m: int| 0 <= k < m < ts.len() implies (#[trigger] ts[k]).end <= (
    #[trigger] ts[m]).start by {
        assert(represents(ts[k], ls[k], s) && represents(ts[m], ls[m], s));
        lemma_width_take(s, ls[k].to, ls[m].from);
    }
}

/// A token that stands `n` characters further on.
pub open spec fn moved(l: Lexeme, n: int) -> Lexeme {
    Lexeme { from: l.from + n, to: l.to + n, ..l }
}

/// Tokens that stand `n` characters further on.
pub open spec fn all_moved(ls: Seq<Lexeme>, n: int) -> Seq<Lexeme> {
    ls.map_values(|l: Lexeme| moved(l, n))
}

/// The rest of a word `n` characters further on.
spec fn tail_moved(t: Tail, n: int) -> Tail {
    Tail { to: t.to + n, ..t }
}

proof fn lemma_single_moved(s: Seq<char>, b: Seq<char>, n: int, i: int)
    requires
        0 <= n <= s.len(),
        b == s.skip(n),
        0 <= i <= b.len(),
    ensures
        single_quoted(s, n + i) == tail_moved(single_quoted(b, i), n),
    decreases b.len() - i,
{
    if i < b.len() && b[i] != '\'' {
        lemma_single_moved(s, b, n, i + 1);
    }
}

proof fn lemma_double_moved(s: Seq<char>, b: Seq<char>, n: int, i: int)
    requires
        0 <= n <= s.len(),
        b == s.skip(n),
        0 <= i <= b.len(),
    ensures
        double_quoted(s, n + i) == tail_moved(double_quoted(b, i), n),
    decreases b.len() - i,
{
    if i < b.len() && b[i] != '"' {
        if b[i] == '\\' && i + 1 < b.len() {
            lemma_double_moved(s, b, n, i + 2);
        } else {
            lemma_double_moved(s, b, n, i + 1);
        }
    }
}

proof fn lemma_word_moved(s: Seq<char>, b: Seq<char>, n: int, i: int)
    requires
        0 <= n <= s.len(),
        b == s.skip(n),
        0 <= i <= b.len(),
    ensures
        word(s, n + i) == tail_moved(word(b, i), n),
    decreases b.len() - i,
{
    if i < b.len() && !is_blank(b[i]) && !ends_word(b[i]) {
        if b[i] == '\'' || b[i] == '"' {
            lemma_single_moved(s, b, n, i + 1);
            lemma_double_moved(s, b, n, i + 1);
            lemma_single_quoted(b, i + 1);
            lemma_double_quoted(b, i + 1);
            let q = if b[i] == '"' {
                double_quoted(b, i + 1)
            } else {
                single_quoted(b, i + 1)
            };
            if !q.open {
                lemma_word_moved(s, b, n, q.to + 1);
            }
        } else if b[i] == '\\' && i + 1 < b.len() {
            lemma_word_moved(s, b, n, i + 2);
        } else {
            lemma_word_moved(s, b, n, i + 1);
        }
    }
}

proof fn lemma_lexemes_moved(s: Seq<char>, b: Seq<char>, n: int, i: int)
    requires
        0 <= n <= s.len(),
        b == s.skip(n),
        0 <= i <= b.len(),
    ensures
        lexemes(s, n + i) == all_moved(lexemes(b, i), n),
    decreases b.len() - i,
{
    if i >= b.len() {
        assert(lexemes(s, n + i) =~= all_moved(lexemes(b, i), n));
    } else if is_blank(b[i]) {
        lemma_lexemes_moved(s, b, n, i + 1);
    } else {
        lemma_lexeme(b, i);
        lemma_word_moved(s, b, n, i);
        let t = lexeme(b, i);
        assert(lexeme(s, n + i) == moved(t, n)) by {
            reveal(lexeme);
            if let Some((k, kind)) = operator(b, i) {
                assert(operator(s, n + i) == operator(b, i));
                assert(s.subrange(n + i, n + i + k) =~= b.subrange(i, i + k));
            } else {
                assert(operator(s, n + i) is None);
            }
        }
        lemma_lexemes_moved(s, b, n, t.to);
        assert(lexemes(s, n + i) =~= seq![moved(t, n)] + lexemes(s, n + t.to));
        assert(lexemes(s, n + i) =~= all_moved(lexemes(b, i), n));
    }
}

proof fn lemma_single_closed(s: Seq<char>, a: Seq<char>, i: int)
    requires
        a.len() <= s.len(),
        a == s.take(a.len() as int),
        0 <= i <= a.len(),
        !single_quoted(a, i).open,
    ensures
        single_quoted(s, i) == single_quoted(a, i),
    decreases a.len() - i,
{
    if a[i] != '\'' {
        lemma_single_closed(s, a, i + 1);
    }
}

proof fn lemma_double_closed(s: Seq<char>, a: Seq<char>, i: int)
    requires
        a.len() <= s.len(),
        a == s.take(a.len() as int),
        0 <= i <= a.len(),
        !double_quoted(a, i).open,
    ensures
        double_quoted(s, i) == double_quoted(a, i),
    decreases a.len() - i,
{
    if a[i] != '"' {
        if a[i] == '\\' && i + 1 < a.len() {
            lemma_double_closed(s, a, i + 2);
        } else {
            lemma_double_closed(s, a, i + 1);
        }
    }
}

/// A blank behind a text ends its last word.
proof fn lemma_word_ends(s: Seq<char>, a: Seq<char>, i: int)
    requires
        a.len() < s.len(),
        a == s.take(a.len() as int),
        is_blank(s[a.len() as int]),
        a.len() > 0 ==> a.last() != '\\',
        0 <= i <= a.len(),
        !word(a, i).open,
    ensures
        word(s, i) == word(a, i),
    decreases a.len() - i,
{
    if i < a.len() && !is_blank(a[i]) && !ends_word(a[i]) {
        if a[i] == '\'' {
            lemma_single_quoted(a, i + 1);
            let q = single_quoted(a, i + 1);
            lemma_single_closed(s, a, i + 1);
            lemma_word_ends(s, a, q.to + 1);
        } else if a[i] == '"' {
            lemma_double_quoted(a, i + 1);
            let q = double_quoted(a, i + 1);
            lemma_double_closed(s, a, i + 1);
            lemma_word_ends(s, a, q.to + 1);
        } else if a[i] == '\\' {
            assert(i + 1 < a.len());
            lemma_word_ends(s, a, i + 2);
        } else {
            lemma_word_ends(s, a, i + 1);
        }
    }
}

/// Every quote of a text is closed.
pub open spec fn closed_quotes(a: Seq<char>) -> bool {
    forall|k: int| 0 <= k < lexemes(a, 0).len() ==> (#[trigger] lexemes(a, 0)[k]).kind !is Unterminated
}

proof fn lemma_lexemes_joined(s: Seq<char>, a: Seq<char>, i: int)
    requires
        a.len() < s.len(),
        a == s.take(a.len() as int),
        is_blank(s[a.len() as int]),
        a.len() > 0 ==> a.last() != '\\',
        0 <= i <= a.len(),
        forall|k: int|
            0 <= k < lexemes(a, i).len() ==> (#[trigger] lexemes(a, i)[k]).kind !is Unterminated,
    ensures
        lexemes(s, i) == lexemes(a, i) + lexemes(s, a.len() as int + 1),
    decreases a.len() - i,
{
    if i == a.len() {
        assert(lexemes(s, i) =~= lexemes(a, i) + lexemes(s, a.len() as int + 1));
    } else if is_blank(a[i]) {
        assert(lexemes(a, i) == lexemes(a, i + 1));
        assert forall|k: int| 0 <= k < lexemes(a, i + 1).len() implies (#[trigger] lexemes(
            a,
            i + 1,
        )[k]).kind !is Unterminated by {
            assert(lexemes(a, i)[k].kind !is Unterminated);
        }
        lemma_lexemes_joined(s, a, i + 1);
    } else {
        lemma_lexeme(a, i);
        let t = lexeme(a, i);
        let rest = lexemes(a, t.to);
        let all = lexemes(a, i);
        assert(all == seq![t] + rest);
        assert(all[0] == t);
        assert(lexeme(s, i) == t) by {
            reveal(lexeme);
            assert(operator(s, i) == operator(a, i));
            if let Some((n, kind)) = operator(a, i) {
                assert(s.subrange(i, i + n) =~= a.subrange(i, i + n));
            } else {
                lemma_word_ends(s, a, i);
            }
        }
        assert forall|k: int| 0 <= k < rest.len() implies (#[trigger] rest[k]).kind
            !is Unterminated by {
            assert(all[k + 1] == rest[k]);
        }
        lemma_lexemes_joined(s, a, t.to);
        assert(lexemes(s, i) =~= seq![t] + lexemes(s, t.to));
        assert(lexemes(s, i) =~= lexemes(a, i) + lexemes(s, a.len() as int + 1));
    }
}

/// The tokens of two texts with a blank between them are those of the first,
/// followed by those of the second, which stand so much further on; as long as
/// the first closes its quotes and does not quote the blank.
pub proof fn law_tokens_joined(
    a: Seq<char>,
    b: Seq<char>,
    blank: char,
    ta: Seq<Token>,
    tb: Seq<Token>,
    t: Seq<Token>,
)
    requires
        is_blank(blank),
        closed_quotes(a),
        a.len() > 0 ==> a.last() != '\\',
        all_represent(ta, lexemes(a, 0), a),
        all_represent(tb, lexemes(b, 0), b),
        all_represent(t, lexemes(a + seq![blank] + b, 0), a + seq![blank] + b),
    ensures
        lexemes(a + seq![blank] + b, 0) == lexemes(a, 0) + all_moved(
            lexemes(b, 0),
            a.len() as int + 1,
        ),
        t.len() == ta.len() + tb.len(),
        forall|k: int|
            0 <= k < ta.len() ==> {
                &&& (#[trigger] t[k]).text@ == (#[trigger] ta[k]).text@
                &&& t[k].raw@ == ta[k].raw@
                &&& t[k].kind == ta[k].kind
                &&& t[k].start == ta[k].start && t[k].end == ta[k].end
            },
        forall|k: int|
            0 <= k < tb.len() ==> {
                let moved = #[trigger] t[ta.len() + k];
                &&& moved.text@ == (#[trigger] tb[k]).text@
                &&& moved.raw@ == tb[k].raw@
                &&& moved.kind == tb[k].kind
                &&& moved.start == tb[k].start + width(a) + 1
                &&& moved.end == tb[k].end + width(a) + 1
            },
{
    let s = a + seq![blank] + b;
    let n = a.len() as int + 1;
    let la = lexemes(a, 0);
    let lb = lexemes(b, 0);
    assert(a =~= s.take(a.len() as int));
    assert(b =~= s.skip(n));
    lemma_lexemes_joined(s, a, 0);
    lemma_lexemes_moved(s, b, n, 0);
    let ls = lexemes(s, 0);
    assert(ls == la + all_moved(lb, n));
    law_blanks_between(a, 0);
    law_blanks_between(b, 0);
    assert forall|k: int| 0 <= k < ta.len() implies {
        &&& (#[trigger] t[k]).text@ == (#[trigger] ta[k]).text@
        &&& t[k].raw@ == ta[k].raw@
        &&& t[k].kind == ta[k].kind
        &&& t[k].start == ta[k].start && t[k].end == ta[k].end
    } by {
        let l = la[k];
        assert(ls[k] == l);
        assert(represents(t[k], ls[k], s) && represents(ta[k], l, a));
        assert(s.subrange(l.from, l.to) =~= a.subrange(l.from, l.to));
        assert(s.take(l.from) =~= a.take(l.from));
        assert(s.take(l.to) =~= a.take(l.to));
    }
    let head = a.push(blank);
    lemma_width_push(a, blank);
    assert(width(head) == width(a) + 1);
    assert forall|k: int| 0 <= k < tb.len() implies {
        let moved = #[trigger] t[ta.len() + k];
        &&& moved.text@ == (#[trigger] tb[k]).text@
        &&& moved.raw@ == tb[k].raw@
        &&& moved.kind == tb[k].kind
        &&& moved.start == tb[k].start + width(a) + 1
        &&& moved.end == tb[k].end + width(a) + 1
    } by {
        let l = lb[k];
        let m = ls[la.len() + k];
        assert(m == moved(l, n));
        assert(represents(t[ta.len() + k], m, s) && represents(tb[k], l, b));
        assert(s.subrange(m.from, m.to) =~= b.subrange(l.from, l.to));
        lemma_width_add(head, b.take(l.from));
        assert(s.take(m.from) =~= head + b.take(l.from));
        lemma_width_add(head, b.take(l.to));
        assert(s.take(m.to) =~= head + b.take(l.to));
    }
}

/// Splits `buffer` into tokens and finds the one that the cursor, a byte
/// offset, belongs to.
pub fn tokenize(buffer: &str, cursor: usize) -> (r: Tokenized)
    ensures
        all_represent(r.tokens@, lexemes(buffer@, 0), buffer@),
        match r.current_token_idx {
            Some(k) => k < r.tokens@.len() && current(buffer@, r.tokens@, cursor) == Some(k as int)
                && r.current_token_offset == cursor - r.tokens@[k as int].start,
            None => current(buffer@, r.tokens@, cursor) is None && r.current_token_offset == 0,
        },
{
    let chars: Vec<char> = chars_of(buffer);
    let s: &[char] = chars.as_slice();
    let bytes: &[u8] = buffer.as_bytes();
    let n: usize = bytes.len();
    assert(n == width(buffer@));
    let tokens: Vec<Token> = lex(s, Ghost(width(s@) as int));
    let mut k: usize = 0;
    while k < tokens.len()
        invariant
            k <= tokens@.len(),
            all_represent(tokens@, lexemes(buffer@, 0), buffer@),
            forall|j: int| 0 <= j < k ==> !holds(#[trigger] tokens@[j], cursor),
        decreases tokens@.len() - k,
    {
        if cursor >= tokens[k].start && cursor < tokens[k].end {
            let offset: usize = cursor - tokens[k].start;
            assert(holds(tokens@[k as int], cursor));
            assert(current(buffer@, tokens@, cursor) == Some(k as int));
            return Tokenized {
                tokens,
                current_token_idx: Some(k),
                current_token_offset: offset,
            };
        }
        k = k + 1;
    }
    if cursor == n && s.len() > 0 && !blank(s[s.len() - 1]) && tokens.len() > 0 {
        let last: usize = tokens.len() - 1;
        if tokens[last].end == cursor {
            proof {
                law_blanks_between(s@, 0);
                let l = lexemes(s@, 0)[last as int];
                assert(represents(tokens@[last as int], l, s@));
                lemma_width_take(s@, l.from, l.to);
            }
            let offset: usize = cursor - tokens[last].start;
            return Tokenized {
                tokens,
                current_token_idx: Some(last),
                current_token_offset: offset,
            };
        }
    }
    Tokenized { tokens, current_token_idx: None, current_token_offset: 0 }
}

} // verus!
