//! What tokens are, in terms of the characters of the buffer.

use crate::composer::tokenizer::{
    all_represent, covered, current, double_quoted, law_blanks_between, lemma_word, lexeme, lexemes,
    operator, represents, single_quoted, word, Lexeme, RedirectKind, Tail, Token, TokenKind,
};
use crate::text::{lemma_width_take, width};
use vstd::prelude::*;

verus! {

/// A blank, or a character that an operator begins with.
pub open spec fn parts_words(c: char) -> bool {
    c == ' ' || c == '\t' || c == '|' || c == '&' || c == ';' || c == '>' || c == '<'
}

proof fn lemma_word_stops(s: Seq<char>, i: int)
    requires
        0 <= i <= s.len(),
    ensures
        !word(s, i).open ==> word(s, i).to == s.len() || parts_words(s[word(s, i).to]),
    decreases s.len() - i,
{
    lemma_word(s, i);
    if i < s.len() && !parts_words(s[i]) {
        if s[i] == '\'' || s[i] == '"' {
            let q = if s[i] == '"' {
                double_quoted(s, i + 1)
            } else {
                single_quoted(s, i + 1)
            };
            if !q.open && i < q.to < s.len() {
                lemma_word_stops(s, q.to + 1);
            } else {
                lemma_quotes(s, i + 1);
            }
        } else if s[i] == '\\' && i + 1 < s.len() {
            lemma_word_stops(s, i + 2);
        } else {
            lemma_word_stops(s, i + 1);
        }
    }
}

proof fn lemma_quotes(s: Seq<char>, i: int)
    requires
        0 <= i <= s.len(),
    ensures
        i <= single_quoted(s, i).to <= s.len(),
        !single_quoted(s, i).open ==> single_quoted(s, i).to < s.len(),
        i <= double_quoted(s, i).to <= s.len(),
        !double_quoted(s, i).open ==> double_quoted(s, i).to < s.len(),
    decreases s.len() - i,
{
    if i < s.len() {
        lemma_quotes(s, i + 1);
        if i + 1 < s.len() {
            lemma_quotes(s, i + 2);
        }
    }
}

/// A word goes on until the buffer ends or a blank or an operator follows,
/// whatever is quoted in it: so two words never touch. A word with an open quote
/// goes on to the end of the buffer.
pub proof fn law_words_go_on(s: Seq<char>, k: int)
    requires
        0 <= k < lexemes(s, 0).len(),
    ensures
        ({
            let l = lexemes(s, 0)[k];
            &&& l.kind is Word ==> l.to == s.len() || parts_words(s[l.to])
            &&& l.kind is Unterminated ==> l.to == s.len()
            &&& l.kind is Word || l.kind is Unterminated ==> !parts_words(s[l.from])
            &&& k + 1 < lexemes(s, 0).len() && l.kind is Word && lexemes(s, 0)[k + 1].kind is Word
                ==> l.to < lexemes(s, 0)[k + 1].from
        }),
{
    law_blanks_between(s, 0);
    let l = lexemes(s, 0)[k];
    assert(l == lexeme(s, l.from));
    reveal(lexeme);
    lemma_word(s, l.from);
    lemma_word_stops(s, l.from);
    if k + 1 < lexemes(s, 0).len() {
        let m = lexemes(s, 0)[k + 1];
        assert(m == lexeme(s, m.from));
        assert(l.to <= m.from);
    }
}

/// Which kind a token is can be read off what is written: operators are written
/// as they are, with two characters wherever two can be had, and everything else
/// is a word.
pub proof fn law_kinds_as_written(s: Seq<char>, k: int)
    requires
        0 <= k < lexemes(s, 0).len(),
    ensures
        ({
            let l = lexemes(s, 0)[k];
            let raw = s.subrange(l.from, l.to);
            &&& (l.kind == TokenKind::Pipe) == (raw == seq!['|'])
            &&& (l.kind == TokenKind::Background) == (raw == seq!['&'])
            &&& (l.kind == TokenKind::Sequence) == (raw == seq!['&', '&'] || raw == seq!['|', '|']
                || raw == seq![';'])
            &&& (l.kind == TokenKind::Redirect(RedirectKind::Out)) == (raw == seq!['>'] || raw == seq![
                '&',
                '>',
            ])
            &&& (l.kind == TokenKind::Redirect(RedirectKind::Append)) == (raw == seq!['>', '>'])
            &&& (l.kind == TokenKind::Redirect(RedirectKind::In)) == (raw == seq!['<'])
            &&& (l.kind == TokenKind::Redirect(RedirectKind::Heredoc)) == (raw == seq!['<', '<'])
            &&& (l.kind == TokenKind::Redirect(RedirectKind::ErrTo)) == (raw == seq!['2', '>'])
            &&& l.kind != TokenKind::Redirect(RedirectKind::Unknown)
            &&& !(l.kind is Word || l.kind is Unterminated) ==> l.text == raw
            &&& raw.len() == 1 && !(l.kind is Word || l.kind is Unterminated) && l.to < s.len()
                && raw[0] != ';' ==> s[l.to] != raw[0] && !(raw[0] == '&' && s[l.to] == '>')
        }),
{
    law_blanks_between(s, 0);
    let l = lexemes(s, 0)[k];
    let raw = s.subrange(l.from, l.to);
    assert(l == lexeme(s, l.from));
    reveal(lexeme);
    lemma_word(s, l.from);
    assert(raw[0] == s[l.from]);
    if raw.len() > 1 {
        assert(raw[1] == s[l.from + 1]);
    }
    law_words_go_on(s, k);
    if raw.len() == 1 {
        assert(raw =~= seq![raw[0]]);
    }
    if raw.len() == 2 {
        assert(raw =~= seq![raw[0], raw[1]]);
    }
    assert(seq!['|'][0] == '|' && seq!['&'][0] == '&' && seq![';'][0] == ';' && seq!['>'][0] == '>'
        && seq!['<'][0] == '<');
    assert(seq!['&', '&'][0] == '&' && seq!['|', '|'][0] == '|' && seq!['&', '>'][0] == '&'
        && seq!['>', '>'][0] == '>' && seq!['<', '<'][0] == '<' && seq!['2', '>'][0] == '2');
    assert(seq!['&', '&'][1] == '&' && seq!['|', '|'][1] == '|' && seq!['&', '>'][1] == '>'
        && seq!['>', '>'][1] == '>' && seq!['<', '<'][1] == '<' && seq!['2', '>'][1] == '>');
    assert(seq!['|'].len() == 1 && seq!['&'].len() == 1 && seq![';'].len() == 1 && seq!['>'].len()
        == 1 && seq!['<'].len() == 1);
    assert(seq!['&', '&'].len() == 2 && seq!['|', '|'].len() == 2 && seq!['&', '>'].len() == 2
        && seq!['>', '>'].len() == 2 && seq!['<', '<'].len() == 2 && seq!['2', '>'].len() == 2);
}

/// A piece of a word, as one may write it: a character that is not special, a
/// text in single quotes, one in double quotes, an escaped character, or a
/// backslash that stands for itself in double quotes.
pub ghost enum Piece {
    Bare(char),
    Single(Seq<char>),
    Double(Seq<char>),
    Escaped(char),
    Kept(char),
}

/// It can be written so.
pub open spec fn can_be_written(p: Piece) -> bool {
    match p {
        Piece::Bare(c) => !parts_words(c) && c != '\'' && c != '"' && c != '\\',
        Piece::Single(x) => !x.contains('\''),
        Piece::Double(_) => true,
        Piece::Escaped(_) => true,
        Piece::Kept(c) => c != '"' && c != '\\',
    }
}

/// A text as it stands between double quotes: quotes and backslashes in it are
/// escaped.
pub open spec fn guarded(x: Seq<char>) -> Seq<char>
    decreases x.len(),
{
    if x.len() == 0 {
        seq![]
    } else if x[0] == '"' || x[0] == '\\' {
        seq!['\\', x[0]] + guarded(x.skip(1))
    } else {
        seq![x[0]] + guarded(x.skip(1))
    }
}

/// How a piece is written.
pub open spec fn written_as(p: Piece) -> Seq<char> {
    match p {
        Piece::Bare(c) => seq![c],
        Piece::Single(x) => seq!['\''] + x + seq!['\''],
        Piece::Double(x) => seq!['"'] + guarded(x) + seq!['"'],
        Piece::Escaped(c) => seq!['\\', c],
        Piece::Kept(c) => seq!['"', '\\', c, '"'],
    }
}

/// What a piece stands for.
pub open spec fn stands_for(p: Piece) -> Seq<char> {
    match p {
        Piece::Bare(c) => seq![c],
        Piece::Single(x) => x,
        Piece::Double(x) => x,
        Piece::Escaped(c) => if c == '\n' {
            seq![]
        } else {
            seq![c]
        },
        Piece::Kept(c) => seq!['\\', c],
    }
}

/// How a word is written.
pub open spec fn written_word(ps: Seq<Piece>) -> Seq<char>
    decreases ps.len(),
{
    if ps.len() == 0 {
        seq![]
    } else {
        written_as(ps[0]) + written_word(ps.skip(1))
    }
}

/// What a word stands for.
pub open spec fn word_stands_for(ps: Seq<Piece>) -> Seq<char>
    decreases ps.len(),
{
    if ps.len() == 0 {
        seq![]
    } else {
        stands_for(ps[0]) + word_stands_for(ps.skip(1))
    }
}

proof fn lemma_single_reads(s: Seq<char>, i: int, x: Seq<char>)
    requires
        0 <= i,
        i + x.len() < s.len(),
        s.subrange(i, i + x.len()) == x,
        !x.contains('\''),
        s[i + x.len()] == '\'',
    ensures
        single_quoted(s, i) == (Tail { to: i + x.len(), text: x, open: false }),
    decreases x.len(),
{
    if x.len() > 0 {
        assert(s[i] == x[0]);
        assert(x.contains(x[0]));
        let rest = x.skip(1);
        assert(s.subrange(i + 1, i + 1 + rest.len()) =~= rest);
        assert forall|c: char| rest.contains(c) implies x.contains(c) by {
            let n = choose|n: int| 0 <= n < rest.len() && rest[n] == c;
            assert(x[n + 1] == c);
        }
        lemma_single_reads(s, i + 1, rest);
        assert(seq![x[0]] + rest =~= x);
    } else {
        assert(x =~= seq![]);
    }
}

proof fn lemma_double_reads(s: Seq<char>, i: int, x: Seq<char>)
    requires
        0 <= i,
        i + guarded(x).len() < s.len(),
        s.subrange(i, i + guarded(x).len()) == guarded(x),
        s[i + guarded(x).len()] == '"',
    ensures
        double_quoted(s, i) == (Tail { to: i + guarded(x).len(), text: x, open: false }),
    decreases x.len(),
{
    let g = guarded(x);
    if x.len() > 0 {
        let rest = x.skip(1);
        assert(g[0] == s.subrange(i, i + g.len())[0]);
        assert(s[i] == g[0]);
        if x[0] == '"' || x[0] == '\\' {
            assert(g[1] == s.subrange(i, i + g.len())[1]);
            assert(s[i + 1] == x[0]);
            assert(s.subrange(i + 2, i + 2 + guarded(rest).len()) =~= guarded(rest)) by {
                assert forall|n: int| 0 <= n < guarded(rest).len() implies s[i + 2 + n]
                    == guarded(rest)[n] by {
                    assert(g[n + 2] == s.subrange(i, i + g.len())[n + 2]);
                }
            }
            lemma_double_reads(s, i + 2, rest);
        } else {
            assert(s.subrange(i + 1, i + 1 + guarded(rest).len()) =~= guarded(rest)) by {
                assert forall|n: int| 0 <= n < guarded(rest).len() implies s[i + 1 + n]
                    == guarded(rest)[n] by {
                    assert(g[n + 1] == s.subrange(i, i + g.len())[n + 1]);
                }
            }
            lemma_double_reads(s, i + 1, rest);
        }
        assert(seq![x[0]] + rest =~= x);
    } else {
        assert(x =~= seq![]);
    }
}

proof fn lemma_pieces_read(pre: Seq<char>, ps: Seq<Piece>, rest: Seq<char>)
    requires
        forall|n: int| 0 <= n < ps.len() ==> can_be_written(#[trigger] ps[n]),
    ensures
        ({
            let s = pre + written_word(ps) + rest;
            let after = word(s, (pre.len() + written_word(ps).len()) as int);
            word(s, pre.len() as int) == (Tail { text: word_stands_for(ps) + after.text, ..after })
        }),
    decreases ps.len(),
{
    let s = pre + written_word(ps) + rest;
    let i = pre.len() as int;
    let end = word(s, (pre.len() + written_word(ps).len()) as int);
    if ps.len() == 0 {
        assert(word_stands_for(ps) + end.text =~= end.text);
    } else {
        let p = ps[0];
        let w = written_as(p);
        let tail = ps.skip(1);
        assert(can_be_written(p));
        assert forall|n: int| 0 <= n < tail.len() implies can_be_written(#[trigger] tail[n]) by {
            assert(tail[n] == ps[n + 1]);
        }
        lemma_pieces_read(pre + w, tail, rest);
        assert(s =~= (pre + w) + written_word(tail) + rest);
        assert forall|n: int| 0 <= n < w.len() implies s[i + n] == #[trigger] w[n] by {}
        let after = word(s, i + w.len());
        match p {
            Piece::Bare(c) => {
                assert(s[i] == w[0]);
            },
            Piece::Single(x) => {
                assert(s[i] == w[0]);
                assert(s[i + 1 + x.len()] == w[1 + x.len() as int]);
                assert(s.subrange(i + 1, i + 1 + x.len()) =~= x) by {
                    assert forall|n: int| 0 <= n < x.len() implies s[i + 1 + n] == x[n] by {
                        assert(s[i + (1 + n)] == w[1 + n]);
                    }
                }
                lemma_single_reads(s, i + 1, x);
            },
            Piece::Double(x) => {
                let g = guarded(x);
                assert(s[i] == w[0]);
                assert(s[i + 1 + g.len()] == w[1 + g.len() as int]);
                assert(s.subrange(i + 1, i + 1 + g.len()) =~= g) by {
                    assert forall|n: int| 0 <= n < g.len() implies s[i + 1 + n] == g[n] by {
                        assert(s[i + (1 + n)] == w[1 + n]);
                    }
                }
                lemma_double_reads(s, i + 1, x);
            },
            Piece::Escaped(c) => {
                assert(s[i] == w[0]);
                assert(s[i + 1] == w[1]);
            },
            Piece::Kept(c) => {
                assert(s[i] == w[0]);
                assert(s[i + 1] == w[1]);
                assert(s[i + 2] == w[2]);
                assert(s[i + 3] == w[3]);
                let q = double_quoted(s, i + 1);
                assert(double_quoted(s, i + 3) == (Tail { to: i + 3, text: seq![], open: false }));
                assert(q.text =~= seq!['\\', c]);
                assert(q.to == i + 3);
            },
        }
        assert(i + w.len() + written_word(tail).len() == i + written_word(ps).len());
        assert(after.text == word_stands_for(tail) + end.text);
        assert(word(s, i).text =~= stands_for(p) + (word_stands_for(tail) + end.text));
        assert(word_stands_for(ps) + end.text =~= stands_for(p) + (word_stands_for(tail)
            + end.text));
    }
}

proof fn lemma_word_reads(pre: Seq<char>, ps: Seq<Piece>, rest: Seq<char>)
    requires
        forall|n: int| 0 <= n < ps.len() ==> can_be_written(#[trigger] ps[n]),
        rest.len() == 0 || parts_words(rest[0]),
    ensures
        word(pre + written_word(ps) + rest, pre.len() as int) == (Tail {
            to: (pre.len() + written_word(ps).len()) as int,
            text: word_stands_for(ps),
            open: false,
        }),
{
    let s = pre + written_word(ps) + rest;
    let k = (pre.len() + written_word(ps).len()) as int;
    lemma_pieces_read(pre, ps, rest);
    if rest.len() > 0 {
        assert(s[k] == rest[0]);
    }
    assert(word_stands_for(ps) + Seq::<char>::empty() =~= word_stands_for(ps));
}

/// A word stands for what its pieces stand for, one behind the other: quotes
/// and escapes are taken off, and what they protect is kept as it is. However
/// its pieces are quoted, it is one word.
pub proof fn law_quoting(ps: Seq<Piece>, rest: Seq<char>)
    requires
        ps.len() > 0,
        forall|n: int| 0 <= n < ps.len() ==> can_be_written(#[trigger] ps[n]),
        rest.len() == 0 || parts_words(rest[0]),
        written_word(ps) != seq!['2'] || rest.len() == 0 || rest[0] != '>',
    ensures
        ({
            let s = written_word(ps) + rest;
            &&& lexemes(s, 0).len() > 0
            &&& lexemes(s, 0)[0] == (Lexeme {
                from: 0,
                to: written_word(ps).len() as int,
                text: word_stands_for(ps),
                kind: TokenKind::Word,
            })
        }),
{
    let s = written_word(ps) + rest;
    let pre = Seq::<char>::empty();
    lemma_word_reads(pre, ps, rest);
    assert(pre + written_word(ps) + rest =~= s);
    let w = written_as(ps[0]);
    assert(can_be_written(ps[0]));
    assert(w.len() > 0);
    assert(s[0] == w[0]);
    assert(!parts_words(s[0]));
    reveal(lexeme);
    if s.len() > 1 && s[0] == '2' && s[1] == '>' {
        assert(ps[0] == Piece::Bare('2'));
        let tail = ps.skip(1);
        if tail.len() > 0 {
            let v = written_as(tail[0]);
            assert(can_be_written(ps[1]));
            assert(tail[0] == ps[1]);
            assert(v.len() > 0);
            assert(written_word(tail)[0] == v[0]);
            assert(s[1] == v[0]);
            assert(false);
        } else {
            assert(written_word(tail) =~= seq![]);
            assert(written_word(ps) =~= seq!['2']);
            assert(s[1] == rest[0]);
        }
    }
    assert(operator(s, 0) is None);
    assert(lexemes(s, 0)[0] == lexeme(s, 0));
}

/// A quote that is not closed leaves the word unterminated, with everything
/// behind the quote in its text.
pub proof fn law_open_quote(x: Seq<char>)
    requires
        !x.contains('\''),
    ensures
        lexemes(seq!['\''] + x, 0) == seq![
            Lexeme {
                from: 0,
                to: x.len() as int + 1,
                text: x,
                kind: TokenKind::Unterminated,
            },
        ],
{
    let s = seq!['\''] + x;
    assert(s.skip(1) =~= x);
    lemma_single_open(s, 1, x);
    reveal(lexeme);
    assert(s[0] == '\'');
    let l = lexeme(s, 0);
    assert(l.to == s.len());
    assert(lexemes(s, s.len() as int) =~= seq![]);
    assert(lexemes(s, 0) =~= seq![l]);
}

proof fn lemma_single_open(s: Seq<char>, i: int, x: Seq<char>)
    requires
        0 <= i <= s.len(),
        s.skip(i) == x,
        !x.contains('\''),
    ensures
        single_quoted(s, i) == (Tail { to: s.len() as int, text: x, open: true }),
    decreases s.len() - i,
{
    if i < s.len() {
        let rest = x.skip(1);
        assert(x[0] == s[i]);
        assert(x.contains(x[0]));
        assert(s.skip(i + 1) =~= rest);
        assert forall|c: char| rest.contains(c) implies x.contains(c) by {
            let n = choose|n: int| 0 <= n < rest.len() && rest[n] == c;
            assert(x[n + 1] == c);
        }
        lemma_single_open(s, i + 1, rest);
        assert(seq![x[0]] + rest =~= x);
    } else {
        assert(x =~= seq![]);
    }
}

/// The cursor belongs to the token that it stands in or in front of; at the very
/// end of a buffer that does not end in a blank, to the last one; and else to
/// none.
pub proof fn law_token_at_cursor(s: Seq<char>, tokens: Seq<Token>, cursor: usize)
    requires
        all_represent(tokens, lexemes(s, 0), s),
    ensures
        forall|k: int|
            0 <= k < tokens.len() && (#[trigger] tokens[k]).start <= cursor < tokens[k].end
                ==> current(s, tokens, cursor) == Some(k),
        cursor == width(s) && s.len() > 0 && s.last() != ' ' && s.last() != '\t' ==> tokens.len()
            > 0 && current(s, tokens, cursor) == Some(tokens.len() - 1),
        current(s, tokens, cursor) is None <==> (forall|k: int|
            0 <= k < tokens.len() ==> !((#[trigger] tokens[k]).start <= cursor < tokens[k].end)) && (
        cursor != width(s) || s.len() == 0 || s.last() == ' ' || s.last() == '\t'),
        current(s, tokens, cursor) matches Some(k) ==> 0 <= k < tokens.len() && tokens[k].start
            <= cursor <= tokens[k].end,
{
    let ls = lexemes(s, 0);
    law_blanks_between(s, 0);
    assert forall|k: int| 0 <= k < tokens.len() implies (#[trigger] tokens[k]).start == width(
        s.take(ls[k].from),
    ) && tokens[k].end == width(s.take(ls[k].to)) by {
        assert(represents(tokens[k], ls[k], s));
    }
    assert forall|k: int|
        0 <= k < tokens.len() && (#[trigger] tokens[k]).start <= cursor < tokens[k].end implies current(
        s,
        tokens,
        cursor,
    ) == Some(k) by {
        assert forall|j: int| 0 <= j < k implies !((#[trigger] tokens[j]).start <= cursor
            < tokens[j].end) by {
            assert(ls[j].to <= ls[k].from);
            lemma_width_take(s, ls[j].to, ls[k].from);
        }
        assert forall|j: int| k < j < tokens.len() implies !((#[trigger] tokens[j]).start <= cursor
            < tokens[j].end) by {
            assert(ls[k].to <= ls[j].from);
            lemma_width_take(s, ls[k].to, ls[j].from);
        }
        assert(crate::composer::tokenizer::holds(tokens[k], cursor));
    }
    assert(s.take(s.len() as int) =~= s);
    if s.len() > 0 && s.last() != ' ' && s.last() != '\t' {
        let p = s.len() - 1;
        assert(covered(ls, p));
        let m = choose|m: int| 0 <= m < ls.len() && (#[trigger] ls[m]).from <= p < ls[m].to;
        let n = ls.len() - 1;
        if m < n {
            assert(ls[m].to <= ls[n].from);
        }
        assert(ls[n].to == s.len());
        assert(tokens[n].end == width(s));
        if cursor == width(s) {
            assert forall|k: int| 0 <= k < tokens.len() implies !((#[trigger] tokens[k]).start
                <= cursor < tokens[k].end) by {
                lemma_width_take(s, ls[k].to, s.len() as int);
            }
            lemma_width_take(s, ls[n].from, s.len() as int);
        }
    }
}

/// A backslash at the very end of a line protects nothing, and stands for itself.
pub proof fn law_last_backslash(ps: Seq<Piece>)
    requires
        forall|n: int| 0 <= n < ps.len() ==> can_be_written(#[trigger] ps[n]),
    ensures
        ({
            let s = written_word(ps) + seq!['\\'];
            word(s, 0) == (Tail {
                to: s.len() as int,
                text: word_stands_for(ps) + seq!['\\'],
                open: false,
            })
        }),
{
    let none = Seq::<char>::empty();
    let s = written_word(ps) + seq!['\\'];
    let k = written_word(ps).len() as int;
    lemma_pieces_read(none, ps, seq!['\\']);
    assert(none + written_word(ps) + seq!['\\'] =~= s);
    assert(s[k] == '\\');
    assert(word(s, k + 1) == (Tail { to: k + 1, text: seq![], open: false }));
    assert(word(s, k).text =~= seq!['\\']);
}

proof fn lemma_double_open(s: Seq<char>, i: int, x: Seq<char>)
    requires
        0 <= i <= s.len(),
        s.skip(i) == guarded(x),
    ensures
        double_quoted(s, i) == (Tail { to: s.len() as int, text: x, open: true }),
    decreases x.len(),
{
    let g = guarded(x);
    assert(g.len() == s.len() - i);
    if x.len() > 0 {
        let rest = x.skip(1);
        assert(s[i] == g[0]);
        if x[0] == '"' || x[0] == '\\' {
            assert(s[i + 1] == g[1]);
            assert(s.skip(i + 2) =~= guarded(rest)) by {
                assert(g =~= seq!['\\', x[0]] + guarded(rest));
                assert(s.skip(i + 2) =~= g.skip(2));
            }
            lemma_double_open(s, i + 2, rest);
        } else {
            assert(s.skip(i + 1) =~= guarded(rest)) by {
                assert(g =~= seq![x[0]] + guarded(rest));
                assert(s.skip(i + 1) =~= g.skip(1));
            }
            lemma_double_open(s, i + 1, rest);
        }
        assert(seq![x[0]] + rest =~= x);
        assert(double_quoted(s, i).text =~= x);
    } else {
        assert(x =~= seq![]);
    }
}

/// A double quote that is not closed leaves the word unterminated as well, with
/// what is escaped in it taken as it is.
pub proof fn law_open_double_quote(x: Seq<char>)
    ensures
        lexemes(seq!['"'] + guarded(x), 0) == seq![
            Lexeme {
                from: 0,
                to: guarded(x).len() as int + 1,
                text: x,
                kind: TokenKind::Unterminated,
            },
        ],
{
    let s = seq!['"'] + guarded(x);
    assert(s.skip(1) =~= guarded(x));
    lemma_double_open(s, 1, x);
    reveal(lexeme);
    assert(s[0] == '"');
    let l = lexeme(s, 0);
    assert(l.to == s.len());
    assert(lexemes(s, s.len() as int) =~= seq![]);
    assert(lexemes(s, 0) =~= seq![l]);
}

} // verus!
