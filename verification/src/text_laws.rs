//! What the operations on text do, said by what texts are made of.

use crate::text::{
    begins, ends, fields, halves, is_char, joined, lemma_filter_split, lemma_find_first, lines,
    lower, lowered, occurs, occurs_at, pieces, skip_back, skip_front, strip, text_lt, trimmed,
    up_to, white, without_cr, words,
};
use vstd::prelude::*;

verus! {

/// What is cut off at the front.
pub proof fn lemma_skip_front(a: Seq<char>, x: Seq<char>, p: spec_fn(char) -> bool)
    requires
        forall|i: int| 0 <= i < a.len() ==> p(#[trigger] a[i]),
        x.len() > 0 ==> !p(x[0]),
    ensures
        skip_front(a + x, p) == x,
    decreases a.len(),
{
    let s = a + x;
    if a.len() > 0 {
        assert(s[0] == a[0]);
        assert(s.skip(1) =~= a.skip(1) + x);
        lemma_skip_front(a.skip(1), x, p);
    } else {
        assert(s =~= x);
    }
}

/// What is cut off at the back.
pub proof fn lemma_skip_back(x: Seq<char>, a: Seq<char>, p: spec_fn(char) -> bool)
    requires
        forall|i: int| 0 <= i < a.len() ==> p(#[trigger] a[i]),
        x.len() > 0 ==> !p(x.last()),
    ensures
        skip_back(x + a, p) == x,
    decreases a.len(),
{
    let s = x + a;
    if a.len() > 0 {
        assert(s.last() == a[a.len() - 1]);
        assert(s.drop_last() =~= x + a.drop_last());
        lemma_skip_back(x, a.drop_last(), p);
    } else {
        assert(s =~= x);
    }
}

/// Where nothing is cut off.
pub proof fn lemma_strip_none(x: Seq<char>, p: spec_fn(char) -> bool)
    requires
        x.len() > 0 ==> !p(x[0]) && !p(x.last()),
    ensures
        strip(x, p) == x,
{
    lemma_skip_front(seq![], x, p);
    assert(Seq::<char>::empty() + x =~= x);
    lemma_skip_back(x, seq![], p);
    assert(x + Seq::<char>::empty() =~= x);
}

/// A field in front of a cut.
pub proof fn lemma_fields_word(w: Seq<char>, c: char, rest: Seq<char>, p: spec_fn(char) -> bool)
    requires
        w.len() > 0,
        forall|i: int| 0 <= i < w.len() ==> !p(#[trigger] w[i]),
        p(c),
    ensures
        fields(w + seq![c] + rest, p) == seq![w] + fields(rest, p),
{
    let s = w + seq![c] + rest;
    let k = w.len() as int;
    assert forall|i: int| 0 <= i < k implies !p(#[trigger] s[i]) by {
        assert(s[i] == w[i]);
    }
    assert(s[k] == c);
    lemma_find_first(s, p, k);
    assert(s.take(k) =~= w);
    assert(s.skip(k + 1) =~= rest);
    let keep = |t: Seq<char>| t.len() > 0;
    assert(pieces(s, p) == seq![w] + pieces(rest, p));
    lemma_filter_split(seq![w], pieces(rest, p), keep);
    reveal_with_fuel(Seq::filter, 2);
    assert(seq![w].drop_last() =~= Seq::<Seq<char>>::empty());
    assert(seq![w].filter(keep) =~= seq![w]);
}

/// A cut in front.
pub proof fn lemma_fields_cut(c: char, rest: Seq<char>, p: spec_fn(char) -> bool)
    requires
        p(c),
    ensures
        fields(seq![c] + rest, p) == fields(rest, p),
{
    let s = seq![c] + rest;
    lemma_find_first(s, p, 0);
    assert(s.take(0) =~= seq![]);
    assert(s.skip(1) =~= rest);
    let keep = |t: Seq<char>| t.len() > 0;
    let none = seq![Seq::<char>::empty()];
    assert(pieces(s, p) == none + pieces(rest, p));
    lemma_filter_split(none, pieces(rest, p), keep);
    reveal_with_fuel(Seq::filter, 2);
    assert(none.drop_last() =~= Seq::<Seq<char>>::empty());
    assert(none.filter(keep) =~= seq![]);
    assert(Seq::<Seq<char>>::empty() + fields(rest, p) =~= fields(rest, p));
}

/// A field at the end.
pub proof fn lemma_fields_end(w: Seq<char>, p: spec_fn(char) -> bool)
    requires
        w.len() > 0,
        forall|i: int| 0 <= i < w.len() ==> !p(#[trigger] w[i]),
    ensures
        fields(w, p) == seq![w],
{
    lemma_find_first(w, p, w.len() as int);
    let keep = |t: Seq<char>| t.len() > 0;
    assert(pieces(w, p) =~= seq![w]);
    reveal_with_fuel(Seq::filter, 2);
    assert(seq![w].drop_last() =~= Seq::<Seq<char>>::empty());
    assert(seq![w].filter(keep) =~= seq![w]);
}

/// The blanks: control characters from tab to carriage return, the space, and
/// the other spaces and line breaks of Unicode.
pub open spec fn is_blank_char(c: char) -> bool {
    let v = c as u32;
    ||| 9 <= v <= 13
    ||| v == 32 || v == 0x85 || v == 0xa0 || v == 0x1680
    ||| 0x2000 <= v <= 0x200a
    ||| v == 0x2028 || v == 0x2029 || v == 0x202f || v == 0x205f || v == 0x3000
}

/// Nothing but blanks.
pub open spec fn all_blank(s: Seq<char>) -> bool {
    forall|i: int| 0 <= i < s.len() ==> is_blank_char(#[trigger] s[i])
}

/// No blank.
pub open spec fn none_blank(s: Seq<char>) -> bool {
    forall|i: int| 0 <= i < s.len() ==> !is_blank_char(#[trigger] s[i])
}

/// Neither end is a blank.
pub open spec fn firm(s: Seq<char>) -> bool {
    s.len() > 0 ==> !is_blank_char(s[0]) && !is_blank_char(s.last())
}

/// Trimming takes the blanks off both ends and nothing else.
pub proof fn law_trimmed(a: Seq<char>, x: Seq<char>, b: Seq<char>)
    requires
        all_blank(a),
        all_blank(b),
        firm(x),
    ensures
        trimmed(a + x + b) == x,
{
    let p = white();
    assert forall|i: int| 0 <= i < a.len() implies p(#[trigger] a[i]) by {}
    assert forall|i: int| 0 <= i < b.len() implies p(#[trigger] b[i]) by {}
    if x.len() == 0 {
        let all = a + b;
        assert(a + x + b =~= all);
        assert forall|i: int| 0 <= i < all.len() implies p(#[trigger] all[i]) by {
            if i < a.len() {
                assert(all[i] == a[i]);
            } else {
                assert(all[i] == b[i - a.len()]);
            }
        }
        lemma_skip_front(all, x, p);
        assert(all + x =~= all);
        assert(skip_front(all, p) == x);
        assert(x =~= seq![]);
    } else {
        assert(a + x + b =~= a + (x + b));
        assert((x + b)[0] == x[0]);
        lemma_skip_front(a, x + b, p);
        lemma_skip_back(x, b, p);
    }
}

/// Texts with this character between them.
pub open spec fn with_between(ps: Seq<Seq<char>>, c: char) -> Seq<char>
    decreases ps.len(),
{
    if ps.len() == 0 {
        seq![]
    } else if ps.len() == 1 {
        ps[0]
    } else {
        ps[0] + seq![c] + with_between(ps.skip(1), c)
    }
}

/// What stands between the cuts is what was put there.
pub proof fn law_pieces(ps: Seq<Seq<char>>, c: char)
    requires
        ps.len() > 0,
        forall|i: int| 0 <= i < ps.len() ==> !(#[trigger] ps[i]).contains(c),
    ensures
        pieces(with_between(ps, c), is_char(c)) == ps,
    decreases ps.len(),
{
    let p = is_char(c);
    let s = with_between(ps, c);
    let k = ps[0].len() as int;
    assert forall|i: int| 0 <= i < k implies !p(#[trigger] s[i]) by {
        assert(s[i] == ps[0][i]);
        assert(ps[0].contains(ps[0][i]));
    }
    lemma_find_first(s, p, k);
    if ps.len() == 1 {
        assert(pieces(s, p) =~= ps);
    } else {
        let rest = ps.skip(1);
        assert forall|i: int| 0 <= i < rest.len() implies !(#[trigger] rest[i]).contains(c) by {
            assert(rest[i] == ps[i + 1]);
        }
        law_pieces(rest, c);
        assert(s[k] == c);
        assert(s.take(k) =~= ps[0]);
        assert(s.skip(k + 1) =~= with_between(rest, c));
        assert(seq![ps[0]] + rest =~= ps);
    }
}

/// A text is cut in two at the first such character, and is not where it has
/// none; up to there is what stands in front of it.
pub proof fn law_halves(a: Seq<char>, c: char, b: Seq<char>)
    requires
        !a.contains(c),
    ensures
        halves(a + seq![c] + b, c) == Some((a, b)),
        halves(a, c) is None,
        up_to(a + seq![c] + b, is_char(c)) == a,
        up_to(a, is_char(c)) == a,
{
    let p = is_char(c);
    let s = a + seq![c] + b;
    let k = a.len() as int;
    assert forall|i: int| 0 <= i < k implies !p(#[trigger] s[i]) && !p(a[i]) by {
        assert(s[i] == a[i]);
        assert(a.contains(a[i]));
    }
    assert forall|i: int| 0 <= i < k implies !p(#[trigger] a[i]) by {
        assert(a.contains(a[i]));
    }
    assert(s[k] == c);
    lemma_find_first(s, p, k);
    lemma_find_first(a, p, k);
    assert(s.take(k) =~= a);
    assert(s.skip(k + 1) =~= b);
    assert(a.take(k) =~= a);
}

/// Lines one behind the other, each ended in `\n` or, where told so, in `\r\n`.
pub open spec fn with_ends(ls: Seq<Seq<char>>, crs: Seq<bool>) -> Seq<char>
    decreases ls.len(),
{
    if ls.len() == 0 {
        seq![]
    } else {
        ls[0] + (if crs[0] {
            seq!['\r', '\n']
        } else {
            seq!['\n']
        }) + with_ends(ls.skip(1), crs.skip(1))
    }
}

/// The lines of a text are those that were written, whichever way they end, and
/// what stands behind the last end is a line of its own.
pub proof fn law_lines(ls: Seq<Seq<char>>, crs: Seq<bool>, last: Seq<char>)
    requires
        crs.len() == ls.len(),
        forall|i: int| 0 <= i < ls.len() ==> !(#[trigger] ls[i]).contains('\n'),
        forall|i: int|
            0 <= i < ls.len() && (#[trigger] ls[i]).len() > 0 ==> ls[i].last() != '\r' || crs[i],
        !last.contains('\n'),
    ensures
        lines(with_ends(ls, crs) + last) == (if last.len() == 0 {
            ls
        } else {
            ls.push(last)
        }),
    decreases ls.len(),
{
    let s = with_ends(ls, crs) + last;
    let p = is_char('\n');
    if ls.len() == 0 {
        assert(s =~= last);
        assert forall|i: int| 0 <= i < last.len() implies !p(#[trigger] last[i]) by {
            assert(last.contains(last[i]));
        }
        lemma_find_first(last, p, last.len() as int);
        assert(lines(s) =~= if last.len() == 0 {
            ls
        } else {
            ls.push(last)
        });
    } else {
        let rest = ls.skip(1);
        let l = ls[0];
        let body = if crs[0] {
            l.push('\r')
        } else {
            l
        };
        let k = body.len() as int;
        let more = with_ends(rest, crs.skip(1)) + last;
        assert(s =~= body + seq!['\n'] + more);
        assert forall|i: int| 0 <= i < k implies !p(#[trigger] s[i]) by {
            if i < l.len() {
                assert(s[i] == l[i]);
                assert(l.contains(l[i]));
            } else {
                assert(s[i] == '\r');
            }
        }
        assert(s[k] == '\n');
        lemma_find_first(s, p, k);
        assert(s.take(k) =~= body);
        assert(s.skip(k + 1) =~= more);
        assert(without_cr(body) =~= l);
        assert forall|i: int| 0 <= i < rest.len() implies !(#[trigger] rest[i]).contains('\n') && (
        rest[i].len() > 0 ==> rest[i].last() != '\r' || crs.skip(1)[i]) by {
            assert(rest[i] == ls[i + 1]);
            assert(crs.skip(1)[i] == crs[i + 1]);
        }
        law_lines(rest, crs.skip(1), last);
        assert(lines(s) =~= if last.len() == 0 {
            ls
        } else {
            ls.push(last)
        });
    }
}

/// Words with blanks in front of each and behind the last.
pub open spec fn with_blanks(gaps: Seq<Seq<char>>, ws: Seq<Seq<char>>, behind: Seq<char>) -> Seq<char>
    decreases ws.len(),
{
    if ws.len() == 0 {
        behind
    } else {
        gaps[0] + ws[0] + with_blanks(gaps.skip(1), ws.skip(1), behind)
    }
}

proof fn lemma_words_gap(a: Seq<char>, s: Seq<char>)
    requires
        all_blank(a),
    ensures
        words(a + s) == words(s),
    decreases a.len(),
{
    if a.len() == 0 {
        assert(a + s =~= s);
    } else {
        assert(is_blank_char(a[0]));
        lemma_fields_cut(a[0], a.skip(1) + s, white());
        assert(a + s =~= seq![a[0]] + (a.skip(1) + s));
        lemma_words_gap(a.skip(1), s);
    }
}

/// The words of a text are those that were written, however many blanks stand
/// in front of them, between them and behind them.
pub proof fn law_words(gaps: Seq<Seq<char>>, ws: Seq<Seq<char>>, behind: Seq<char>)
    requires
        gaps.len() == ws.len(),
        forall|i: int| 0 <= i < ws.len() ==> none_blank(#[trigger] ws[i]) && ws[i].len() > 0,
        forall|i: int| 0 <= i < gaps.len() ==> all_blank(#[trigger] gaps[i]),
        forall|i: int| 0 < i < gaps.len() ==> (#[trigger] gaps[i]).len() > 0,
        all_blank(behind),
    ensures
        words(with_blanks(gaps, ws, behind)) == ws,
    decreases ws.len(),
{
    let p = white();
    if ws.len() == 0 {
        lemma_words_gap(behind, seq![]);
        assert(behind + Seq::<char>::empty() =~= behind);
        let none = Seq::<char>::empty();
        assert(pieces(none, p) =~= seq![none]);
        let keep = |t: Seq<char>| t.len() > 0;
        reveal_with_fuel(Seq::filter, 2);
        assert(seq![none].drop_last() =~= Seq::<Seq<char>>::empty());
        assert(seq![none].filter(keep) =~= seq![]);
        assert(words(behind) =~= ws);
    } else {
        let w = ws[0];
        let rest = ws.skip(1);
        let more = gaps.skip(1);
        let tail = with_blanks(more, rest, behind);
        assert(with_blanks(gaps, ws, behind) =~= gaps[0] + (w + tail));
        assert(all_blank(gaps[0]));
        lemma_words_gap(gaps[0], w + tail);
        assert(none_blank(w));
        assert forall|i: int| 0 <= i < w.len() implies !p(#[trigger] w[i]) by {}
        assert forall|i: int| 0 <= i < rest.len() implies none_blank(#[trigger] rest[i])
            && rest[i].len() > 0 by {
            assert(rest[i] == ws[i + 1]);
        }
        assert forall|i: int| 0 <= i < more.len() implies all_blank(#[trigger] more[i])
            && more[i].len() > 0 by {
            assert(more[i] == gaps[i + 1]);
        }
        law_words(more, rest, behind);
        if tail.len() == 0 {
            assert(w + tail =~= w);
            lemma_fields_end(w, p);
            if rest.len() > 0 {
                assert(rest[0].len() > 0);
                assert(tail.len() >= rest[0].len());
            }
            assert(seq![w] =~= ws);
        } else {
            if rest.len() > 0 {
                assert(all_blank(more[0]) && more[0].len() > 0);
                assert(tail[0] == more[0][0]);
            } else {
                assert(tail =~= behind);
            }
            assert(is_blank_char(tail[0]));
            lemma_fields_word(w, tail[0], tail.skip(1), p);
            assert(w + tail =~= w + seq![tail[0]] + tail.skip(1));
            lemma_fields_cut(tail[0], tail.skip(1), p);
            assert(tail =~= seq![tail[0]] + tail.skip(1));
            assert(seq![w] + rest =~= ws);
        }
    }
}

/// Capital letters have their small ones, and everything else is itself.
pub proof fn law_lower(s: Seq<char>, i: int)
    requires
        0 <= i < s.len(),
    ensures
        lowered(s).len() == s.len(),
        !('A' as u32 <= s[i] as u32 <= 'Z' as u32) ==> lowered(s)[i] == s[i],
        'A' as u32 <= s[i] as u32 <= 'Z' as u32 ==> lowered(s)[i] as u32 - 'a' as u32 == s[i] as u32
            - 'A' as u32,
{
    let c = s[i];
    if 'A' as u32 <= c as u32 <= 'Z' as u32 {
        let v = c as u32;
        assert(lowered(s)[i] == lower(c));
        assert(lower(c) == ((v + 32) as u32) as char);
        assert(97 <= v + 32 <= 122);
    }
}

/// Texts are in order as their first characters that differ are, and a text
/// stands in front of those that begin with it.
pub proof fn law_text_order(front: Seq<char>, x: char, a: Seq<char>, y: char, b: Seq<char>)
    ensures
        x < y ==> text_lt(front + seq![x] + a, front + seq![y] + b),
        y < x ==> !text_lt(front + seq![x] + a, front + seq![y] + b),
        text_lt(front, front + seq![x] + a),
        !text_lt(front + seq![x] + a, front),
        !text_lt(front, front),
    decreases front.len(),
{
    let s = front + seq![x] + a;
    let t = front + seq![y] + b;
    if front.len() > 0 {
        let rest = front.skip(1);
        law_text_order(rest, x, a, y, b);
        assert(s.skip(1) =~= rest + seq![x] + a);
        assert(t.skip(1) =~= rest + seq![y] + b);
        assert(s[0] == front[0] && t[0] == front[0]);
    } else {
        assert(s[0] == x && t[0] == y);
    }
}

/// What a text begins with, ends with or holds.
pub proof fn law_parts_of_text(a: Seq<char>, t: Seq<char>, b: Seq<char>, s: Seq<char>)
    ensures
        begins(t + b, t),
        ends(a + t, t),
        occurs(a + t + b, t),
        begins(s, t) ==> s == t + s.skip(t.len() as int),
        ends(s, t) ==> s == s.take(s.len() - t.len()) + t,
        occurs(s, t) ==> exists|i: int| #![trigger s.take(i)]
            0 <= i && s == s.take(i) + t + s.skip(i + t.len()),
{
    assert((t + b).subrange(0, t.len() as int) =~= t);
    assert((a + t).subrange(a.len() as int, (a.len() + t.len()) as int) =~= t);
    assert((a + t + b).subrange(a.len() as int, (a.len() + t.len()) as int) =~= t);
    assert(occurs_at(a + t + b, t, a.len() as int));
    if begins(s, t) {
        assert(s =~= s.subrange(0, t.len() as int) + s.skip(t.len() as int));
    }
    if ends(s, t) {
        assert(s =~= s.take(s.len() - t.len()) + s.subrange(s.len() - t.len(), s.len() as int));
    }
    if occurs(s, t) {
        let i = choose|i: int| occurs_at(s, t, i);
        assert(s =~= s.take(i) + s.subrange(i, i + t.len()) + s.skip(i + t.len()));
    }
}

/// A path in a directory is behind a slash there, and an absolute one is itself.
pub proof fn law_joined(dir: Seq<char>, rest: Seq<char>)
    ensures
        joined(dir, seq!['/'] + rest) == seq!['/'] + rest,
        (rest.len() == 0 || rest[0] != '/') ==> {
            &&& dir.len() > 0 && dir.last() != '/' ==> joined(dir, rest) == dir + seq!['/'] + rest
            &&& joined(dir + seq!['/'], rest) == dir + seq!['/'] + rest
            &&& joined(seq![], rest) == rest
        },
{
    assert(Seq::<char>::empty() + rest =~= rest);
}

} // verus!
