//! The shell's marks as they are written, and what the scanner makes of them
//! and of everything else.

use crate::composer::prompt_track::{
    begins, bytes, event, front, items, lemma_terminator_is, maximal, prefix, scan, terminator_at,
    Item, Osc133Event, Scan, Segment,
};
use crate::number::{all_digits, digits_of, int32, is_digit, lemma_digits_of};
use vstd::prelude::*;

verus! {

/// A number as a shell prints it.
pub open spec fn printed(n: i32) -> Seq<u8> {
    if n < 0 {
        seq![0x2du8] + digits_of((0 - n) as nat)
    } else {
        digits_of(n as nat)
    }
}

/// What a mark holds between its beginning and its end: `A` where a prompt
/// begins, `B` where the input begins, `C` where a command begins, `D` where
/// one is done, with its status behind a semicolon.
pub open spec fn said(e: Osc133Event) -> Seq<u8> {
    match e {
        Osc133Event::PromptStart => seq![0x41u8],
        Osc133Event::InputStart => seq![0x42u8],
        Osc133Event::CommandStart => seq![0x43u8],
        Osc133Event::CommandDone(None) => seq![0x44u8],
        Osc133Event::CommandDone(Some(code)) => seq![0x44u8, 0x3bu8] + printed(code),
    }
}

/// A control sequence `ESC ]` that ends in BEL or in `ESC \`.
pub open spec fn sequence(body: Seq<u8>, bell: bool) -> Seq<u8> {
    seq![0x1bu8, 0x5du8] + body + (if bell {
        seq![0x07u8]
    } else {
        seq![0x1bu8, 0x5cu8]
    })
}

/// `133;`, with which a mark begins.
pub open spec fn number_of_marks() -> Seq<u8> {
    seq![0x31u8, 0x33u8, 0x33u8, 0x3bu8]
}

/// Bytes none of which ends a control sequence.
pub open spec fn is_inner(s: Seq<u8>) -> bool {
    forall|i: int| 0 <= i < s.len() ==> #[trigger] s[i] != 0x07 && s[i] != 0x1b
}

/// Bytes as they come.
pub open spec fn passed(s: Seq<u8>) -> Seq<Item> {
    Seq::new(s.len(), |i: int| Item::Byte(s[i]))
}

proof fn lemma_printed(n: i32)
    ensures
        int32(printed(n)) == Some(n),
        is_inner(printed(n)),
        printed(n).len() > 0,
{
    let s = printed(n);
    if n < 0 {
        let d = digits_of((0 - n) as nat);
        lemma_digits_of((0 - n) as nat);
        assert(s.skip(1) =~= d);
        assert(s[0] == 0x2d);
        assert forall|i: int| 0 <= i < s.len() implies #[trigger] s[i] != 0x07 && s[i] != 0x1b by {
            if i > 0 {
                assert(is_digit(d[i - 1]));
            }
        }
    } else {
        lemma_digits_of(n as nat);
        assert(is_digit(s[0]));
        assert forall|i: int| 0 <= i < s.len() implies #[trigger] s[i] != 0x07 && s[i] != 0x1b by {
            assert(is_digit(s[i]));
        }
    }
}

proof fn lemma_said(e: Osc133Event)
    ensures
        event(said(e)) == Some(e),
        is_inner(said(e)),
{
    let s = said(e);
    assert(seq![0x41u8][0] == 0x41 && seq![0x42u8][0] == 0x42 && seq![0x43u8][0] == 0x43
        && seq![0x44u8][0] == 0x44);
    match e {
        Osc133Event::CommandDone(Some(code)) => {
            lemma_printed(code);
            assert(s.skip(2) =~= printed(code));
            assert(s.len() >= 2 && s[0] == 0x44 && s[1] == 0x3b);
            assert forall|i: int| 0 <= i < s.len() implies #[trigger] s[i] != 0x07 && s[i]
                != 0x1b by {
                if i >= 2 {
                    assert(s[i] == printed(code)[i - 2]);
                }
            }
        },
        _ => {},
    }
}

/// Where a whole control sequence stands in front.
proof fn lemma_sequence_front(body: Seq<u8>, bell: bool, more: Seq<u8>)
    requires
        is_inner(body),
    ensures
        ({
            let w = sequence(body, bell);
            let t = w + more;
            &&& t.len() > 0 && t[0] == 0x1b
            &&& begins(t, seq![0x1bu8, 0x5du8])
            &&& begins(t, prefix()) <==> body.len() >= 4 && body.take(4) == number_of_marks()
            &&& t.take(w.len() as int) == w && t.skip(w.len() as int) == more
            &&& begins(t, prefix()) ==> front(t) == (match event(body.skip(4)) {
                Some(e) => crate::composer::prompt_track::Front::Mark(w.len() as int, e),
                None => crate::composer::prompt_track::Front::Plain(w.len() as int),
            })
            &&& !begins(t, prefix()) ==> front(t) == crate::composer::prompt_track::Front::Plain(
                w.len() as int,
            )
        }),
{
    let w = sequence(body, bell);
    let t = w + more;
    let end = 2 + body.len() as int;
    assert(t[0] == 0x1b && t[1] == 0x5d);
    assert(t.take(2) =~= seq![0x1bu8, 0x5du8]);
    assert(t.take(w.len() as int) =~= w);
    assert(t.skip(w.len() as int) =~= more);
    assert forall|j: int| 2 <= j < end implies !terminator_at(t, j) by {
        assert(t[j] == body[j - 2]);
    }
    assert(terminator_at(t, end)) by {
        if bell {
            assert(t[end] == 0x07);
        } else {
            assert(t[end] == 0x1b && t[end + 1] == 0x5c);
        }
    }
    let p = prefix();
    assert(p[0] == 0x1b && p[1] == 0x5d && p[2] == 0x31 && p[3] == 0x33 && p[4] == 0x33 && p[5]
        == 0x3b && p.len() == 6);
    let n = number_of_marks();
    assert(n[0] == 0x31 && n[1] == 0x33 && n[2] == 0x33 && n[3] == 0x3b && n.len() == 4);
    if body.len() >= 4 {
        assert(t[2] == body[0] && t[3] == body[1] && t[4] == body[2] && t[5] == body[3]);
        if body.take(4) == n {
            assert(body.take(4)[0] == body[0] && body.take(4)[1] == body[1] && body.take(4)[2]
                == body[2] && body.take(4)[3] == body[3]);
            assert(t.take(6) =~= p);
        }
        if begins(t, p) {
            assert(t.take(6)[2] == t[2] && t.take(6)[3] == t[3] && t.take(6)[4] == t[4] && t.take(
                6,
            )[5] == t[5]);
            assert(body.take(4) =~= n);
        }
    } else {
        if begins(t, p) {
            assert(t.take(6)[end] == t[end]);
            assert(t[end] == 0x07 || t[end] == 0x1b);
        }
    }
    if t.len() < 6 && begins(p, t) {
        assert(p.take(t.len() as int)[end] == t[end]);
        assert(p[end] == t[end]);
        assert(end >= 2);
        assert(false);
    }
    if begins(t, p) {
        lemma_terminator_is(t, 6, end);
        assert(t.subrange(6, end) =~= body.skip(4));
    } else {
        lemma_terminator_is(t, 2, end);
    }
}

/// Every mark, as it is written, is seen as what it says, whether it ends in
/// BEL or in `ESC \`; none of its bytes is handed on, and what follows is
/// scanned by itself.
pub proof fn law_marks_are_read(e: Osc133Event, bell: bool, more: Seq<u8>)
    ensures
        scan(sequence(number_of_marks() + said(e), bell) + more).items == seq![Item::Mark(e)]
            + scan(more).items,
        scan(sequence(number_of_marks() + said(e), bell) + more).rest == scan(more).rest,
{
    let body = number_of_marks() + said(e);
    lemma_said(e);
    assert forall|i: int| 0 <= i < body.len() implies #[trigger] body[i] != 0x07 && body[i]
        != 0x1b by {
        if i >= 4 {
            assert(body[i] == said(e)[i - 4]);
        } else {
            assert(body[i] == number_of_marks()[i]);
        }
    }
    assert(body.take(4) =~= number_of_marks());
    assert(body.skip(4) =~= said(e));
    lemma_sequence_front(body, bell, more);
}

/// A mark of which only the beginning has come is kept, and nothing is handed
/// on.
pub proof fn law_begun_mark_is_kept(e: Osc133Event, bell: bool, k: int)
    requires
        0 < k < sequence(number_of_marks() + said(e), bell).len() <= 65536,
    ensures
        scan(sequence(number_of_marks() + said(e), bell).take(k)) == (Scan {
            items: seq![],
            rest: sequence(number_of_marks() + said(e), bell).take(k),
        }),
{
    let body = number_of_marks() + said(e);
    let w = sequence(body, bell);
    let t = w.take(k);
    let p = prefix();
    lemma_said(e);
    assert(body.take(4) =~= number_of_marks());
    let n = number_of_marks();
    assert(p[0] == 0x1b && p[1] == 0x5d && p[2] == 0x31 && p[3] == 0x33 && p[4] == 0x33 && p[5]
        == 0x3b && p.len() == 6);
    assert(n[0] == 0x31 && n[1] == 0x33 && n[2] == 0x33 && n[3] == 0x3b && n.len() == 4);
    assert(body[0] == n[0] && body[1] == n[1] && body[2] == n[2] && body[3] == n[3]);
    assert(w[0] == 0x1b && w[1] == 0x5d && w[2] == body[0] && w[3] == body[1] && w[4] == body[2]
        && w[5] == body[3]);
    if k < 6 {
        assert(p.take(k) =~= t);
    } else {
        assert(t.take(6) =~= p);
        assert(t.take(2) =~= seq![0x1bu8, 0x5du8]);
        let end = 2 + body.len() as int;
        assert forall|j: int| 6 <= j < k implies !terminator_at(t, j) by {
            if j < end {
                assert(t[j] == body[j - 2]);
                assert(body[j - 2] == said(e)[j - 6]);
            } else {
                assert(!bell && j == end && k == end + 1);
            }
        }
        lemma_terminator_is(t, 6, k);
    }
}

/// The beginning of a mark that has no end yet is kept as long as it has at
/// most 65536 bytes, and is handed on where it is longer.
pub proof fn law_long_mark_is_let_go(body: Seq<u8>)
    requires
        is_inner(body),
    ensures
        ({
            let t = seq![0x1bu8, 0x5du8] + number_of_marks() + body;
            scan(t) == if t.len() <= 65536 {
                Scan { items: seq![], rest: t }
            } else {
                Scan { items: passed(t), rest: seq![] }
            }
        }),
{
    let t = seq![0x1bu8, 0x5du8] + number_of_marks() + body;
    assert(t.take(6) =~= prefix());
    assert(t.take(2) =~= seq![0x1bu8, 0x5du8]);
    assert forall|j: int| 6 <= j < t.len() implies !terminator_at(t, j) by {
        assert(t[j] == body[j - 6]);
    }
    lemma_terminator_is(t, 6, t.len() as int);
    assert(bytes(t) =~= passed(t));
}

/// Bytes without an escape pass as they are.
pub proof fn law_plain_bytes_pass(s: Seq<u8>, more: Seq<u8>)
    requires
        forall|i: int| 0 <= i < s.len() ==> #[trigger] s[i] != 0x1b,
    ensures
        scan(s + more).items == passed(s) + scan(more).items,
        scan(s + more).rest == scan(more).rest,
    decreases s.len(),
{
    let t = s + more;
    if s.len() == 0 {
        assert(t =~= more);
        assert(passed(s) + scan(more).items =~= scan(more).items);
    } else {
        assert(t[0] == s[0]);
        assert(t.skip(1) =~= s.skip(1) + more);
        law_plain_bytes_pass(s.skip(1), more);
        assert(bytes(t.take(1)) + (passed(s.skip(1)) + scan(more).items) =~= passed(s) + scan(
            more,
        ).items);
    }
}

/// An escape that begins no `ESC ]` passes like any byte.
pub proof fn law_other_escapes_pass(b: u8, more: Seq<u8>)
    requires
        b != 0x5d,
    ensures
        scan(seq![0x1bu8, b] + more).items == seq![Item::Byte(0x1b)] + scan(seq![b] + more).items,
        scan(seq![0x1bu8, b] + more).rest == scan(seq![b] + more).rest,
{
    let t = seq![0x1bu8, b] + more;
    assert(t[0] == 0x1b && t[1] == b);
    if begins(t, seq![0x1bu8, 0x5du8]) {
        assert(t.take(2)[1] == b);
        assert(seq![0x1bu8, 0x5du8][1] == 0x5d);
    }
    if begins(prefix(), t) {
        assert(prefix().take(t.len() as int)[1] == t[1]);
        assert(prefix()[1] == 0x5d);
    }
    assert(t.skip(1) =~= seq![b] + more);
    assert(bytes(t.take(1)) =~= seq![Item::Byte(0x1b)]);
}

/// Whether this is none of the things that a mark can say.
pub open spec fn says_nothing(s: Seq<u8>) -> bool {
    ||| s.len() == 0
    ||| s[0] < 0x41 || s[0] > 0x44
    ||| s.len() > 1 && (s[0] != 0x44 || s[1] != 0x3b)
    ||| s.len() == 2
    ||| s.len() > 2 && !(0x30 <= s.last() <= 0x39)
}

/// Other control sequences pass as they are, and so does a mark that says
/// nothing known.
pub proof fn law_other_sequences_pass(body: Seq<u8>, bell: bool, more: Seq<u8>)
    requires
        is_inner(body),
        body.len() >= 4 && body.take(4) == number_of_marks() ==> says_nothing(body.skip(4)),
    ensures
        scan(sequence(body, bell) + more).items == passed(sequence(body, bell)) + scan(more).items,
        scan(sequence(body, bell) + more).rest == scan(more).rest,
{
    let w = sequence(body, bell);
    lemma_sequence_front(body, bell, more);
    assert(bytes(w) =~= passed(w));
    if body.len() >= 4 && body.take(4) == number_of_marks() {
        let s = body.skip(4);
        assert(seq![0x41u8][0] == 0x41 && seq![0x42u8][0] == 0x42 && seq![0x43u8][0] == 0x43
            && seq![0x44u8][0] == 0x44);
        if s.len() == 2 {
            assert(s.skip(2).len() == 0);
        } else if s.len() > 2 && s[0] == 0x44 && s[1] == 0x3b {
            let code = s.skip(2);
            assert(code.last() == s.last());
            if code[0] == 0x2b || code[0] == 0x2d {
                if all_digits(code.skip(1)) {
                    let d = code.skip(1);
                    assert(is_digit(d[d.len() - 1]));
                    assert(d.last() == code.last());
                }
            } else if all_digits(code) {
                assert(is_digit(code[code.len() - 1]));
            }
        }
        assert(event(s) is None);
    }
}

/// What is handed on in segments: none of them is empty, and no two that hold
/// bytes stand side by side.
pub proof fn law_segments_are_long(segments: Seq<Segment>, i: int)
    requires
        maximal(segments),
        0 <= i < segments.len(),
    ensures
        segments[i] matches Segment::Bytes(b) ==> b@.len() > 0,
        i + 1 < segments.len() ==> segments[i] is Marker || segments[i + 1] is Marker,
{
}

/// Segments stand for what they hold, one behind the other.
pub proof fn law_segments_stand_for_items(segments: Seq<Segment>, s: Segment)
    ensures
        items(Seq::<Segment>::empty()).len() == 0,
        items(segments.push(s)) == items(segments) + (match s {
            Segment::Bytes(b) => passed(b@),
            Segment::Marker(e) => seq![Item::Mark(e)],
        }),
{
    assert(segments.push(s).drop_last() =~= segments);
    if let Segment::Bytes(b) = s {
        assert(bytes(b@) =~= passed(b@));
    }
}

} // verus!
