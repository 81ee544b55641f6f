//! Finds the shell's prompt marks (OSC 133) in terminal output.
//!
//! The scanner takes the output in pieces, hands every byte on that is not
//! part of a mark, and keeps an unfinished mark until its end arrives.

use crate::number::{int32, parse_i32};
use vstd::prelude::*;
use vstd::slice::slice_subrange;

verus! {

const ESC: u8 = 0x1b;

const BEL: u8 = 0x07;

/// The longest unfinished mark that is kept, in bytes.
pub const MAX_PARTIAL: usize = 65536;

/// What a mark says.
#[derive(Debug, Clone, Copy, PartialEq, Eq, Structural)]
pub enum Osc133Event {
    PromptStart,
    InputStart,
    CommandStart,
    CommandDone(Option<i32>),
}

/// A piece of output: bytes for the terminal, or a mark.
#[derive(Debug, Clone, Copy, PartialEq, Eq)]
pub enum Segment<'a> {
    Bytes(&'a [u8]),
    Marker(Osc133Event),
}

/// Finds marks in a stream that arrives in pieces.
pub struct Osc133Scanner {
    partial: Vec<u8>,
    scratch: Vec<u8>,
}

/// One item of the stream: a byte or a mark.
pub ghost enum Item {
    Byte(u8),
    Mark(Osc133Event),
}

/// What stands at the front of some output: bytes to hand on, a mark of a
/// given length, or the beginning of a mark whose end is still to come.
pub ghost enum Front {
    Plain(int),
    Mark(int, Osc133Event),
    Wait,
}

/// `ESC ] 1 3 3 ;`
pub open spec fn prefix() -> Seq<u8> {
    seq![0x1bu8, 0x5du8, 0x31u8, 0x33u8, 0x33u8, 0x3bu8]
}

/// Whether a terminator, BEL or `ESC \`, stands at position `i`.
pub open spec fn terminator_at(t: Seq<u8>, i: int) -> bool {
    0 <= i < t.len() && (t[i] == 0x07 || (t[i] == 0x1b && i + 1 < t.len() && t[i + 1] == 0x5c))
}

/// The length of the terminator that stands at position `i`.
pub open spec fn terminator_len(t: Seq<u8>, i: int) -> int {
    if t[i] == 0x07 {
        1
    } else {
        2
    }
}

/// The position of the first terminator at or behind `i`, or the length.
pub open spec fn terminator(t: Seq<u8>, i: int) -> int
    decreases t.len() - i,
{
    if i >= t.len() {
        t.len() as int
    } else if terminator_at(t, i) {
        i
    } else {
        terminator(t, i + 1)
    }
}

/// The mark that a payload stands for.
pub open spec fn event(payload: Seq<u8>) -> Option<Osc133Event> {
    if payload == seq![0x41u8] {
        Some(Osc133Event::PromptStart)
    } else if payload == seq![0x42u8] {
        Some(Osc133Event::InputStart)
    } else if payload == seq![0x43u8] {
        Some(Osc133Event::CommandStart)
    } else if payload == seq![0x44u8] {
        Some(Osc133Event::CommandDone(None))
    } else if payload.len() >= 2 && payload[0] == 0x44 && payload[1] == 0x3b {
        match int32(payload.skip(2)) {
            Some(code) => Some(Osc133Event::CommandDone(Some(code))),
            None => None,
        }
    } else {
        None
    }
}

/// Whether `a` begins with `b`.
pub open spec fn begins(a: Seq<u8>, b: Seq<u8>) -> bool {
    b.len() <= a.len() && a.take(b.len() as int) == b
}

/// Whether `t`, not empty, begins with a control sequence other than a mark
/// (`ESC ]`) whose terminator is missing.
pub open spec fn cut_short(t: Seq<u8>) -> bool {
    &&& begins(t, seq![0x1bu8, 0x5du8])
    &&& !begins(t, prefix())
    &&& !begins(prefix(), t)
    &&& terminator(t, 2) >= t.len()
}

/// What stands at the front of `t`, which is not empty.
pub open spec fn front(t: Seq<u8>) -> Front {
    if t[0] != 0x1b {
        Front::Plain(1)
    } else if t.len() < prefix().len() && begins(prefix(), t) {
        Front::Wait
    } else if !begins(t, seq![0x1bu8, 0x5du8]) {
        Front::Plain(1)
    } else if !begins(t, prefix()) {
        let end = terminator(t, 2);
        if end < t.len() {
            Front::Plain(end + terminator_len(t, end))
        } else {
            Front::Plain(t.len() as int)
        }
    } else {
        let end = terminator(t, 6);
        if end >= t.len() {
            Front::Wait
        } else {
            let n = end + terminator_len(t, end);
            match event(t.subrange(6, end)) {
                Some(e) => Front::Mark(n, e),
                None => Front::Plain(n),
            }
        }
    }
}

/// Bytes as items.
pub open spec fn bytes(t: Seq<u8>) -> Seq<Item> {
    t.map_values(|b: u8| Item::Byte(b))
}

/// What a scan of some output yields: the items to hand on, and the
/// unfinished mark at its end.
pub ghost struct Scan {
    pub items: Seq<Item>,
    pub rest: Seq<u8>,
}

pub open spec fn led(items: Seq<Item>, scan: Scan) -> Scan {
    Scan { items: items + scan.items, rest: scan.rest }
}

/// The scan of `t`. An unfinished mark longer than `MAX_PARTIAL` is handed on
/// as bytes.
pub open spec fn scan(t: Seq<u8>) -> Scan
    decreases t.len(),
{
    if t.len() == 0 {
        Scan { items: seq![], rest: seq![] }
    } else {
        match front(t) {
            Front::Plain(n) => if 0 < n <= t.len() {
                led(bytes(t.take(n)), scan(t.skip(n)))
            } else {
                arbitrary()
            },
            Front::Mark(n, e) => if 0 < n <= t.len() {
                led(seq![Item::Mark(e)], scan(t.skip(n)))
            } else {
                arbitrary()
            },
            Front::Wait => if t.len() > MAX_PARTIAL {
                Scan { items: bytes(t), rest: seq![] }
            } else {
                Scan { items: seq![], rest: t }
            },
        }
    }
}

/// The items of one segment.
pub open spec fn segment_items(s: Segment) -> Seq<Item> {
    match s {
        Segment::Bytes(b) => bytes(b@),
        Segment::Marker(e) => seq![Item::Mark(e)],
    }
}

/// The items of a list of segments.
pub open spec fn items(segments: Seq<Segment>) -> Seq<Item>
    decreases segments.len(),
{
    if segments.len() == 0 {
        seq![]
    } else {
        items(segments.drop_last()) + segment_items(segments.last())
    }
}

/// Segments of bytes are not empty, and no two of them are neighbours.
pub open spec fn maximal(segments: Seq<Segment>) -> bool {
    &&& forall|i: int|
        0 <= i < segments.len() ==> ((#[trigger] segments[i]) matches Segment::Bytes(b)
            ==> b@.len() > 0)
    &&& forall|i: int|
        0 <= i && i + 1 < segments.len() ==> !((#[trigger] segments[i]) is Bytes && segments[i
            + 1] is Bytes)
}

proof fn lemma_terminator(t: Seq<u8>, i: int)
    requires
        0 <= i <= t.len(),
    ensures
        i <= terminator(t, i) <= t.len(),
        terminator(t, i) < t.len() ==> terminator_at(t, terminator(t, i)),
        forall|j: int| i <= j < terminator(t, i) ==> !terminator_at(t, j),
    decreases t.len() - i,
{
    if i < t.len() && !terminator_at(t, i) {
        lemma_terminator(t, i + 1);
    }
}

/// A terminator with none in front of it is the first.
pub proof fn lemma_terminator_is(t: Seq<u8>, i: int, k: int)
    requires
        0 <= i <= k <= t.len(),
        forall|j: int| i <= j < k ==> !terminator_at(t, j),
        k < t.len() ==> terminator_at(t, k),
    ensures
        terminator(t, i) == k,
    decreases k - i,
{
    if i < k {
        lemma_terminator_is(t, i + 1, k);
    }
}

/// What stands at the front is not empty and not longer than the output.
proof fn lemma_front(t: Seq<u8>)
    requires
        t.len() > 0,
    ensures
        match front(t) {
            Front::Plain(n) => 0 < n <= t.len(),
            Front::Mark(n, e) => 0 < n <= t.len(),
            Front::Wait => t[0] == 0x1b,
        },
{
    if t.len() >= 2 {
        lemma_terminator(t, 2);
    }
    if t.len() >= 6 {
        lemma_terminator(t, 6);
    }
}

/// The position of the first terminator at or behind `i`, or the length.
fn find_terminator(t: &[u8], i: usize) -> (k: usize)
    requires
        i <= t@.len(),
    ensures
        k == terminator(t@, i as int),
        i <= k <= t@.len(),
{
    let mut k: usize = i;
    while k < t.len()
        invariant_except_break
            i <= k <= t@.len(),
            forall|j: int| i <= j < k ==> !terminator_at(t@, j),
        ensures
            i <= k <= t@.len(),
            forall|j: int| i <= j < k ==> !terminator_at(t@, j),
            k < t@.len() ==> terminator_at(t@, k as int),
        decreases t@.len() - k,
    {
        if t[k] == BEL || (t[k] == ESC && t.len() - k > 1 && t[k + 1] == 0x5c) {
            break;
        }
        k = k + 1;
    }
    proof {
        lemma_terminator_is(t@, i as int, k as int);
    }
    k
}

/// The mark that a payload stands for.
fn parse_payload(payload: &[u8]) -> (r: Option<Osc133Event>)
    ensures
        r == event(payload@),
{
    if payload.len() == 1 {
        let b: u8 = payload[0];
        assert(payload@ =~= seq![b]);
        assert(seq![0x41u8][0] == 0x41 && seq![0x42u8][0] == 0x42 && seq![0x43u8][0] == 0x43
            && seq![0x44u8][0] == 0x44);
        match b {
            0x41 => Some(Osc133Event::PromptStart),
            0x42 => Some(Osc133Event::InputStart),
            0x43 => Some(Osc133Event::CommandStart),
            0x44 => Some(Osc133Event::CommandDone(None)),
            _ => None,
        }
    } else {
        assert(payload@ != seq![0x41u8] && payload@ != seq![0x42u8] && payload@ != seq![0x43u8]
            && payload@ != seq![0x44u8]);
        if payload.len() >= 2 && payload[0] == 0x44 && payload[1] == 0x3b {
            let code: &[u8] = slice_subrange(payload, 2, payload.len());
            assert(code@ =~= payload@.skip(2));
            match parse_i32(code) {
                Some(code) => Some(Osc133Event::CommandDone(Some(code))),
                None => None,
            }
        } else {
            None
        }
    }
}

/// The length of the common beginning of `t` and `ESC ] 1 3 3 ;`.
fn prefix_match(t: &[u8]) -> (n: usize)
    ensures
        n <= 6,
        n <= t@.len(),
        forall|i: int| 0 <= i < n ==> t@[i] == #[trigger] prefix()[i],
        n < 6 && n < t@.len() ==> t@[n as int] != prefix()[n as int],
{
    let p: [u8; 6] = [0x1b, 0x5d, 0x31, 0x33, 0x33, 0x3b];
    let mut n: usize = 0;
    assert(p@ =~= prefix());
    while n < 6 && n < t.len()
        invariant_except_break
            n <= 6,
            n <= t@.len(),
            p@ == prefix(),
            forall|i: int| 0 <= i < n ==> t@[i] == #[trigger] prefix()[i],
        ensures
            n <= 6,
            n <= t@.len(),
            forall|i: int| 0 <= i < n ==> t@[i] == #[trigger] prefix()[i],
            n < 6 && n < t@.len() ==> t@[n as int] != prefix()[n as int],
        decreases 6 - n,
    {
        if t[n] != p[n] {
            break;
        }
        n = n + 1;
    }
    n
}

/// What stands at the front of some output.
enum Found {
    Plain(usize),
    Mark(usize, Osc133Event),
    Wait,
}

impl Found {
    spec fn as_front(self) -> Front {
        match self {
            Found::Plain(n) => Front::Plain(n as int),
            Found::Mark(n, e) => Front::Mark(n as int, e),
            Found::Wait => Front::Wait,
        }
    }
}

/// What stands at the front of `t`.
fn read_front(t: &[u8]) -> (r: Found)
    requires
        t@.len() > 0,
    ensures
        r.as_front() == front(t@),
{
    if t[0] != ESC {
        return Found::Plain(1);
    }
    let n: usize = prefix_match(t);
    let ghost two = seq![0x1bu8, 0x5du8];
    proof {
        assert(prefix()[0] == 0x1b && prefix()[1] == 0x5d);
        assert(n == 6 <==> begins(t@, prefix())) by {
            if n == 6 {
                assert(t@.take(6) =~= prefix());
            } else if begins(t@, prefix()) {
                assert(t@.take(6)[n as int] == t@[n as int]);
            }
        }
        assert(n >= 2 <==> begins(t@, two)) by {
            if n >= 2 {
                assert(t@.take(2) =~= two);
            } else if begins(t@, two) {
                assert(t@.take(2)[0] == t@[0] && t@.take(2)[1] == t@[1]);
            }
        }
        assert(t@.len() < 6 ==> (n == t@.len() <==> begins(prefix(), t@))) by {
            if t@.len() < 6 {
                if n == t@.len() {
                    assert(prefix().take(n as int) =~= t@);
                } else if begins(prefix(), t@) {
                    assert(prefix().take(t@.len() as int)[n as int] == prefix()[n as int]);
                }
            }
        }
    }
    if t.len() < 6 && n == t.len() {
        return Found::Wait;
    }
    if n < 2 {
        return Found::Plain(1);
    }
    let from: usize = if n < 6 {
        2
    } else {
        6
    };
    let end: usize = find_terminator(t, from);
    if end >= t.len() {
        return if n < 6 {
            Found::Plain(t.len())
        } else {
            Found::Wait
        };
    }
    proof {
        lemma_terminator(t@, from as int);
    }
    let stop: usize = if t[end] == BEL {
        end + 1
    } else {
        end + 2
    };
    if n < 6 {
        return Found::Plain(stop);
    }
    match parse_payload(slice_subrange(t, 6, end)) {
        Some(e) => Found::Mark(stop, e),
        None => Found::Plain(stop),
    }
}

/// The last of the segments is not bytes.
spec fn ends_in_mark(segments: Seq<Segment>) -> bool {
    segments.len() > 0 ==> segments.last() is Marker
}

proof fn lemma_items_push(segments: Seq<Segment>, s: Segment)
    ensures
        items(segments.push(s)) == items(segments) + segment_items(s),
{
    assert(segments.push(s).drop_last() =~= segments);
}

/// Adds a segment of bytes, unless it is empty.
fn push_bytes<'a>(out: &mut Vec<Segment<'a>>, b: &'a [u8])
    requires
        maximal(old(out)@),
        ends_in_mark(old(out)@),
    ensures
        maximal(final(out)@),
        items(final(out)@) == items(old(out)@) + bytes(b@),
{
    if b.len() > 0 {
        proof {
            lemma_items_push(out@, Segment::Bytes(b));
        }
        out.push(Segment::Bytes(b));
    } else {
        assert(items(out@) + bytes(b@) =~= items(out@));
    }
}

/// Scans `source`, leaving an unfinished mark at its end in `partial`.
fn scan_source<'a>(source: &'a [u8], partial: &mut Vec<u8>) -> (out: Vec<Segment<'a>>)
    requires
        old(partial)@.len() == 0,
    ensures
        items(out@) == scan(source@).items,
        final(partial)@ == scan(source@).rest,
        maximal(out@),
{
    let mut out: Vec<Segment<'a>> = Vec::new();
    let n: usize = source.len();
    let mut start: usize = 0;
    let mut i: usize = 0;
    proof {
        assert(source@.skip(0) =~= source@);
        assert(items(out@) + bytes(source@.subrange(0, 0)) + scan(source@).items =~= scan(
            source@,
        ).items);
    }
    while i < n
        invariant
            n == source@.len(),
            start <= i <= n,
            maximal(out@),
            ends_in_mark(out@),
            partial@.len() == 0,
            items(out@) + bytes(source@.subrange(start as int, i as int)) + scan(
                source@.skip(i as int),
            ).items == scan(source@).items,
            scan(source@.skip(i as int)).rest == scan(source@).rest,
        decreases n - i,
    {
        let ghost before = out@;
        let ghost pending = source@.subrange(start as int, i as int);
        let rest: &'a [u8] = slice_subrange(source, i, n);
        proof {
            assert(rest@ =~= source@.skip(i as int));
            lemma_front(rest@);
        }
        match read_front(rest) {
            Found::Plain(k) => {
                proof {
                    assert(rest@.skip(k as int) =~= source@.skip(i + k));
                    assert(source@.subrange(start as int, i + k) =~= pending + rest@.take(k as int));
                    assert(bytes(pending + rest@.take(k as int)) =~= bytes(pending) + bytes(
                        rest@.take(k as int),
                    ));
                    assert(items(before) + bytes(pending) + scan(rest@).items =~= items(before)
                        + bytes(source@.subrange(start as int, i + k)) + scan(
                        source@.skip(i + k),
                    ).items);
                }
                i = i + k;
            },
            Found::Mark(k, e) => {
                push_bytes(&mut out, slice_subrange(source, start, i));
                proof {
                    lemma_items_push(out@, Segment::Marker(e));
                    assert(rest@.skip(k as int) =~= source@.skip(i + k));
                    assert(bytes(source@.subrange(i + k, i + k)) =~= seq![]);
                    assert(items(before) + bytes(pending) + scan(rest@).items =~= (items(before)
                        + bytes(pending) + seq![Item::Mark(e)]) + bytes(
                        source@.subrange(i + k, i + k),
                    ) + scan(source@.skip(i + k)).items);
                }
                out.push(Segment::Marker(e));
                i = i + k;
                start = i;
            },
            Found::Wait => {
                if n - i > MAX_PARTIAL {
                    push_bytes(&mut out, slice_subrange(source, start, n));
                    proof {
                        assert(source@.subrange(start as int, n as int) =~= pending + rest@);
                        assert(bytes(pending + rest@) =~= bytes(pending) + bytes(rest@));
                        assert(items(before) + bytes(pending) + bytes(rest@) =~= items(before)
                            + bytes(pending + rest@));
                    }
                    return out;
                }
                push_bytes(&mut out, slice_subrange(source, start, i));
                partial.extend_from_slice(rest);
                proof {
                    assert(partial@ =~= rest@);
                    assert(items(before) + bytes(pending) + Seq::<Item>::empty() =~= items(before)
                        + bytes(pending));
                }
                return out;
            },
        }
    }
    push_bytes(&mut out, slice_subrange(source, start, n));
    proof {
        assert(source@.skip(n as int) =~= Seq::<u8>::empty());
        assert(items(out@) + Seq::<Item>::empty() =~= items(out@));
        assert(partial@ =~= seq![]);
    }
    out
}

impl Osc133Scanner {
    /// The unfinished mark that the scanner keeps.
    pub closed spec fn pending(&self) -> Seq<u8> {
        self.partial@
    }

    pub fn new() -> (r: Self)
        ensures
            r.pending() == Seq::<u8>::empty(),
    {
        Osc133Scanner { partial: Vec::new(), scratch: Vec::new() }
    }

    /// Scans the next piece of output. What is handed on is what a scan of the
    /// unfinished mark followed by `bytes` yields, in segments as long as can
    /// be.
    pub fn feed<'a>(&'a mut self, bytes: &'a [u8]) -> (r: Vec<Segment<'a>>)
        ensures
            items(r@) == scan(old(self).pending() + bytes@).items,
            final(self).pending() == scan(old(self).pending() + bytes@).rest,
            maximal(r@),
    {
        if self.partial.len() == 0 {
            assert(self.partial@ + bytes@ =~= bytes@);
            return scan_source(bytes, &mut self.partial);
        }
        self.scratch.clear();
        self.scratch.extend_from_slice(self.partial.as_slice());
        self.scratch.extend_from_slice(bytes);
        assert(self.scratch@ =~= self.partial@ + bytes@);
        self.partial.clear();
        scan_source(self.scratch.as_slice(), &mut self.partial)
    }
}

impl Default for Osc133Scanner {
    fn default() -> (r: Self)
        ensures
            r.pending() == Seq::<u8>::empty(),
    {
        Osc133Scanner::new()
    }
}

/// Whether a scan of `t` ends in the middle of something that it does not
/// keep: a control sequence other than a mark, or a mark longer than
/// `MAX_PARTIAL`.
pub open spec fn gives_up(t: Seq<u8>) -> bool
    decreases t.len(),
{
    if t.len() == 0 {
        false
    } else {
        match front(t) {
            Front::Plain(n) => cut_short(t) || (0 < n <= t.len() && gives_up(t.skip(n))),
            Front::Mark(n, e) => 0 < n <= t.len() && gives_up(t.skip(n)),
            Front::Wait => t.len() > MAX_PARTIAL,
        }
    }
}

/// What has been found at the front does not change when more output follows.
proof fn lemma_front_stable(a: Seq<u8>, b: Seq<u8>)
    requires
        a.len() > 0,
        !(front(a) is Wait),
        !cut_short(a),
    ensures
        front(a + b) == front(a),
{
    let t = a + b;
    let two = seq![0x1bu8, 0x5du8];
    assert(t[0] == a[0]);
    if a[0] == 0x1b {
        assert(prefix()[0] == 0x1b && prefix()[1] == 0x5d && two[0] == 0x1b && two[1] == 0x5d);
        if a.len() == 1 {
            assert(prefix().take(1) =~= a);
        }
        assert(t[1] == a[1]);
        assert(begins(a, two) <==> a[1] == 0x5d) by {
            if a[1] == 0x5d {
                assert(a.take(2) =~= two);
            } else {
                assert(a.take(2)[1] == a[1]);
            }
        }
        assert(begins(t, two) <==> t[1] == 0x5d) by {
            if t[1] == 0x5d {
                assert(t.take(2) =~= two);
            } else {
                assert(t.take(2)[1] == t[1]);
            }
        }
        if a[1] != 0x5d {
            if t.len() < 6 && begins(prefix(), t) {
                assert(prefix().take(t.len() as int)[1] == t[1]);
            }
        } else {
            let from: int = if begins(a, prefix()) {
                6
            } else {
                2
            };
            if begins(a, prefix()) {
                assert(t.take(6) =~= a.take(6));
            } else {
                lemma_not_prefix(a, b);
            }
            if begins(prefix(), a) && a.len() == 6 {
                assert(prefix().take(6) =~= prefix());
                assert(a.take(6) =~= a);
            }
            lemma_terminator(a, from);
            let end = terminator(a, from);
            if end < a.len() {
                assert(t[end] == a[end]);
                assert forall|j: int| from <= j < end implies !terminator_at(t, j) by {
                    assert(!terminator_at(a, j));
                    assert(t[j] == a[j] && t[j + 1] == a[j + 1]);
                }
                if a[end] != 0x07 {
                    assert(t[end + 1] == a[end + 1]);
                }
                lemma_terminator_is(t, from, end);
                assert(t.subrange(from, end) =~= a.subrange(from, end));
            }
        }
    }
}

/// What differs from the beginning of a mark goes on to differ.
proof fn lemma_not_prefix(a: Seq<u8>, b: Seq<u8>)
    requires
        a.len() >= 2,
        !begins(a, prefix()),
        !(a.len() < 6 && begins(prefix(), a)),
    ensures
        !begins(a + b, prefix()),
        !((a + b).len() < 6 && begins(prefix(), a + b)),
{
    let t = a + b;
    if begins(t, prefix()) {
        if a.len() >= 6 {
            assert(a.take(6) =~= t.take(6));
        } else {
            assert forall|i: int| 0 <= i < a.len() implies #[trigger] a[i] == prefix()[i] by {
                assert(t.take(6)[i] == t[i]);
            }
            assert(prefix().take(a.len() as int) =~= a);
        }
    }
    if t.len() < 6 && begins(prefix(), t) {
        assert forall|i: int| 0 <= i < a.len() implies #[trigger] a[i] == prefix()[i] by {
            assert(prefix().take(t.len() as int)[i] == t[i]);
        }
        assert(prefix().take(a.len() as int) =~= a);
    }
}

/// Where the output is cut into pieces makes no difference: feeding `a` and
/// then `b` hands on what feeding `a + b` at once does, and keeps the same
/// unfinished mark, unless the scan of `a` gives up on something unfinished.
pub proof fn law_split(a: Seq<u8>, b: Seq<u8>)
    requires
        !gives_up(a),
    ensures
        scan(a + b).items == scan(a).items + scan(scan(a).rest + b).items,
        scan(a + b).rest == scan(scan(a).rest + b).rest,
    decreases a.len(),
{
    let t = a + b;
    if a.len() == 0 {
        assert(t =~= b);
        assert(Seq::<u8>::empty() + b =~= b);
        assert(Seq::<Item>::empty() + scan(b).items =~= scan(b).items);
    } else {
        lemma_front(a);
        match front(a) {
            Front::Plain(n) => {
                lemma_front_stable(a, b);
                assert(t.take(n) =~= a.take(n));
                assert(t.skip(n) =~= a.skip(n) + b);
                law_split(a.skip(n), b);
                let r = scan(scan(a.skip(n)).rest + b).items;
                assert(bytes(a.take(n)) + (scan(a.skip(n)).items + r) =~= bytes(a.take(n))
                    + scan(a.skip(n)).items + r);
            },
            Front::Mark(n, e) => {
                lemma_front_stable(a, b);
                assert(t.skip(n) =~= a.skip(n) + b);
                law_split(a.skip(n), b);
                let r = scan(scan(a.skip(n)).rest + b).items;
                assert(seq![Item::Mark(e)] + (scan(a.skip(n)).items + r) =~= seq![Item::Mark(e)]
                    + scan(a.skip(n)).items + r);
            },
            Front::Wait => {
                assert(Seq::<Item>::empty() + scan(t).items =~= scan(t).items);
            },
        }
    }
}

/// The unfinished mark that is kept never exceeds `MAX_PARTIAL` bytes.
pub proof fn law_pending_bounded(t: Seq<u8>)
    ensures
        scan(t).rest.len() <= MAX_PARTIAL,
    decreases t.len(),
{
    if t.len() > 0 {
        lemma_front(t);
        match front(t) {
            Front::Plain(n) => {
                law_pending_bounded(t.skip(n));
            },
            Front::Mark(n, e) => {
                law_pending_bounded(t.skip(n));
            },
            Front::Wait => {},
        }
    }
}

/// Output in which no mark is found passes through unchanged: what is handed
/// on, followed by what is kept, is the output itself.
pub proof fn law_passthrough(t: Seq<u8>)
    requires
        forall|i: int| 0 <= i < scan(t).items.len() ==> (#[trigger] scan(t).items[i]) is Byte,
    ensures
        scan(t).items + bytes(scan(t).rest) == bytes(t),
    decreases t.len(),
{
    if t.len() == 0 {
        assert(scan(t).items + bytes(scan(t).rest) =~= bytes(t));
    } else {
        lemma_front(t);
        match front(t) {
            Front::Plain(n) => {
                let rest = scan(t.skip(n));
                assert forall|i: int| 0 <= i < rest.items.len() implies (
                #[trigger] rest.items[i]) is Byte by {
                    assert(scan(t).items[i + n] == rest.items[i]);
                }
                law_passthrough(t.skip(n));
                assert(bytes(t) =~= bytes(t.take(n)) + bytes(t.skip(n)));
                assert(scan(t).items + bytes(scan(t).rest) =~= bytes(t.take(n)) + (rest.items
                    + bytes(rest.rest)));
            },
            Front::Mark(n, e) => {
                assert(scan(t).items[0] == Item::Mark(e));
            },
            Front::Wait => {
                assert(scan(t).items + bytes(scan(t).rest) =~= bytes(t));
            },
        }
    }
}

/// A whole mark is seen as such, and what follows is scanned by itself.
pub proof fn law_mark_is_seen(payload: Seq<u8>, e: Osc133Event, more: Seq<u8>)
    requires
        event(payload) == Some(e),
        forall|i: int|
            0 <= i < payload.len() ==> #[trigger] payload[i] != 0x07 && payload[i] != 0x1b,
    ensures
        scan(prefix() + payload + seq![0x07u8] + more) == led(seq![Item::Mark(e)], scan(more)),
{
    let t = prefix() + payload + seq![0x07u8] + more;
    let end: int = 6 + payload.len() as int;
    assert(prefix().len() == 6);
    assert(t.take(6) =~= prefix());
    assert(prefix().take(2) =~= seq![0x1bu8, 0x5du8]);
    assert(t.take(2) =~= seq![0x1bu8, 0x5du8]);
    assert(t[0] == prefix()[0]);
    assert forall|j: int| 6 <= j < end implies !terminator_at(t, j) by {
        assert(t[j] == payload[j - 6]);
    }
    assert(t[end] == 0x07);
    lemma_terminator_is(t, 6, end);
    assert(t.subrange(6, end) =~= payload);
    assert(t.skip(end + 1) =~= more);
}

} // verus!
