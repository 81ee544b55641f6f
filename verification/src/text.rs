//! Text as sequences of characters: searching, trimming, splitting, comparing.
//!
//! The functions here work on slices of `char`, so that every result is a
//! plain subsequence of its argument; `chars_of` and `string_of` convert from
//! and to strings.

use vstd::prelude::*;
use vstd::slice::slice_subrange;
use vstd::string::StringExecFns;
use vstd::utf8::{decode_utf8, encode_scalar, encode_utf8, valid_utf8};

verus! {

/// `String::push` of std: appends one character.
pub assume_specification[ String::push ](s: &mut String, c: char)
    ensures
        final(s)@ == old(s)@.push(c),
;

/// The text that bytes are read as where what is not UTF-8 is replaced.
pub uninterp spec fn lossy_text(b: Seq<u8>) -> Seq<char>;

/// `String::from_utf8_lossy` of std, as an owned string: a function of the
/// bytes, and the decoded text where they are UTF-8. What invalid bytes are
/// replaced by is not stated.
#[verifier::external_body]
pub(crate) fn lossy(b: &[u8]) -> (r: String)
    ensures
        r@ == lossy_text(b@),
        valid_utf8(b@) ==> r@ == decode_utf8(b@),
{
    String::from_utf8_lossy(b).into_owned()
}

/// The characters with the Unicode property `White_Space`.
pub open spec fn is_white_space(c: char) -> bool {
    let v = c as u32;
    ||| 0x9 <= v <= 0xd
    ||| v == 0x20
    ||| v == 0x85
    ||| v == 0xa0
    ||| v == 0x1680
    ||| 0x2000 <= v <= 0x200a
    ||| v == 0x2028
    ||| v == 0x2029
    ||| v == 0x202f
    ||| v == 0x205f
    ||| v == 0x3000
}

/// `is_white_space` as a value.
pub open spec fn white() -> spec_fn(char) -> bool {
    |c: char| is_white_space(c)
}

/// The predicate "is one of the characters of `set`".
pub open spec fn one_of(set: Seq<char>) -> spec_fn(char) -> bool {
    |c: char| set.contains(c)
}

/// Index of the first character that satisfies `p`, or the length.
pub open spec fn find_first(s: Seq<char>, p: spec_fn(char) -> bool) -> nat
    decreases s.len(),
{
    if s.len() == 0 || p(s[0]) {
        0
    } else {
        1 + find_first(s.skip(1), p)
    }
}

/// What is left of `s` once the leading characters that satisfy `p` are gone.
pub open spec fn skip_front(s: Seq<char>, p: spec_fn(char) -> bool) -> Seq<char>
    decreases s.len(),
{
    if s.len() > 0 && p(s[0]) {
        skip_front(s.skip(1), p)
    } else {
        s
    }
}

/// What is left of `s` once the trailing characters that satisfy `p` are gone.
pub open spec fn skip_back(s: Seq<char>, p: spec_fn(char) -> bool) -> Seq<char>
    decreases s.len(),
{
    if s.len() > 0 && p(s.last()) {
        skip_back(s.drop_last(), p)
    } else {
        s
    }
}

/// `s` without leading and trailing characters that satisfy `p`.
pub open spec fn strip(s: Seq<char>, p: spec_fn(char) -> bool) -> Seq<char> {
    skip_back(skip_front(s, p), p)
}

/// `s` without leading and trailing white space.
pub open spec fn trimmed(s: Seq<char>) -> Seq<char> {
    strip(s, white())
}

/// The pieces of `s` between the characters that satisfy `p`, empty ones
/// included: one more piece than there are such characters.
pub open spec fn pieces(s: Seq<char>, p: spec_fn(char) -> bool) -> Seq<Seq<char>>
    decreases s.len(),
{
    let k = find_first(s, p) as int;
    if s.len() == 0 || k >= s.len() {
        seq![s]
    } else {
        seq![s.take(k)] + pieces(s.skip(k + 1), p)
    }
}

/// The non-empty pieces of `s` between the characters that satisfy `p`.
pub open spec fn fields(s: Seq<char>, p: spec_fn(char) -> bool) -> Seq<Seq<char>> {
    pieces(s, p).filter(|t: Seq<char>| t.len() > 0)
}

/// The words of `s`: its longest runs without white space.
pub open spec fn words(s: Seq<char>) -> Seq<Seq<char>> {
    fields(s, white())
}

/// The predicate "is this character".
pub open spec fn is_char(c: char) -> spec_fn(char) -> bool {
    |x: char| x == c
}

/// A line without the carriage return that may end it.
pub open spec fn without_cr(s: Seq<char>) -> Seq<char> {
    if s.len() > 0 && s.last() == '\r' {
        s.drop_last()
    } else {
        s
    }
}

/// The lines of `s`. A line ends in `\n` or `\r\n`; the ending of the last
/// line may be missing, and a bare `\r` at the very end belongs to its line.
pub open spec fn lines(s: Seq<char>) -> Seq<Seq<char>>
    decreases s.len(),
{
    let k = find_first(s, is_char('\n')) as int;
    if s.len() == 0 {
        seq![]
    } else if k >= s.len() {
        seq![s]
    } else {
        seq![without_cr(s.take(k))] + lines(s.skip(k + 1))
    }
}

/// Whether `t` occurs in `s` at index `i`.
pub open spec fn occurs_at(s: Seq<char>, t: Seq<char>, i: int) -> bool {
    0 <= i && i + t.len() <= s.len() && s.subrange(i, i + t.len()) == t
}

/// Whether `t` occurs in `s`.
pub open spec fn occurs(s: Seq<char>, t: Seq<char>) -> bool {
    exists|i: int| occurs_at(s, t, i)
}

/// Whether `s` begins with `t`.
pub open spec fn begins(s: Seq<char>, t: Seq<char>) -> bool {
    occurs_at(s, t, 0)
}

/// Whether `s` ends with `t`.
pub open spec fn ends(s: Seq<char>, t: Seq<char>) -> bool {
    occurs_at(s, t, s.len() - t.len())
}

/// The ASCII upper-case letter's lower-case form; any other character itself.
pub open spec fn lower(c: char) -> char {
    if 'A' as u32 <= c as u32 <= 'Z' as u32 {
        ((c as u32 + 32) as u32) as char
    } else {
        c
    }
}

/// `s` with its ASCII letters in lower case.
pub open spec fn lowered(s: Seq<char>) -> Seq<char> {
    s.map_values(|c: char| lower(c))
}

/// The views of a sequence of strings.
pub open spec fn views(s: Seq<String>) -> Seq<Seq<char>> {
    s.map_values(|t: String| t@)
}

/// The views of a sequence of character slices.
pub open spec fn slice_views(s: Seq<&[char]>) -> Seq<Seq<char>> {
    s.map_values(|t: &[char]| t@)
}

/// The number of bytes that `s` takes in UTF-8.
pub open spec fn width(s: Seq<char>) -> nat {
    encode_utf8(s).len()
}

/// The encoding of a concatenation is the concatenation of the encodings.
pub proof fn lemma_encode_add(a: Seq<char>, b: Seq<char>)
    ensures
        encode_utf8(a + b) == encode_utf8(a) + encode_utf8(b),
    decreases a.len(),
{
    if a.len() == 0 {
        assert(a + b =~= b);
        assert(encode_utf8(a) + encode_utf8(b) =~= encode_utf8(b));
    } else {
        lemma_encode_add(a.drop_first(), b);
        assert((a + b).drop_first() =~= a.drop_first() + b);
        assert(encode_utf8(a + b) =~= encode_utf8(a) + encode_utf8(b));
    }
}

/// One more character adds its own bytes.
pub proof fn lemma_width_push(s: Seq<char>, c: char)
    ensures
        width(s.push(c)) == width(s) + encode_scalar(c as u32).len(),
        1 <= encode_scalar(c as u32).len() <= 4,
{
    broadcast use vstd::utf8::char_is_scalar;

    lemma_encode_add(s, seq![c]);
    assert(s + seq![c] =~= s.push(c));
    assert(seq![c].drop_first() =~= Seq::<char>::empty());
    assert(encode_utf8(seq![c]) =~= encode_scalar(c as u32) + encode_utf8(Seq::<char>::empty()));
}

/// `width` adds up over concatenation.
pub proof fn lemma_width_add(a: Seq<char>, b: Seq<char>)
    ensures
        width(a + b) == width(a) + width(b),
{
    lemma_encode_add(a, b);
}

/// A prefix takes no more bytes than the whole; a longer one takes more.
pub proof fn lemma_width_take(s: Seq<char>, i: int, j: int)
    requires
        0 <= i <= j <= s.len(),
    ensures
        width(s.take(i)) + (j - i) <= width(s.take(j)) <= width(s),
        i < j ==> width(s.take(j)) >= width(s.take(j - 1)) + 1,
    decreases j - i,
{
    lemma_width_add(s.take(j), s.skip(j));
    assert(s.take(j) + s.skip(j) =~= s);
    if i < j {
        lemma_width_take(s, i, j - 1);
        lemma_width_push(s.take(j - 1), s[j - 1]);
        assert(s.take(j - 1).push(s[j - 1]) =~= s.take(j));
    }
}

/// The number of bytes that `c` takes in UTF-8.
pub fn utf8_len(c: char) -> (n: usize)
    ensures
        n == encode_scalar(c as u32).len(),
        1 <= n <= 4,
{
    proof {
        vstd::utf8::char_is_scalar(c);
    }
    let v: u32 = c as u32;
    if v <= 0x7f {
        1
    } else if v <= 0x7ff {
        2
    } else if v <= 0xffff {
        3
    } else {
        4
    }
}

pub proof fn lemma_find_first(s: Seq<char>, p: spec_fn(char) -> bool, k: int)
    requires
        0 <= k <= s.len(),
        forall|j: int| 0 <= j < k ==> !p(#[trigger] s[j]),
        k < s.len() ==> p(s[k]),
    ensures
        find_first(s, p) == k,
    decreases s.len(),
{
    if k > 0 {
        assert(!p(s[0]));
        assert forall|j: int| 0 <= j < k - 1 implies !p(#[trigger] s.skip(1)[j]) by {
            assert(s.skip(1)[j] == s[j + 1]);
        }
        lemma_find_first(s.skip(1), p, k - 1);
    }
}

pub proof fn lemma_find_first_bounds(s: Seq<char>, p: spec_fn(char) -> bool)
    ensures
        find_first(s, p) <= s.len(),
        forall|j: int| 0 <= j < find_first(s, p) ==> !p(#[trigger] s[j]),
        find_first(s, p) < s.len() ==> p(s[find_first(s, p) as int]),
    decreases s.len(),
{
    if s.len() > 0 && !p(s[0]) {
        let t = s.skip(1);
        lemma_find_first_bounds(t, p);
        assert forall|j: int| 0 <= j < find_first(s, p) implies !p(#[trigger] s[j]) by {
            if j > 0 {
                assert(s[j] == t[j - 1]);
            }
        }
    }
}

/// Filtering a concatenation filters each part.
pub proof fn lemma_filter_split<A>(a: Seq<A>, b: Seq<A>, keep: spec_fn(A) -> bool)
    ensures
        (a + b).filter(keep) == a.filter(keep) + b.filter(keep),
    decreases b.len(),
{
    reveal(Seq::filter);
    if b.len() == 0 {
        assert(a + b =~= a);
        assert(a.filter(keep) + b.filter(keep) =~= a.filter(keep));
    } else {
        lemma_filter_split(a, b.drop_last(), keep);
        assert((a + b).drop_last() =~= a + b.drop_last());
        assert(a.filter(keep) + b.filter(keep) =~= (a + b).filter(keep));
    }
}

/// The characters of a string.
pub fn chars_of(s: &str) -> (r: Vec<char>)
    ensures
        r@ == s@,
{
    let mut out: Vec<char> = Vec::new();
    for c in it: s.chars()
        invariant
            it.seq() == s@,
            out@ == s@.take(it.index() as int),
    {
        out.push(c);
        assert(s@.take(it.index() + 1) =~= s@.take(it.index() as int).push(c));
    }
    assert(s@.take(s@.len() as int) =~= s@);
    out
}

/// The string made of the given characters.
pub fn string_of(s: &[char]) -> (r: String)
    ensures
        r@ == s@,
{
    let mut out: String = String::new();
    let mut i: usize = 0;
    while i < s.len()
        invariant
            i <= s@.len(),
            out@ == s@.take(i as int),
        decreases s@.len() - i,
    {
        out.push(s[i]);
        assert(s@.take(i + 1) =~= s@.take(i as int).push(s@[i as int]));
        i = i + 1;
    }
    assert(s@.take(s@.len() as int) =~= s@);
    out
}

/// Whether `c` is white space.
pub fn white_space(c: char) -> (b: bool)
    ensures
        b == is_white_space(c),
{
    let v: u32 = c as u32;
    (0x9 <= v && v <= 0xd) || v == 0x20 || v == 0x85 || v == 0xa0 || v == 0x1680 || (0x2000 <= v
        && v <= 0x200a) || v == 0x2028 || v == 0x2029 || v == 0x202f || v == 0x205f || v == 0x3000
}

/// Whether `c` is one of the characters of `set`.
pub fn in_set(c: char, set: &[char]) -> (b: bool)
    ensures
        b == set@.contains(c),
{
    let mut i: usize = 0;
    while i < set.len()
        invariant
            i <= set@.len(),
            forall|j: int| 0 <= j < i ==> set@[j] != c,
        decreases set@.len() - i,
    {
        if set[i] == c {
            assert(set@[i as int] == c);
            return true;
        }
        i = i + 1;
    }
    false
}

/// The characters by which text is cut or trimmed: white space, those of a
/// set, or both.
pub struct Cut<'a> {
    pub white: bool,
    pub set: &'a [char],
}

impl<'a> Cut<'a> {
    pub open spec fn pred(&self) -> spec_fn(char) -> bool {
        if self.white && self.set@.len() == 0 {
            white()
        } else if !self.white {
            one_of(self.set@)
        } else {
            |c: char| is_white_space(c) || self.set@.contains(c)
        }
    }

    pub fn hits(&self, c: char) -> (b: bool)
        ensures
            b == (self.pred())(c),
    {
        (self.white && white_space(c)) || in_set(c, self.set)
    }
}

/// The cut at white space.
pub fn at_white() -> (r: Cut<'static>)
    ensures
        r.pred() == white(),
{
    Cut { white: true, set: &[] }
}

/// The cut at the characters of a set.
pub fn at_any<'a>(set: &'a [char]) -> (r: Cut<'a>)
    ensures
        r.pred() == one_of(set@),
{
    Cut { white: false, set }
}

/// Index of the first character at which `cut` falls, or the length.
pub fn find_cut(s: &[char], cut: &Cut) -> (k: usize)
    ensures
        k == find_first(s@, cut.pred()),
        k <= s@.len(),
{
    let mut i: usize = 0;
    while i < s.len()
        invariant_except_break
            i <= s@.len(),
            forall|j: int| 0 <= j < i ==> !(cut.pred())(#[trigger] s@[j]),
        ensures
            i <= s@.len(),
            forall|j: int| 0 <= j < i ==> !(cut.pred())(#[trigger] s@[j]),
            i < s@.len() ==> (cut.pred())(s@[i as int]),
        decreases s@.len() - i,
    {
        if cut.hits(s[i]) {
            break;
        }
        i = i + 1;
    }
    proof {
        lemma_find_first(s@, cut.pred(), i as int);
    }
    i
}

/// Index of the first `c`, or the length.
pub fn find_char(s: &[char], c: char) -> (k: usize)
    ensures
        k == find_first(s@, is_char(c)),
        k <= s@.len(),
        k < s@.len() ==> s@[k as int] == c,
        forall|j: int| 0 <= j < k ==> s@[j] != c,
{
    let mut i: usize = 0;
    while i < s.len()
        invariant_except_break
            i <= s@.len(),
            forall|j: int| 0 <= j < i ==> s@[j] != c,
        ensures
            i <= s@.len(),
            forall|j: int| 0 <= j < i ==> s@[j] != c,
            i < s@.len() ==> s@[i as int] == c,
        decreases s@.len() - i,
    {
        if s[i] == c {
            break;
        }
        i = i + 1;
    }
    proof {
        lemma_find_first(s@, is_char(c), i as int);
    }
    i
}

/// `s` without leading and trailing characters at which `cut` falls.
pub fn strip_cut<'a>(s: &'a [char], cut: &Cut) -> (r: &'a [char])
    ensures
        r@ == strip(s@, cut.pred()),
{
    let n: usize = s.len();
    let mut i: usize = 0;
    assert(s@.skip(0) =~= s@);
    while i < n && cut.hits(s[i])
        invariant
            n == s@.len(),
            i <= n,
            skip_front(s@.skip(i as int), cut.pred()) == skip_front(s@, cut.pred()),
        decreases n - i,
    {
        assert(s@.skip(i as int).skip(1) =~= s@.skip(i + 1));
        i = i + 1;
    }
    let ghost front = s@.skip(i as int);
    assert(skip_front(s@, cut.pred()) == front);
    let mut j: usize = n;
    assert(s@.subrange(i as int, n as int) =~= front);
    while i < j && cut.hits(s[j - 1])
        invariant
            n == s@.len(),
            i <= j <= n,
            skip_back(s@.subrange(i as int, j as int), cut.pred()) == skip_back(front, cut.pred()),
        decreases j,
    {
        assert(s@.subrange(i as int, j as int).drop_last() =~= s@.subrange(i as int, j - 1));
        j = j - 1;
    }
    slice_subrange(s, i, j)
}

/// `s` without leading and trailing white space.
pub fn trim<'a>(s: &'a [char]) -> (r: &'a [char])
    ensures
        r@ == trimmed(s@),
{
    strip_cut(s, &at_white())
}

/// The non-empty pieces of `s` between the characters at which `cut` falls.
pub fn split_fields<'a>(s: &'a [char], cut: &Cut) -> (r: Vec<&'a [char]>)
    ensures
        slice_views(r@) == fields(s@, cut.pred()),
{
    let ghost keep = |t: Seq<char>| t.len() > 0;
    let ghost p = cut.pred();
    let mut out: Vec<&'a [char]> = Vec::new();
    let mut i: usize = 0;
    assert(s@.skip(0) =~= s@);
    assert(slice_views(out@) + pieces(s@, p).filter(keep) =~= fields(s@, p));
    loop
        invariant
            i <= s@.len(),
            keep == (|t: Seq<char>| t.len() > 0),
            p == cut.pred(),
            slice_views(out@) + pieces(s@.skip(i as int), p).filter(keep) == fields(s@, p),
        decreases s@.len() - i,
    {
        let rest: &'a [char] = slice_subrange(s, i, s.len());
        assert(rest@ =~= s@.skip(i as int));
        let k: usize = find_cut(rest, cut);
        let piece: &'a [char] = slice_subrange(rest, 0, k);
        assert(piece@ =~= rest@.take(k as int));
        let ghost before = out@;
        if k > 0 {
            out.push(piece);
        }
        assert(slice_views(out@) =~= slice_views(before) + seq![piece@].filter(keep)) by {
            reveal_with_fuel(Seq::filter, 2);
            assert(seq![piece@].drop_last() =~= Seq::<Seq<char>>::empty());
        }
        if k >= rest.len() {
            proof {
                assert(rest@.take(k as int) =~= rest@);
                assert(pieces(rest@, p) =~= seq![rest@]);
            }
            return out;
        }
        proof {
            assert(rest@.skip(k + 1) =~= s@.skip(i + k + 1));
            lemma_filter_split(seq![piece@], pieces(rest@.skip(k + 1), p), keep);
            assert((slice_views(before) + seq![piece@].filter(keep)) + pieces(
                rest@.skip(k + 1),
                p,
            ).filter(keep) =~= slice_views(before) + (seq![piece@].filter(keep) + pieces(
                rest@.skip(k + 1),
                p,
            ).filter(keep)));
        }
        i = i + k + 1;
    }
}

/// The words of `s`.
pub fn split_words<'a>(s: &'a [char]) -> (r: Vec<&'a [char]>)
    ensures
        slice_views(r@) == words(s@),
{
    split_fields(s, &at_white())
}

/// The lines of `s`.
pub fn split_lines<'a>(s: &'a [char]) -> (r: Vec<&'a [char]>)
    ensures
        slice_views(r@) == lines(s@),
{
    let mut out: Vec<&'a [char]> = Vec::new();
    let mut i: usize = 0;
    assert(s@.skip(0) =~= s@);
    assert(slice_views(out@) + lines(s@) =~= lines(s@));
    while i < s.len()
        invariant
            i <= s@.len(),
            slice_views(out@) + lines(s@.skip(i as int)) == lines(s@),
        decreases s@.len() - i,
    {
        let rest: &'a [char] = slice_subrange(s, i, s.len());
        assert(rest@ =~= s@.skip(i as int));
        let k: usize = find_char(rest, '\n');
        let ghost before = out@;
        if k >= rest.len() {
            out.push(rest);
            proof {
                assert(slice_views(out@) =~= slice_views(before) + seq![rest@]);
            }
            return out;
        }
        let end: usize = if k > 0 && rest[k - 1] == '\r' {
            k - 1
        } else {
            k
        };
        let line: &'a [char] = slice_subrange(rest, 0, end);
        out.push(line);
        proof {
            assert(line@ =~= without_cr(rest@.take(k as int)));
            assert(slice_views(out@) =~= slice_views(before) + seq![line@]);
            assert(rest@.skip(k + 1) =~= s@.skip(i + k + 1));
            assert((slice_views(before) + seq![line@]) + lines(rest@.skip(k + 1))
                =~= slice_views(before) + (seq![line@] + lines(rest@.skip(k + 1))));
        }
        i = i + k + 1;
    }
    assert(slice_views(out@) + lines(s@.skip(i as int)) =~= slice_views(out@));
    out
}

/// What precedes and what follows the first `c` of `s`.
pub open spec fn halves(s: Seq<char>, c: char) -> Option<(Seq<char>, Seq<char>)> {
    let k = find_first(s, is_char(c)) as int;
    if k < s.len() {
        Some((s.take(k), s.skip(k + 1)))
    } else {
        None
    }
}

/// What precedes and what follows the first `c` of `s`.
pub fn split_once<'a>(s: &'a [char], c: char) -> (r: Option<(&'a [char], &'a [char])>)
    ensures
        match r {
            Some((a, b)) => halves(s@, c) == Some((a@, b@)),
            None => halves(s@, c) is None,
        },
{
    let k: usize = find_char(s, c);
    if k < s.len() {
        let a: &'a [char] = slice_subrange(s, 0, k);
        let b: &'a [char] = slice_subrange(s, k + 1, s.len());
        assert(a@ =~= s@.take(k as int));
        assert(b@ =~= s@.skip(k + 1));
        Some((a, b))
    } else {
        None
    }
}

/// Whether the two slices hold the same characters.
pub fn same(a: &[char], b: &[char]) -> (r: bool)
    ensures
        r == (a@ == b@),
{
    if a.len() != b.len() {
        return false;
    }
    let mut i: usize = 0;
    while i < a.len()
        invariant
            a@.len() == b@.len(),
            i <= a@.len(),
            forall|j: int| 0 <= j < i ==> a@[j] == b@[j],
        decreases a@.len() - i,
    {
        if a[i] != b[i] {
            return false;
        }
        i = i + 1;
    }
    assert(a@ =~= b@);
    true
}

/// Whether the two strings hold the same characters.
pub fn same_str(a: &str, b: &str) -> (r: bool)
    ensures
        r == (a@ == b@),
{
    same(chars_of(a).as_slice(), chars_of(b).as_slice())
}

/// Whether `t` occurs in `s` at index `i`.
pub fn found_at(s: &[char], t: &[char], i: usize) -> (r: bool)
    requires
        i <= s@.len(),
    ensures
        r == occurs_at(s@, t@, i as int),
{
    if s.len() - i < t.len() {
        return false;
    }
    same(slice_subrange(s, i, i + t.len()), t)
}

/// Whether `s` begins with `t`.
pub fn starts_with(s: &[char], t: &[char]) -> (r: bool)
    ensures
        r == begins(s@, t@),
{
    found_at(s, t, 0)
}

/// Whether the string `s` begins with the string `t`.
pub fn str_starts_with(s: &str, t: &str) -> (r: bool)
    ensures
        r == begins(s@, t@),
{
    starts_with(chars_of(s).as_slice(), chars_of(t).as_slice())
}

/// Whether `s` ends with `t`.
pub fn ends_with(s: &[char], t: &[char]) -> (r: bool)
    ensures
        r == ends(s@, t@),
{
    if s.len() < t.len() {
        return false;
    }
    found_at(s, t, s.len() - t.len())
}

/// Whether `t` occurs in `s`.
pub fn contains(s: &[char], t: &[char]) -> (r: bool)
    ensures
        r == occurs(s@, t@),
{
    let mut i: usize = 0;
    while i < s.len()
        invariant
            i <= s@.len(),
            forall|j: int| 0 <= j < i ==> !occurs_at(s@, t@, j),
        decreases s@.len() - i,
    {
        if found_at(s, t, i) {
            return true;
        }
        i = i + 1;
    }
    found_at(s, t, i)
}

/// Whether `c` occurs in `s`.
pub fn has_char(s: &[char], c: char) -> (r: bool)
    ensures
        r == s@.contains(c),
{
    find_char(s, c) < s.len()
}

/// The ASCII lower-case form of a character.
pub fn lower_char(c: char) -> (r: char)
    ensures
        r == lower(c),
{
    if 'A' <= c && c <= 'Z' {
        let v: u8 = c as u8;
        (v + 32) as char
    } else {
        c
    }
}

/// `s` with its ASCII letters in lower case.
pub fn to_lower(s: &[char]) -> (r: Vec<char>)
    ensures
        r@ == lowered(s@),
{
    let mut out: Vec<char> = Vec::new();
    let mut i: usize = 0;
    while i < s.len()
        invariant
            i <= s@.len(),
            out@ =~= lowered(s@.take(i as int)),
        decreases s@.len() - i,
    {
        out.push(lower_char(s[i]));
        i = i + 1;
    }
    assert(s@.take(s@.len() as int) =~= s@);
    out
}

/// Whether the two differ at most in the case of ASCII letters.
pub fn same_ignoring_case(a: &[char], b: &[char]) -> (r: bool)
    ensures
        r == (lowered(a@) == lowered(b@)),
{
    same(to_lower(a).as_slice(), to_lower(b).as_slice())
}

/// The order of text by the code points of its characters, which is also the
/// order of its UTF-8 bytes.
pub open spec fn text_lt(a: Seq<char>, b: Seq<char>) -> bool
    decreases a.len(),
{
    if b.len() == 0 {
        false
    } else if a.len() == 0 {
        true
    } else if a[0] != b[0] {
        (a[0] as u32) < (b[0] as u32)
    } else {
        text_lt(a.skip(1), b.skip(1))
    }
}

/// Of two texts one precedes the other, or they are equal.
pub proof fn lemma_text_lt_total(a: Seq<char>, b: Seq<char>)
    ensures
        a == b ==> !text_lt(a, b),
        a != b ==> text_lt(a, b) != text_lt(b, a),
    decreases a.len(),
{
    if a.len() > 0 && b.len() > 0 {
        lemma_text_lt_total(a.skip(1), b.skip(1));
        if a[0] == b[0] {
            if a.skip(1) == b.skip(1) {
                assert(a =~= seq![a[0]] + a.skip(1));
                assert(b =~= seq![b[0]] + b.skip(1));
            }
        } else {
            vstd::utf8::char_u32_cast(a[0], a[0] as u32);
            vstd::utf8::char_u32_cast(b[0], b[0] as u32);
        }
    } else if a.len() == 0 && b.len() == 0 {
        assert(a =~= b);
    }
}

pub proof fn lemma_text_lt_transitive(a: Seq<char>, b: Seq<char>, c: Seq<char>)
    requires
        text_lt(a, b),
        text_lt(b, c),
    ensures
        text_lt(a, c),
    decreases a.len(),
{
    if a.len() > 0 && a[0] == b[0] && b[0] == c[0] {
        lemma_text_lt_transitive(a.skip(1), b.skip(1), c.skip(1));
    }
}

/// Whether `a` precedes `b` in the order of text.
pub fn precedes(a: &[char], b: &[char]) -> (r: bool)
    ensures
        r == text_lt(a@, b@),
{
    let mut i: usize = 0;
    assert(a@.skip(0) =~= a@);
    assert(b@.skip(0) =~= b@);
    while i < a.len() && i < b.len()
        invariant
            i <= a@.len(),
            i <= b@.len(),
            text_lt(a@.skip(i as int), b@.skip(i as int)) == text_lt(a@, b@),
        decreases a@.len() - i,
    {
        assert(a@.skip(i as int).skip(1) =~= a@.skip(i + 1));
        assert(b@.skip(i as int).skip(1) =~= b@.skip(i + 1));
        if a[i] != b[i] {
            return (a[i] as u32) < (b[i] as u32);
        }
        i = i + 1;
    }
    i < b.len()
}

/// Whether the string `a` precedes the string `b` in the order of text.
pub fn str_precedes(a: &str, b: &str) -> (r: bool)
    ensures
        r == text_lt(a@, b@),
{
    precedes(chars_of(a).as_slice(), chars_of(b).as_slice())
}

/// The first piece of `s` between the characters that satisfy `p`.
pub open spec fn up_to(s: Seq<char>, p: spec_fn(char) -> bool) -> Seq<char> {
    s.take(find_first(s, p) as int)
}

/// What precedes the first `c` of `s`; all of it where there is none.
pub fn before_char<'a>(s: &'a [char], c: char) -> (r: &'a [char])
    ensures
        r@ == up_to(s@, is_char(c)),
{
    let k: usize = find_char(s, c);
    let r: &'a [char] = slice_subrange(s, 0, k);
    assert(r@ =~= s@.take(k as int));
    r
}

/// What precedes the first character at which `cut` falls.
pub fn before_cut<'a>(s: &'a [char], cut: &Cut) -> (r: &'a [char])
    ensures
        r@ == up_to(s@, cut.pred()),
{
    let k: usize = find_cut(s, cut);
    let r: &'a [char] = slice_subrange(s, 0, k);
    assert(r@ =~= s@.take(k as int));
    r
}

/// The first index at which `t` occurs in `s`, from `i` on; none where it does
/// not.
pub open spec fn first_at(s: Seq<char>, t: Seq<char>, i: int) -> Option<int>
    decreases s.len() + 1 - i,
{
    if i > s.len() {
        None
    } else if occurs_at(s, t, i) {
        Some(i)
    } else {
        first_at(s, t, i + 1)
    }
}

/// The first index at which `t` occurs in `s`.
pub fn find_text(s: &[char], t: &[char]) -> (r: Option<usize>)
    ensures
        match r {
            Some(i) => first_at(s@, t@, 0) == Some(i as int) && i + t@.len() <= s@.len(),
            None => first_at(s@, t@, 0) is None,
        },
{
    let mut i: usize = 0;
    loop
        invariant
            i <= s@.len(),
            first_at(s@, t@, i as int) == first_at(s@, t@, 0),
        decreases s@.len() - i,
    {
        if found_at(s, t, i) {
            return Some(i);
        }
        if i >= s.len() {
            assert(first_at(s@, t@, i + 1) is None);
            return None;
        }
        i = i + 1;
    }
}

/// Equal texts have equal bytes, and only they.
pub proof fn lemma_encode_injective(a: Seq<char>, b: Seq<char>)
    ensures
        encode_utf8(a) == encode_utf8(b) <==> a == b,
{
    vstd::utf8::encode_utf8_decode_utf8(a);
    vstd::utf8::encode_utf8_decode_utf8(b);
}

/// Whether the two slices hold the same bytes.
pub fn same_bytes(a: &[u8], b: &[u8]) -> (r: bool)
    ensures
        r == (a@ == b@),
{
    if a.len() != b.len() {
        return false;
    }
    let mut i: usize = 0;
    while i < a.len()
        invariant
            a@.len() == b@.len(),
            i <= a@.len(),
            forall|j: int| 0 <= j < i ==> a@[j] == b@[j],
        decreases a@.len() - i,
    {
        if a[i] != b[i] {
            return false;
        }
        i = i + 1;
    }
    assert(a@ =~= b@);
    true
}

/// The path `rest` in the directory `dir`: `rest` itself where it is absolute.
pub open spec fn joined(dir: Seq<char>, rest: Seq<char>) -> Seq<char> {
    if rest.len() > 0 && rest[0] == '/' {
        rest
    } else if dir.len() == 0 || dir.last() == '/' {
        dir + rest
    } else {
        dir + seq!['/'] + rest
    }
}

/// The path `rest` in the directory `dir`.
pub fn join_path(dir: &str, rest: &str) -> (r: String)
    ensures
        r@ == joined(dir@, rest@),
{
    let d: Vec<char> = chars_of(dir);
    let t: Vec<char> = chars_of(rest);
    if t.len() > 0 && t[0] == '/' {
        return rest.to_owned();
    }
    let mut out: String = dir.to_owned();
    if d.len() > 0 && d[d.len() - 1] != '/' {
        out.push('/');
        assert(out@ =~= dir@ + seq!['/']);
    }
    out.append(rest);
    out
}

} // verus!
