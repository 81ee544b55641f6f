//! The editing state of the composer: the command line being typed, and the
//! list of candidates for the token at the cursor.
//!
//! The state asks for completions and takes the answers, but queries nobody
//! itself: `trigger_query` hands out the question, `poll_results` takes what
//! has been answered.

use crate::completion::{GenerationId, QueryCtx, Suggestion};
use crate::composer::fuzzy::{fuzzy_filter, ranked};
use crate::composer::prompt_track::{
    bytes as byte_items, items, law_mark_is_seen, maximal, prefix, scan, Item, Osc133Event,
    Osc133Scanner, Segment,
};
use crate::composer::tokenizer::{
    all_represent, covered, current, holds, is_blank, law_blanks_between, lexemes, represents,
    tokenize, Lexeme, Token, Tokenized, TokenKind,
};
use crate::text::{chars_of, lemma_width_push, lemma_width_take, string_of, utf8_len, views, width};
use vstd::prelude::*;
use vstd::slice::slice_subrange;

verus! {

/// A key that the composer may take.
#[derive(Debug, Clone, Copy, PartialEq, Eq)]
pub enum ComposerInput {
    Char(char),
    Backspace,
    Delete,
    LeftArrow,
    RightArrow,
    Home,
    End,
    Tab,
    BackTab,
    Enter,
    Escape,
}

/// What became of a key: taken, not the composer's, or a finished line.
#[derive(Debug, Clone, PartialEq, Eq)]
pub enum ComposerOutcome {
    Consumed,
    Passthrough,
    Submit(String),
}

/// The composer.
pub struct ComposerState {
    scanner: Osc133Scanner,
    line: Line,
}

/// The command line being typed and its candidates. The cursor stands in front
/// of the character `at` of the buffer; `cursor` is its byte offset.
struct Line {
    active: bool,
    in_prompt: bool,
    ime_preedit_active: bool,
    terminal_in_alt_screen: bool,
    buffer: String,
    at: usize,
    cursor: usize,
    pending_gen: GenerationId,
    raw_candidates: Vec<Suggestion>,
    candidates: Vec<Suggestion>,
    selected: Option<usize>,
    pending_provider_results: usize,
    debounce_requested: bool,
}

/// The composer's state as plain values; `at` counts characters.
pub ghost struct Composer {
    pub active: bool,
    pub in_prompt: bool,
    pub ime: bool,
    pub alt_screen: bool,
    pub text: Seq<char>,
    pub at: int,
    pub generation: u64,
    pub raw: Seq<Suggestion>,
    pub candidates: Seq<Suggestion>,
    pub selected: Option<int>,
    pub awaited: int,
    pub debounce: bool,
}

/// What became of a key, as plain values.
pub ghost enum Outcome {
    Consumed,
    Passthrough,
    Submit(Seq<char>),
}

impl View for ComposerOutcome {
    type V = Outcome;

    open spec fn view(&self) -> Outcome {
        match self {
            ComposerOutcome::Consumed => Outcome::Consumed,
            ComposerOutcome::Passthrough => Outcome::Passthrough,
            ComposerOutcome::Submit(line) => Outcome::Submit(line@),
        }
    }
}

/// The lexeme that a cursor in front of character `at` belongs to: the one it
/// stands in, or the last where it stands at the end right behind it.
pub open spec fn current_lexeme(s: Seq<char>, at: int) -> Option<int> {
    let ls = lexemes(s, 0);
    if covered(ls, at) {
        Some(choose|k: int| 0 <= k < ls.len() && (#[trigger] ls[k]).from <= at < ls[k].to)
    } else if at == s.len() && s.len() > 0 && !is_blank(s.last()) && ls.len() > 0 && ls.last().to
        == at {
        Some(ls.len() - 1)
    } else {
        None
    }
}

/// Whether a token is a word, closed or not.
pub open spec fn is_word(kind: TokenKind) -> bool {
    kind is Word || kind is Unterminated
}

/// Whether a new command begins behind a token of this kind.
pub open spec fn is_break(kind: TokenKind) -> bool {
    kind is Pipe || kind is Sequence
}

/// The number of tokens in front of the command that the cursor is in: those
/// up to the last pipe or sequence operator among the first `n` tokens that
/// begins no later than the cursor.
pub open spec fn command_start(ls: Seq<Lexeme>, at: int, n: int) -> int
    decreases n,
{
    if n <= 0 {
        0
    } else if ls[n - 1].from <= at && is_break(ls[n - 1].kind) {
        n
    } else {
        command_start(ls, at, n - 1)
    }
}

/// The text of the first word from token `k` on.
pub open spec fn first_word(ls: Seq<Lexeme>, k: int) -> Seq<char>
    decreases ls.len() - k,
{
    if k >= ls.len() {
        seq![]
    } else if is_word(ls[k].kind) {
        ls[k].text
    } else {
        first_word(ls, k + 1)
    }
}

/// The texts of the words from token `k` on, without the current one; where
/// there is a current one, only of those that begin in front of the cursor.
pub open spec fn other_words(ls: Seq<Lexeme>, k: int, now: Option<int>, at: int) -> Seq<Seq<char>>
    decreases ls.len() - k,
{
    if k >= ls.len() {
        seq![]
    } else if is_word(ls[k].kind) && now != Some(k) && (ls[k].from < at || now is None) {
        seq![ls[k].text] + other_words(ls, k + 1, now, at)
    } else {
        other_words(ls, k + 1, now, at)
    }
}

/// A question to the providers, as plain values.
pub ghost struct Question {
    pub command: Seq<char>,
    pub token: Seq<char>,
    pub previous: Seq<Seq<char>>,
}

/// The text of the token at the cursor; empty where there is none.
pub open spec fn token_text(s: Seq<char>, at: int) -> Seq<char> {
    match current_lexeme(s, at) {
        Some(k) => lexemes(s, 0)[k].text,
        None => seq![],
    }
}

/// What the providers are asked for a line and a cursor: nothing where the
/// command is empty.
pub open spec fn question(s: Seq<char>, at: int) -> Option<Question> {
    let ls = lexemes(s, 0);
    let now = current_lexeme(s, at);
    let start = command_start(ls, at, ls.len() as int);
    let command = first_word(ls, start);
    if command.len() == 0 {
        None
    } else {
        Some(
            Question {
                command,
                token: match now {
                    Some(k) => if is_word(ls[k].kind) {
                        ls[k].text
                    } else {
                        seq![]
                    },
                    None => seq![],
                },
                previous: other_words(ls, start, now, at),
            },
        )
    }
}

/// Whether the list holds a suggestion with this text.
pub open spec fn offers(s: Seq<Suggestion>, text: Seq<char>) -> bool {
    exists|i: int| 0 <= i < s.len() && (#[trigger] s[i]).text@ == text
}

/// `s` followed by those of `more` whose texts were not there yet.
pub open spec fn merged(s: Seq<Suggestion>, more: Seq<Suggestion>) -> Seq<Suggestion>
    decreases more.len(),
{
    if more.len() == 0 {
        s
    } else {
        let first = merged(s, more.drop_last());
        if offers(first, more.last().text@) {
            first
        } else {
            first.push(more.last())
        }
    }
}

impl Composer {
    /// What every composer keeps: the cursor is in the line, and a candidate
    /// is selected exactly where there are any.
    pub open spec fn wf(self) -> bool {
        &&& 0 <= self.at <= self.text.len()
        &&& self.awaited >= 0
        &&& match self.selected {
            Some(i) => 0 <= i < self.candidates.len(),
            None => self.candidates.len() == 0,
        }
    }

    /// Whether keys go to the composer.
    pub open spec fn on(self) -> bool {
        self.active && self.in_prompt && !self.ime && !self.alt_screen
    }

    /// Without candidates.
    pub open spec fn cleared(self) -> Composer {
        Composer { raw: seq![], candidates: seq![], selected: None, ..self }
    }

    /// After an edit: the answers to earlier questions no longer count, and a
    /// new question is due.
    pub open spec fn touched(self) -> Composer {
        Composer {
            generation: ((self.generation + 1) % 0x1_0000_0000_0000_0000) as u64,
            awaited: 0,
            debounce: true,
            ..self.cleared()
        }
    }

    /// With another line and cursor.
    pub open spec fn edited(self, text: Seq<char>, at: int) -> Composer {
        Composer { text, at, ..self }
    }

    /// With the selected candidate in place of the token at the cursor, and
    /// the cursor behind it.
    pub open spec fn accepted(self) -> Composer {
        let r = self.candidates[self.selected->0].text@;
        match current_lexeme(self.text, self.at) {
            Some(k) => {
                let l = lexemes(self.text, 0)[k];
                self.edited(self.text.take(l.from) + r + self.text.skip(l.to), l.from + r.len())
            },
            None => self.edited(
                self.text.take(self.at) + r + self.text.skip(self.at),
                self.at + r.len(),
            ),
        }
    }

    /// With the selection moved by `step`, round the end.
    pub open spec fn moved(self, step: int) -> Composer {
        if self.candidates.len() == 0 {
            self
        } else {
            Composer {
                selected: Some((self.selected->0 + step) % (self.candidates.len() as int)),
                ..self
            }
        }
    }

    /// After a key that the composer takes.
    pub open spec fn after_key(self, input: ComposerInput) -> Composer {
        match input {
            ComposerInput::Char(c) => self.edited(
                self.text.insert(self.at, c),
                self.at + 1,
            ).touched(),
            ComposerInput::Backspace => if self.at > 0 {
                self.edited(self.text.remove(self.at - 1), self.at - 1).touched()
            } else {
                self
            },
            ComposerInput::Delete => if self.at < self.text.len() {
                self.edited(self.text.remove(self.at), self.at).touched()
            } else {
                self
            },
            ComposerInput::LeftArrow => if self.at > 0 {
                self.edited(self.text, self.at - 1).touched()
            } else {
                self
            },
            ComposerInput::RightArrow => if self.candidates.len() > 0 {
                self.accepted().touched()
            } else if self.at < self.text.len() {
                self.edited(self.text, self.at + 1).touched()
            } else {
                self
            },
            ComposerInput::Home => if self.at > 0 {
                self.edited(self.text, 0).touched()
            } else {
                self
            },
            ComposerInput::End => if self.at < self.text.len() {
                self.edited(self.text, self.text.len() as int).touched()
            } else {
                self
            },
            ComposerInput::Tab => self.moved(1),
            ComposerInput::BackTab => self.moved(self.candidates.len() - 1),
            ComposerInput::Enter => if self.candidates.len() > 0 {
                self.accepted().touched()
            } else {
                Composer { debounce: false, ..self.edited(seq![], 0).cleared() }
            },
            ComposerInput::Escape => Composer {
                active: false,
                debounce: false,
                ..self.edited(seq![], 0).cleared()
            },
        }
    }

    /// What becomes of a key that the composer takes: with enter the line is
    /// finished, unless a candidate is there to be accepted.
    pub open spec fn outcome(self, input: ComposerInput) -> Outcome {
        if input is Enter && self.candidates.len() == 0 {
            Outcome::Submit(self.text)
        } else {
            Outcome::Consumed
        }
    }

    /// After a mark in the terminal's output: a prompt begins an empty line; a
    /// command that starts or ends takes the composer away.
    pub open spec fn after_mark(self, e: Osc133Event) -> Composer {
        match e {
            Osc133Event::PromptStart => Composer {
                active: true,
                in_prompt: true,
                ..self.edited(seq![], 0).cleared()
            },
            Osc133Event::InputStart => self,
            _ => Composer { active: false, in_prompt: false, ..self.cleared() },
        }
    }

    /// After the marks among these items, in order.
    pub open spec fn after_items(self, items: Seq<Item>) -> Composer
        decreases items.len(),
    {
        if items.len() == 0 {
            self
        } else {
            let prev = self.after_items(items.drop_last());
            match items.last() {
                Item::Byte(b) => prev,
                Item::Mark(e) => prev.after_mark(e),
            }
        }
    }

    /// After the list has grown to `raw`: the candidates are those that match
    /// the token at the cursor, and the selection stays where it can.
    pub open spec fn offered(self, raw: Seq<Suggestion>) -> Composer {
        let query = token_text(self.text, self.at);
        let candidates = if query.len() == 0 {
            raw
        } else {
            ranked(raw, query)
        };
        let wanted = match self.selected {
            Some(i) => i,
            None => 0,
        };
        let selected = if candidates.len() == 0 {
            None
        } else if wanted < candidates.len() {
            Some(wanted)
        } else {
            Some(candidates.len() - 1)
        };
        Composer { raw, candidates, selected, ..self }
    }

    /// Whether an answer adds to the list.
    pub open spec fn grows(self, generation: u64, answer: Seq<Suggestion>) -> bool {
        generation == self.generation && merged(self.raw, answer).len() != self.raw.len()
    }

    /// After one answer: one to an earlier question is ignored.
    pub open spec fn answered(self, generation: u64, answer: Seq<Suggestion>) -> Composer {
        if generation != self.generation {
            self
        } else {
            let next = Composer {
                awaited: if self.awaited > 0 {
                    self.awaited - 1
                } else {
                    0
                },
                ..self
            };
            if self.grows(generation, answer) {
                next.offered(merged(self.raw, answer))
            } else {
                next
            }
        }
    }

    /// After the first `n` answers.
    pub open spec fn polled(self, answers: Seq<(GenerationId, Vec<Suggestion>)>, n: int) -> Composer
        decreases n,
    {
        if n <= 0 {
            self
        } else {
            self.polled(answers, n - 1).answered(answers[n - 1].0.0, answers[n - 1].1@)
        }
    }

    /// Whether one of the first `n` answers adds to the list.
    pub open spec fn grew(self, answers: Seq<(GenerationId, Vec<Suggestion>)>, n: int) -> bool
        decreases n,
    {
        n > 0 && (self.grew(answers, n - 1) || self.polled(answers, n - 1).grows(
            answers[n - 1].0.0,
            answers[n - 1].1@,
        ))
    }
}

/// The cursor's byte offset is that of character `at`.
spec fn placed(s: Seq<char>, at: int, cursor: int) -> bool {
    0 <= at <= s.len() && cursor == width(s.take(at))
}

/// Byte offsets are ordered as character positions are.
proof fn lemma_offsets(s: Seq<char>, a: int, b: int)
    requires
        0 <= a <= s.len(),
        0 <= b <= s.len(),
    ensures
        a <= b <==> width(s.take(a)) <= width(s.take(b)),
        a < b <==> width(s.take(a)) < width(s.take(b)),
        a == b <==> width(s.take(a)) == width(s.take(b)),
{
    if a <= b {
        lemma_width_take(s, a, b);
    } else {
        lemma_width_take(s, b, a);
    }
}

/// The token that a byte offset belongs to is the lexeme that the position
/// belongs to.
proof fn lemma_current(s: Seq<char>, tokens: Seq<Token>, at: int, cursor: usize)
    requires
        all_represent(tokens, lexemes(s, 0), s),
        placed(s, at, cursor as int),
    ensures
        current(s, tokens, cursor) == current_lexeme(s, at),
{
    let ls = lexemes(s, 0);
    law_blanks_between(s, 0);
    assert forall|k: int| 0 <= k < tokens.len() implies (holds(#[trigger] tokens[k], cursor)
        <==> ls[k].from <= at < ls[k].to) by {
        assert(represents(tokens[k], ls[k], s));
        lemma_offsets(s, ls[k].from, at);
        lemma_offsets(s, at, ls[k].to);
    }
    if covered(ls, at) {
        let k = choose|k: int| 0 <= k < ls.len() && (#[trigger] ls[k]).from <= at < ls[k].to;
        assert(holds(tokens[k], cursor));
        assert forall|j: int| 0 <= j < tokens.len() && holds(#[trigger] tokens[j], cursor) implies j
            == k by {
            assert(ls[j].from <= at < ls[j].to);
            if j < k {
                assert(ls[j].to <= ls[k].from);
            } else if k < j {
                assert(ls[k].to <= ls[j].from);
            }
        }
        assert forall|j: int| 0 <= j < k implies !holds(#[trigger] tokens[j], cursor) by {}
    } else {
        assert forall|k: int| 0 <= k < tokens.len() implies !holds(#[trigger] tokens[k], cursor) by {
            assert(!(ls[k].from <= at < ls[k].to));
        }
        assert(s.take(s.len() as int) =~= s);
        lemma_offsets(s, at, s.len() as int);
        if ls.len() > 0 {
            assert(represents(tokens.last(), ls.last(), s));
            lemma_offsets(s, ls.last().to, at);
        }
    }
}

/// The byte offset of character `at`.
fn offset_of(s: &[char], at: usize) -> (r: usize)
    requires
        at <= s@.len(),
        width(s@) <= usize::MAX,
    ensures
        r == width(s@.take(at as int)),
{
    let mut k: usize = 0;
    let mut r: usize = 0;
    assert(s@.take(0) =~= Seq::<char>::empty());
    while k < at
        invariant
            k <= at <= s@.len(),
            r == width(s@.take(k as int)),
            width(s@) <= usize::MAX,
        decreases at - k,
    {
        proof {
            lemma_width_push(s@.take(k as int), s@[k as int]);
            assert(s@.take(k as int).push(s@[k as int]) =~= s@.take(k + 1));
            lemma_width_take(s@, k + 1, k + 1);
        }
        r = r + utf8_len(s[k]);
        k = k + 1;
    }
    r
}

/// The character position of a token's byte offset.
fn position_of(s: &[char], offset: usize, Ghost(at): Ghost<int>) -> (r: usize)
    requires
        placed(s@, at, offset as int),
        width(s@) <= usize::MAX,
    ensures
        r == at,
{
    let mut k: usize = 0;
    let mut w: usize = 0;
    assert(s@.take(0) =~= Seq::<char>::empty());
    proof {
        lemma_offsets(s@, 0, at);
    }
    while w < offset
        invariant
            k <= at <= s@.len(),
            w == width(s@.take(k as int)),
            offset == width(s@.take(at)),
            width(s@) <= usize::MAX,
        decreases at - k,
    {
        proof {
            lemma_offsets(s@, k as int, at);
            lemma_width_push(s@.take(k as int), s@[k as int]);
            assert(s@.take(k as int).push(s@[k as int]) =~= s@.take(k + 1));
            lemma_width_take(s@, k + 1, k + 1);
        }
        w = w + utf8_len(s[k]);
        k = k + 1;
    }
    proof {
        lemma_offsets(s@, k as int, at);
    }
    k
}

/// Adds those suggestions of `more` whose texts are not in the list yet.
fn merge(list: &mut Vec<Suggestion>, more: &Vec<Suggestion>)
    ensures
        final(list)@ == merged(old(list)@, more@),
{
    let mut i: usize = 0;
    while i < more.len()
        invariant
            i <= more@.len(),
            list@ == merged(old(list)@, more@.take(i as int)),
        decreases more@.len() - i,
    {
        let ghost before = list@;
        let mut found: bool = false;
        let mut j: usize = 0;
        while j < list.len() && !found
            invariant
                i < more@.len(),
                list@ == before,
                j <= list@.len(),
                found <==> exists|k: int|
                    0 <= k < j && (#[trigger] list@[k]).text@ == more@[i as int].text@,
            decreases list@.len() - j,
        {
            found = list[j].text == more[i].text;
            j = j + 1;
        }
        proof {
            assert(more@.take(i + 1).drop_last() =~= more@.take(i as int));
            assert(found == offers(before, more@[i as int].text@));
        }
        if !found {
            list.push(more[i].clone());
        }
        i = i + 1;
    }
    assert(more@.take(more@.len() as int) =~= more@);
}

proof fn lemma_after_bytes(c: Composer, a: Seq<Item>, b: Seq<u8>)
    ensures
        c.after_items(a + byte_items(b)) == c.after_items(a),
    decreases b.len(),
{
    let all = a + byte_items(b);
    if b.len() == 0 {
        assert(all =~= a);
    } else {
        assert(all.drop_last() =~= a + byte_items(b.drop_last()));
        lemma_after_bytes(c, a, b.drop_last());
    }
}

proof fn lemma_after_mark(c: Composer, a: Seq<Item>, e: Osc133Event)
    ensures
        c.after_items(a + seq![Item::Mark(e)]) == c.after_items(a).after_mark(e),
{
    assert((a + seq![Item::Mark(e)]).drop_last() =~= a);
}

/// The token at the cursor as the state sees it.
proof fn lemma_tokenization(s: Seq<char>, t: Tokenized, at: int, cursor: usize)
    requires
        all_represent(t.tokens@, lexemes(s, 0), s),
        placed(s, at, cursor as int),
        match t.current_token_idx {
            Some(k) => k < t.tokens@.len() && current(s, t.tokens@, cursor) == Some(k as int),
            None => current(s, t.tokens@, cursor) is None,
        },
    ensures
        match t.current_token_idx {
            Some(k) => current_lexeme(s, at) == Some(k as int),
            None => current_lexeme(s, at) is None,
        },
        forall|k: int|
            0 <= k < t.tokens@.len() ==> {
                let l = lexemes(s, 0)[k];
                &&& 0 <= l.from < l.to <= s.len()
                &&& represents(#[trigger] t.tokens@[k], l, s)
                &&& (t.tokens@[k].start <= cursor <==> l.from <= at)
                &&& (t.tokens@[k].start < cursor <==> l.from < at)
            },
{
    lemma_current(s, t.tokens@, at, cursor);
    law_blanks_between(s, 0);
    assert forall|k: int| 0 <= k < t.tokens@.len() implies {
        let l = lexemes(s, 0)[k];
        &&& 0 <= l.from < l.to <= s.len()
        &&& represents(#[trigger] t.tokens@[k], l, s)
        &&& (t.tokens@[k].start <= cursor <==> l.from <= at)
        &&& (t.tokens@[k].start < cursor <==> l.from < at)
    } by {
        let l = lexemes(s, 0)[k];
        lemma_offsets(s, l.from, at);
    }
}

impl View for Line {
    type V = Composer;

    closed spec fn view(&self) -> Composer {
        Composer {
            active: self.active,
            in_prompt: self.in_prompt,
            ime: self.ime_preedit_active,
            alt_screen: self.terminal_in_alt_screen,
            text: self.buffer@,
            at: self.at as int,
            generation: self.pending_gen.0,
            raw: self.raw_candidates@,
            candidates: self.candidates@,
            selected: match self.selected {
                Some(i) => Some(i as int),
                None => None,
            },
            awaited: self.pending_provider_results as int,
            debounce: self.debounce_requested,
        }
    }
}

impl Line {
    spec fn inv(&self) -> bool {
        self@.wf() && placed(self.buffer@, self.at as int, self.cursor as int)
    }

    /// Puts another line and cursor in place.
    fn edit(&mut self, text: Vec<char>, at: usize)
        requires
            old(self)@.wf(),
            at <= text@.len(),
        ensures
            final(self).inv(),
            final(self)@ == old(self)@.edited(text@, at as int),
    {
        self.buffer = string_of(text.as_slice());
        let n: usize = self.buffer.as_str().as_bytes().len();
        assert(n == width(text@));
        self.at = at;
        self.cursor = offset_of(text.as_slice(), at);
    }

    fn clear_candidates(&mut self)
        requires
            old(self).inv(),
        ensures
            final(self).inv(),
            final(self)@ == old(self)@.cleared(),
    {
        self.raw_candidates.clear();
        self.candidates.clear();
        self.selected = None;
    }

    fn touch(&mut self)
        requires
            old(self).inv(),
        ensures
            final(self).inv(),
            final(self)@ == old(self)@.touched(),
    {
        self.pending_gen = GenerationId(self.pending_gen.0.wrapping_add(1));
        self.pending_provider_results = 0;
        self.clear_candidates();
        self.debounce_requested = true;
    }

    fn mark(&mut self, e: Osc133Event)
        requires
            old(self).inv(),
        ensures
            final(self).inv(),
            final(self)@ == old(self)@.after_mark(e),
    {
        match e {
            Osc133Event::PromptStart => {
                self.active = true;
                self.in_prompt = true;
                self.edit(Vec::new(), 0);
                self.clear_candidates();
            },
            Osc133Event::InputStart => {},
            Osc133Event::CommandStart | Osc133Event::CommandDone(_) => {
                self.active = false;
                self.in_prompt = false;
                self.clear_candidates();
            },
        }
    }

    /// Follows the marks among the segments.
    fn follow(&mut self, segments: &Vec<Segment>)
        requires
            old(self).inv(),
        ensures
            final(self).inv(),
            final(self)@ == old(self)@.after_items(items(segments@)),
    {
        let ghost all = segments@;
        let mut i: usize = 0;
        assert(all.take(0) =~= Seq::<Segment>::empty());
        while i < segments.len()
            invariant
                i <= segments@.len(),
                segments@ == all,
                self.inv(),
                self@ == old(self)@.after_items(items(all.take(i as int))),
            decreases segments@.len() - i,
        {
            proof {
                assert(all.take(i + 1).drop_last() =~= all.take(i as int));
                let done = items(all.take(i as int));
                match all[i as int] {
                    Segment::Bytes(b) => {
                        lemma_after_bytes(old(self)@, done, b@);
                    },
                    Segment::Marker(e) => {
                        lemma_after_mark(old(self)@, done, e);
                    },
                }
            }
            match segments[i] {
                Segment::Bytes(_) => {},
                Segment::Marker(e) => {
                    self.mark(e);
                },
            }
            i = i + 1;
        }
        assert(all.take(all.len() as int) =~= all);
    }

    fn on(&self) -> (b: bool)
        ensures
            b == self@.on(),
    {
        self.active && self.in_prompt && !self.ime_preedit_active && !self.terminal_in_alt_screen
    }

    /// The tokens of the line.
    fn tokenization(&self) -> (r: Tokenized)
        requires
            self.inv(),
        ensures
            all_represent(r.tokens@, lexemes(self@.text, 0), self@.text),
            match r.current_token_idx {
                Some(k) => k < r.tokens@.len() && current_lexeme(self@.text, self@.at) == Some(
                    k as int,
                ) && r.current_token_offset == self.cursor - r.tokens@[k as int].start,
                None => current_lexeme(self@.text, self@.at) is None && r.current_token_offset == 0,
            },
            forall|k: int|
                0 <= k < r.tokens@.len() ==> {
                    let l = lexemes(self@.text, 0)[k];
                    &&& 0 <= l.from < l.to <= self@.text.len()
                    &&& represents(#[trigger] r.tokens@[k], l, self@.text)
                    &&& (r.tokens@[k].start <= self.cursor <==> l.from <= self@.at)
                    &&& (r.tokens@[k].start < self.cursor <==> l.from < self@.at)
                },
    {
        let r: Tokenized = tokenize(self.buffer.as_str(), self.cursor);
        proof {
            lemma_tokenization(self.buffer@, r, self.at as int, self.cursor);
        }
        r
    }

    /// Replaces the token at the cursor by the selected candidate.
    fn accept_selected(&mut self)
        requires
            old(self).inv(),
            old(self)@.candidates.len() > 0,
        ensures
            final(self).inv(),
            final(self)@ == old(self)@.accepted(),
    {
        let idx: usize = match self.selected {
            Some(idx) => idx,
            None => {
                return;
            },
        };
        let replacement: Vec<char> = chars_of(self.candidates[idx].text.as_str());
        let chars: Vec<char> = chars_of(self.buffer.as_str());
        let n: usize = self.buffer.as_str().as_bytes().len();
        assert(n == width(chars@));
        let t: Tokenized = self.tokenization();
        let (from, to): (usize, usize) = match t.current_token_idx {
            Some(k) => {
                let ghost l = lexemes(chars@, 0)[k as int];
                let from: usize = position_of(chars.as_slice(), t.tokens[k].start, Ghost(l.from));
                let to: usize = position_of(chars.as_slice(), t.tokens[k].end, Ghost(l.to));
                (from, to)
            },
            None => (self.at, self.at),
        };
        let mut text: Vec<char> = Vec::new();
        text.extend_from_slice(slice_subrange(chars.as_slice(), 0, from));
        text.extend_from_slice(replacement.as_slice());
        let at: usize = text.len();
        text.extend_from_slice(slice_subrange(chars.as_slice(), to, chars.len()));
        assert(text@ =~= chars@.take(from as int) + replacement@ + chars@.skip(to as int));
        self.edit(text, at);
    }

    fn handle(&mut self, input: ComposerInput) -> (r: ComposerOutcome)
        requires
            old(self).inv(),
            old(self)@.on(),
        ensures
            final(self).inv(),
            final(self)@ == old(self)@.after_key(input),
            r@ == old(self)@.outcome(input),
    {
        let chars: Vec<char> = chars_of(self.buffer.as_str());
        let at: usize = self.at;
        let n: usize = chars.len();
        match input {
            ComposerInput::Char(c) => {
                let mut text: Vec<char> = chars;
                text.insert(at, c);
                let m: usize = text.len();
                assert(at < m);
                self.edit(text, at + 1);
                self.touch();
            },
            ComposerInput::Backspace => {
                if at > 0 {
                    let mut text: Vec<char> = chars;
                    let _ = text.remove(at - 1);
                    self.edit(text, at - 1);
                    self.touch();
                }
            },
            ComposerInput::Delete => {
                if at < n {
                    let mut text: Vec<char> = chars;
                    let _ = text.remove(at);
                    self.edit(text, at);
                    self.touch();
                }
            },
            ComposerInput::LeftArrow => {
                if at > 0 {
                    self.edit(chars, at - 1);
                    self.touch();
                }
            },
            ComposerInput::RightArrow => {
                if self.candidates.len() > 0 {
                    self.accept_selected();
                    self.touch();
                } else if at < n {
                    self.edit(chars, at + 1);
                    self.touch();
                }
            },
            ComposerInput::Home => {
                if at > 0 {
                    self.edit(chars, 0);
                    self.touch();
                }
            },
            ComposerInput::End => {
                if at < n {
                    self.edit(chars, n);
                    self.touch();
                }
            },
            ComposerInput::Tab => {
                self.select(1);
            },
            ComposerInput::BackTab => {
                if self.candidates.len() > 0 {
                    self.select(self.candidates.len() - 1);
                }
            },
            ComposerInput::Enter => {
                if self.candidates.len() > 0 {
                    self.accept_selected();
                    self.touch();
                    return ComposerOutcome::Consumed;
                }
                let submitted: String = self.buffer.clone();
                self.edit(Vec::new(), 0);
                self.clear_candidates();
                self.debounce_requested = false;
                return ComposerOutcome::Submit(submitted);
            },
            ComposerInput::Escape => {
                self.active = false;
                self.edit(Vec::new(), 0);
                self.clear_candidates();
                self.debounce_requested = false;
            },
        }
        ComposerOutcome::Consumed
    }

    /// Moves the selection, round the end.
    fn select(&mut self, step: usize)
        requires
            old(self).inv(),
            old(self)@.candidates.len() > 0 ==> step <= old(self)@.candidates.len(),
        ensures
            final(self).inv(),
            final(self)@ == old(self)@.moved(step as int),
    {
        if let Some(i) = self.selected {
            let n: usize = self.candidates.len();
            let left: usize = n - i;
            let next: usize = if step < left {
                i + step
            } else {
                step - left
            };
            proof {
                let sum = i + step;
                if step < left {
                    vstd::arithmetic::div_mod::lemma_small_mod(sum as nat, n as nat);
                } else {
                    vstd::arithmetic::div_mod::lemma_fundamental_div_mod_converse(
                        sum as int,
                        n as int,
                        1,
                        next as int,
                    );
                }
            }
            self.selected = Some(next);
        }
    }

    /// The text of the token at the cursor.
    fn query_text(&self) -> (r: String)
        requires
            self.inv(),
        ensures
            r@ == token_text(self@.text, self@.at),
    {
        let t: Tokenized = self.tokenization();
        match t.current_token_idx {
            Some(k) => t.tokens[k].text.clone(),
            None => String::new(),
        }
    }

    /// What the providers are to be asked.
    fn query_ctx(&self, working_dir: &str) -> (r: Option<QueryCtx>)
        requires
            self.inv(),
        ensures
            match r {
                Some(ctx) => question(self@.text, self@.at) == Some(ctx.question())
                    && ctx.working_dir@ == working_dir@,
                None => question(self@.text, self@.at) is None,
            },
    {
        let t: Tokenized = self.tokenization();
        let ghost ls = lexemes(self@.text, 0);
        let ghost now = current_lexeme(self@.text, self@.at);
        let n: usize = t.tokens.len();
        let mut start: usize = n;
        while start > 0 && !(t.tokens[start - 1].start <= self.cursor && breaks(
            t.tokens[start - 1].kind,
        ))
            invariant
                start <= n == t.tokens@.len() == ls.len(),
                ls == lexemes(self@.text, 0),
                forall|k: int|
                    0 <= k < t.tokens@.len() ==> {
                        &&& represents(#[trigger] t.tokens@[k], ls[k], self@.text)
                        &&& (t.tokens@[k].start <= self.cursor <==> ls[k].from <= self@.at)
                        &&& (t.tokens@[k].start < self.cursor <==> ls[k].from < self@.at)
                    },
                command_start(ls, self@.at, start as int) == command_start(ls, self@.at, n as int),
            decreases start,
        {
            assert(represents(t.tokens@[start - 1], ls[start - 1], self@.text));
            start = start - 1;
        }
        if start > 0 {
            assert(represents(t.tokens@[start - 1], ls[start - 1], self@.text));
        }
        let mut k: usize = start;
        while k < n && !words(t.tokens[k].kind)
            invariant
                start <= k <= n == t.tokens@.len() == ls.len(),
                forall|k: int|
                    0 <= k < t.tokens@.len() ==> represents(
                        #[trigger] t.tokens@[k],
                        ls[k],
                        self@.text,
                    ),
                first_word(ls, k as int) == first_word(ls, start as int),
            decreases n - k,
        {
            assert(represents(t.tokens@[k as int], ls[k as int], self@.text));
            k = k + 1;
        }
        if k >= n {
            return None;
        }
        assert(represents(t.tokens@[k as int], ls[k as int], self@.text));
        let command: String = t.tokens[k].text.clone();
        if command.as_str().is_empty() {
            return None;
        }
        let current_token: String = match t.current_token_idx {
            Some(k) => {
                assert(represents(t.tokens@[k as int], ls[k as int], self@.text));
                if words(t.tokens[k].kind) {
                    t.tokens[k].text.clone()
                } else {
                    String::new()
                }
            },
            None => String::new(),
        };
        let mut previous: Vec<String> = Vec::new();
        let mut j: usize = start;
        assert(views(previous@) + other_words(ls, start as int, now, self@.at) =~= other_words(
            ls,
            start as int,
            now,
            self@.at,
        ));
        while j < n
            invariant
                start <= j <= n == t.tokens@.len() == ls.len(),
                forall|k: int|
                    0 <= k < t.tokens@.len() ==> {
                        &&& represents(#[trigger] t.tokens@[k], ls[k], self@.text)
                        &&& (t.tokens@[k].start < self.cursor <==> ls[k].from < self@.at)
                    },
                match t.current_token_idx {
                    Some(k) => now == Some(k as int),
                    None => now is None,
                },
                views(previous@) + other_words(ls, j as int, now, self@.at) == other_words(
                    ls,
                    start as int,
                    now,
                    self@.at,
                ),
            decreases n - j,
        {
            assert(represents(t.tokens@[j as int], ls[j as int], self@.text));
            let (is_current, none): (bool, bool) = match t.current_token_idx {
                Some(k) => (k == j, false),
                None => (false, true),
            };
            let ghost before = previous@;
            if words(t.tokens[j].kind) && !is_current && (t.tokens[j].start < self.cursor || none) {
                previous.push(t.tokens[j].text.clone());
                proof {
                    let rest = other_words(ls, j + 1, now, self@.at);
                    assert(views(previous@) =~= views(before) + seq![ls[j as int].text]);
                    assert(views(before) + (seq![ls[j as int].text] + rest) =~= views(previous@)
                        + rest);
                }
            }
            j = j + 1;
        }
        assert(views(previous@) + other_words(ls, j as int, now, self@.at) =~= views(previous@));
        Some(
            QueryCtx {
                command,
                current_token,
                previous_tokens: previous,
                working_dir: working_dir.to_owned(),
            },
        )
    }

    /// Takes one answer. Tells whether the list has grown.
    fn answer(&mut self, gen_id: GenerationId, suggestions: &Vec<Suggestion>) -> (r: bool)
        requires
            old(self).inv(),
        ensures
            final(self).inv(),
            final(self)@ == old(self)@.answered(gen_id.0, suggestions@),
            r == old(self)@.grows(gen_id.0, suggestions@),
    {
        if gen_id.0 != self.pending_gen.0 {
            return false;
        }
        if self.pending_provider_results > 0 {
            self.pending_provider_results = self.pending_provider_results - 1;
        }
        let before: usize = self.raw_candidates.len();
        merge(&mut self.raw_candidates, suggestions);
        if self.raw_candidates.len() == before {
            proof {
                lemma_merged_prefix(old(self)@.raw, suggestions@);
                assert(self.raw_candidates@ =~= old(self)@.raw);
            }
            return false;
        }
        let query: String = self.query_text();
        let all: Vec<Suggestion> = self.raw_candidates.clone();
        assert(all@ =~= self.raw_candidates@);
        self.candidates = fuzzy_filter(all, query.as_str());
        let n: usize = self.candidates.len();
        let wanted: usize = match self.selected {
            Some(i) => i,
            None => 0,
        };
        self.selected = if n == 0 {
            None
        } else if wanted < n {
            Some(wanted)
        } else {
            Some(n - 1)
        };
        true
    }
}

/// Whether a token is a word, closed or not.
fn words(kind: TokenKind) -> (b: bool)
    ensures
        b == is_word(kind),
{
    match kind {
        TokenKind::Word | TokenKind::Unterminated => true,
        _ => false,
    }
}

/// Whether a new command begins behind a token of this kind.
fn breaks(kind: TokenKind) -> (b: bool)
    ensures
        b == is_break(kind),
{
    match kind {
        TokenKind::Pipe | TokenKind::Sequence => true,
        _ => false,
    }
}

/// Merging keeps what was there, in front.
proof fn lemma_merged_prefix(s: Seq<Suggestion>, more: Seq<Suggestion>)
    ensures
        s.len() <= merged(s, more).len() <= s.len() + more.len(),
        merged(s, more).take(s.len() as int) == s,
    decreases more.len(),
{
    if more.len() == 0 {
        assert(s.take(s.len() as int) =~= s);
    } else {
        lemma_merged_prefix(s, more.drop_last());
        let first = merged(s, more.drop_last());
        assert(first.push(more.last()).take(s.len() as int) =~= first.take(s.len() as int));
    }
}

impl QueryCtx {
    /// The question, as plain values.
    pub open spec fn question(&self) -> Question {
        Question {
            command: self.command@,
            token: self.current_token@,
            previous: views(self.previous_tokens@),
        }
    }
}

impl View for ComposerState {
    type V = Composer;

    closed spec fn view(&self) -> Composer {
        self.line@
    }
}

impl ComposerState {
    /// What every composer keeps.
    pub closed spec fn inv(&self) -> bool {
        self.line.inv()
    }

    /// The unfinished mark that the scanner keeps.
    pub closed spec fn held(&self) -> Seq<u8> {
        self.scanner.pending()
    }

    pub fn new() -> (r: Self)
        ensures
            r.inv(),
            r.held() == Seq::<u8>::empty(),
            r@ == (Composer {
                active: false,
                in_prompt: false,
                ime: false,
                alt_screen: false,
                text: seq![],
                at: 0,
                generation: 0,
                raw: seq![],
                candidates: seq![],
                selected: None,
                awaited: 0,
                debounce: false,
            }),
    {
        let line = Line {
            active: false,
            in_prompt: false,
            ime_preedit_active: false,
            terminal_in_alt_screen: false,
            buffer: String::new(),
            at: 0,
            cursor: 0,
            pending_gen: GenerationId(0),
            raw_candidates: Vec::new(),
            candidates: Vec::new(),
            selected: None,
            pending_provider_results: 0,
            debounce_requested: false,
        };
        assert(line.buffer@.take(0) =~= Seq::<char>::empty());
        ComposerState { scanner: Osc133Scanner::new(), line }
    }

    /// Takes the terminal's output and follows the marks in it. Hands on what
    /// the scanner does.
    pub fn feed_pty_output<'a>(&'a mut self, bytes: &'a [u8]) -> (r: Vec<Segment<'a>>)
        requires
            old(self).inv(),
        ensures
            final(self).inv(),
            items(r@) == scan(old(self).held() + bytes@).items,
            final(self).held() == scan(old(self).held() + bytes@).rest,
            maximal(r@),
            final(self)@ == old(self)@.after_items(items(r@)),
    {
        let segments: Vec<Segment<'a>> = self.scanner.feed(bytes);
        self.line.follow(&segments);
        segments
    }

    pub fn set_ime_preedit_active(&mut self, active: bool)
        requires
            old(self).inv(),
        ensures
            final(self).inv(),
            final(self).held() == old(self).held(),
            final(self)@ == (Composer { ime: active, ..old(self)@ }),
    {
        self.line.ime_preedit_active = active;
    }

    pub fn set_alt_screen(&mut self, in_alt: bool)
        requires
            old(self).inv(),
        ensures
            final(self).inv(),
            final(self).held() == old(self).held(),
            final(self)@ == (Composer { alt_screen: in_alt, ..old(self)@ }),
    {
        self.line.terminal_in_alt_screen = in_alt;
    }

    /// Whether keys go to the composer: at a prompt, unless an input method or
    /// a full-screen program has them.
    pub fn is_active(&self) -> (b: bool)
        ensures
            b == self@.on(),
    {
        self.line.on()
    }

    /// Takes a key. One that is not the composer's changes nothing.
    pub fn handle_input(&mut self, input: ComposerInput) -> (r: ComposerOutcome)
        requires
            old(self).inv(),
        ensures
            final(self).inv(),
            final(self).held() == old(self).held(),
            if old(self)@.on() {
                final(self)@ == old(self)@.after_key(input) && r@ == old(self)@.outcome(input)
            } else {
                final(self)@ == old(self)@ && r@ == Outcome::Passthrough
            },
    {
        if !self.line.on() {
            return ComposerOutcome::Passthrough;
        }
        self.line.handle(input)
    }

    /// The tokens of the line.
    pub fn current_tokenization(&self) -> (r: Tokenized)
        requires
            self.inv(),
        ensures
            all_represent(r.tokens@, lexemes(self@.text, 0), self@.text),
            match r.current_token_idx {
                Some(k) => k < r.tokens@.len() && current_lexeme(self@.text, self@.at) == Some(
                    k as int,
                ) && r.current_token_offset == width(self@.text.take(self@.at))
                    - r.tokens@[k as int].start,
                None => current_lexeme(self@.text, self@.at) is None && r.current_token_offset == 0,
            },
    {
        self.line.tokenization()
    }

    pub fn buffer(&self) -> (r: &str)
        ensures
            r@ == self@.text,
    {
        self.line.buffer.as_str()
    }

    /// The byte offset of the cursor.
    pub fn cursor(&self) -> (r: usize)
        requires
            self.inv(),
        ensures
            r == width(self@.text.take(self@.at)),
    {
        self.line.cursor
    }

    pub fn candidates(&self) -> (r: &[Suggestion])
        ensures
            r@ == self@.candidates,
    {
        self.line.candidates.as_slice()
    }

    pub fn selected(&self) -> (r: Option<usize>)
        ensures
            match r {
                Some(i) => self@.selected == Some(i as int),
                None => self@.selected is None,
            },
    {
        self.line.selected
    }

    /// The number of the question whose answers count. An edit moves it on;
    /// what was asked under the old number can then be cancelled.
    pub fn pending_gen(&self) -> (r: GenerationId)
        ensures
            r.0 == self@.generation,
    {
        self.line.pending_gen
    }

    pub fn popup_visible(&self) -> (b: bool)
        ensures
            b == (self@.on() && self@.candidates.len() > 0),
    {
        self.line.on() && self.line.candidates.len() > 0
    }

    /// Whether a new question is due since the last call.
    pub fn take_debounce_request(&mut self) -> (b: bool)
        requires
            old(self).inv(),
        ensures
            final(self).inv(),
            final(self).held() == old(self).held(),
            b == old(self)@.debounce,
            final(self)@ == (Composer { debounce: false, ..old(self)@ }),
    {
        let requested: bool = self.line.debounce_requested;
        self.line.debounce_requested = false;
        requested
    }

    pub fn has_pending_results(&self) -> (b: bool)
        ensures
            b == (self@.awaited > 0),
    {
        self.line.pending_provider_results > 0
    }

    /// Drops the candidates and hands out the question for the line, which
    /// `providers` providers are to answer under the number `pending_gen`.
    pub fn trigger_query(&mut self, providers: usize, working_dir: &str) -> (r: Option<QueryCtx>)
        requires
            old(self).inv(),
        ensures
            final(self).inv(),
            final(self).held() == old(self).held(),
            match r {
                Some(ctx) => old(self)@.on() && question(old(self)@.text, old(self)@.at) == Some(
                    ctx.question(),
                ) && ctx.working_dir@ == working_dir@ && final(self)@ == (Composer {
                    awaited: providers as int,
                    ..old(self)@.cleared()
                }),
                None => (!old(self)@.on() || question(old(self)@.text, old(self)@.at) is None)
                    && final(self)@ == old(self)@.cleared(),
            },
    {
        let ctx: Option<QueryCtx> = if self.line.on() {
            self.line.query_ctx(working_dir)
        } else {
            None
        };
        self.line.clear_candidates();
        if ctx.is_some() {
            self.line.pending_provider_results = providers;
        }
        ctx
    }

    /// Takes the answers that have come, in order. Tells whether the list of
    /// candidates has changed.
    pub fn poll_results(&mut self, results: Vec<(GenerationId, Vec<Suggestion>)>) -> (changed: bool)
        requires
            old(self).inv(),
        ensures
            final(self).inv(),
            final(self).held() == old(self).held(),
            final(self)@ == old(self)@.polled(results@, results@.len() as int),
            changed == old(self)@.grew(results@, results@.len() as int),
    {
        let mut changed: bool = false;
        let mut i: usize = 0;
        while i < results.len()
            invariant
                i <= results@.len(),
                self.inv(),
                self.held() == old(self).held(),
                self@ == old(self)@.polled(results@, i as int),
                changed == old(self)@.grew(results@, i as int),
            decreases results@.len() - i,
        {
            let grown: bool = self.line.answer(results[i].0, &results[i].1);
            changed = changed || grown;
            i = i + 1;
        }
        changed
    }
}

/// A typed character and a backspace leave the line and the cursor as they
/// were.
pub proof fn law_backspace_undoes_char(c: Composer, x: char)
    requires
        c.wf(),
    ensures
        ({
            let d = c.after_key(ComposerInput::Char(x)).after_key(ComposerInput::Backspace);
            d.text == c.text && d.at == c.at
        }),
{
    assert(c.text.insert(c.at, x).remove(c.at) =~= c.text);
}

/// Every key leaves a valid state.
pub proof fn law_keys_keep_state_valid(c: Composer, input: ComposerInput)
    requires
        c.wf(),
    ensures
        c.after_key(input).wf(),
{
    let n = c.candidates.len() as int;
    match input {
        ComposerInput::RightArrow | ComposerInput::Enter => {
            if n > 0 {
                lemma_accepted_in_line(c);
            }
        },
        ComposerInput::Tab => {
            if n > 0 {
                vstd::arithmetic::div_mod::lemma_mod_bound(c.selected->0 + 1, n);
            }
        },
        ComposerInput::BackTab => {
            if n > 0 {
                vstd::arithmetic::div_mod::lemma_mod_bound(c.selected->0 + n - 1, n);
            }
        },
        _ => {},
    }
}

proof fn lemma_accepted_in_line(c: Composer)
    requires
        c.wf(),
        c.candidates.len() > 0,
    ensures
        0 <= c.accepted().at <= c.accepted().text.len(),
{
    let ls = lexemes(c.text, 0);
    match current_lexeme(c.text, c.at) {
        Some(k) => {
            law_blanks_between(c.text, 0);
            assert(0 <= k < ls.len());
            assert(0 <= ls[k].from < ls[k].to <= c.text.len());
        },
        None => {},
    }
}

/// Back-tab undoes tab.
pub proof fn law_backtab_undoes_tab(c: Composer)
    requires
        c.wf(),
    ensures
        c.after_key(ComposerInput::Tab).after_key(ComposerInput::BackTab) == c,
{
    if c.candidates.len() > 0 {
        let n = c.candidates.len() as int;
        let i = c.selected->0;
        if i + 1 < n {
            vstd::arithmetic::div_mod::lemma_small_mod((i + 1) as nat, n as nat);
            vstd::arithmetic::div_mod::lemma_fundamental_div_mod_converse(i + 1 + n - 1, n, 1, i);
        } else {
            vstd::arithmetic::div_mod::lemma_fundamental_div_mod_converse(i + 1, n, 1, 0);
            vstd::arithmetic::div_mod::lemma_small_mod((n - 1) as nat, n as nat);
        }
    }
}

/// Once the line has been edited, an answer to the question before is ignored.
pub proof fn law_edit_outdates_answers(c: Composer, answer: Seq<Suggestion>)
    ensures
        c.touched().answered(c.generation, answer) == c.touched(),
{
}

/// The merged list offers no text twice if it did not before.
pub proof fn law_merged_distinct(s: Seq<Suggestion>, more: Seq<Suggestion>)
    requires
        forall|i: int, j: int| 0 <= i < j < s.len() ==> (#[trigger] s[i]).text@ != (#[trigger] s[j]).text@,
    ensures
        forall|i: int, j: int|
            0 <= i < j < merged(s, more).len() ==> (#[trigger] merged(s, more)[i]).text@ != (
            #[trigger] merged(s, more)[j]).text@,
    decreases more.len(),
{
    if more.len() > 0 {
        law_merged_distinct(s, more.drop_last());
        let first = merged(s, more.drop_last());
        if !offers(first, more.last().text@) {
            let all = first.push(more.last());
            assert forall|i: int, j: int| 0 <= i < j < all.len() implies (#[trigger] all[i]).text@
                != (#[trigger] all[j]).text@ by {
                if j == first.len() {
                    assert(all[i] == first[i]);
                }
            }
        }
    }
}

/// What may happen to a composer: what its methods are told.
pub ghost enum Happening {
    /// A key.
    Key(ComposerInput),
    /// An input method begins or ends to compose.
    Ime(bool),
    /// A full-screen program begins or ends.
    AltScreen(bool),
    /// Output of the terminal, scanned.
    Output(Seq<Item>),
    /// Somebody asks whether a question is due.
    Debounce,
    /// The question is handed out to so many providers, or not at all.
    Ask(Option<int>),
    /// Answers have come.
    Answers(Seq<(GenerationId, Vec<Suggestion>)>),
}

impl Composer {
    /// After one thing has happened.
    pub open spec fn after(self, e: Happening) -> Composer {
        match e {
            Happening::Key(input) => if self.on() {
                self.after_key(input)
            } else {
                self
            },
            Happening::Ime(active) => Composer { ime: active, ..self },
            Happening::AltScreen(active) => Composer { alt_screen: active, ..self },
            Happening::Output(items) => self.after_items(items),
            Happening::Debounce => Composer { debounce: false, ..self },
            Happening::Ask(Some(providers)) => Composer { awaited: providers, ..self.cleared() },
            Happening::Ask(None) => self.cleared(),
            Happening::Answers(answers) => self.polled(answers, answers.len() as int),
        }
    }

    /// After the first `n` of the things that happen.
    pub open spec fn after_all(self, es: Seq<Happening>, n: int) -> Composer
        decreases n,
    {
        if n <= 0 {
            self
        } else {
            self.after_all(es, n - 1).after(es[n - 1])
        }
    }

    /// Whether a key edits the line, moves the cursor or accepts a candidate.
    pub open spec fn touches(self, input: ComposerInput) -> bool {
        match input {
            ComposerInput::Char(_) => true,
            ComposerInput::Backspace | ComposerInput::LeftArrow | ComposerInput::Home => self.at > 0,
            ComposerInput::Delete | ComposerInput::End => self.at < self.text.len(),
            ComposerInput::RightArrow => self.candidates.len() > 0 || self.at < self.text.len(),
            ComposerInput::Enter => self.candidates.len() > 0,
            _ => false,
        }
    }

    /// Whether a key ends the line: it is finished, or given up.
    pub open spec fn ends_line(self, input: ComposerInput) -> bool {
        input is Escape || (input is Enter && self.candidates.len() == 0)
    }

    /// Whether a question becomes due.
    pub open spec fn makes_due(self, e: Happening) -> bool {
        e matches Happening::Key(input) && self.on() && self.touches(input)
    }

    /// Whether a question is due no more: somebody has asked, or the line has
    /// ended.
    pub open spec fn settles(self, e: Happening) -> bool {
        e is Debounce || (e matches Happening::Key(input) && self.on() && self.ends_line(input))
    }
}

proof fn lemma_answers_keep_gates(
    c: Composer,
    answers: Seq<(GenerationId, Vec<Suggestion>)>,
    n: int,
)
    ensures
        ({
            let d = c.polled(answers, n);
            &&& d.active == c.active && d.in_prompt == c.in_prompt
            &&& d.ime == c.ime && d.alt_screen == c.alt_screen
            &&& d.debounce == c.debounce
        }),
    decreases n,
{
    if n > 0 {
        lemma_answers_keep_gates(c, answers, n - 1);
    }
}

/// Whether the composer is at a prompt once marks have been seen: the last one
/// decides, where the prompt began or where a command started or ended.
pub open spec fn at_prompt(before: bool, items: Seq<Item>) -> bool
    decreases items.len(),
{
    if items.len() == 0 {
        before
    } else {
        match items.last() {
            Item::Byte(_) => at_prompt(before, items.drop_last()),
            Item::Mark(Osc133Event::PromptStart) => true,
            Item::Mark(Osc133Event::InputStart) => at_prompt(before, items.drop_last()),
            Item::Mark(_) => false,
        }
    }
}

/// Whether output tells that a prompt begins.
pub open spec fn brings_prompt(e: Happening) -> bool {
    e matches Happening::Output(items) && exists|k: int|
        0 <= k < items.len() && #[trigger] items[k] == Item::Mark(Osc133Event::PromptStart)
}

proof fn lemma_marks_decide(c: Composer, items: Seq<Item>)
    ensures
        ({
            let d = c.after_items(items);
            &&& (d.active && d.in_prompt) == at_prompt(c.active && c.in_prompt, items)
            &&& d.ime == c.ime && d.alt_screen == c.alt_screen
            &&& d.debounce == c.debounce
            &&& !brings_prompt(Happening::Output(items)) && !c.active ==> !d.active
        }),
    decreases items.len(),
{
    if items.len() > 0 {
        let front = items.drop_last();
        lemma_marks_decide(c, front);
        if brings_prompt(Happening::Output(front)) {
            let k = choose|k: int|
                0 <= k < front.len() && #[trigger] front[k] == Item::Mark(Osc133Event::PromptStart);
            assert(items[k] == Item::Mark(Osc133Event::PromptStart));
        }
        if items.last() == Item::Mark(Osc133Event::PromptStart) {
            assert(items[items.len() - 1] == Item::Mark(Osc133Event::PromptStart));
        }
    }
}

/// Whether the composer is at a prompt after the first `n` of the things that
/// happen.
pub open spec fn prompted(before: bool, es: Seq<Happening>, n: int) -> bool
    decreases n,
{
    if n <= 0 {
        before
    } else {
        match es[n - 1] {
            Happening::Output(items) => at_prompt(prompted(before, es, n - 1), items),
            _ => prompted(before, es, n - 1),
        }
    }
}

/// What an input method was last said to do.
pub open spec fn composing(before: bool, es: Seq<Happening>, n: int) -> bool
    decreases n,
{
    if n <= 0 {
        before
    } else {
        match es[n - 1] {
            Happening::Ime(active) => active,
            _ => composing(before, es, n - 1),
        }
    }
}

/// What a full-screen program was last said to do.
pub open spec fn full_screen(before: bool, es: Seq<Happening>, n: int) -> bool
    decreases n,
{
    if n <= 0 {
        before
    } else {
        match es[n - 1] {
            Happening::AltScreen(active) => active,
            _ => full_screen(before, es, n - 1),
        }
    }
}

/// Whether keys go to the composer is decided by the last mark and by what the
/// input method and the full-screen program were last said to do, as long as
/// nobody gives the line up.
pub proof fn law_last_mark_decides(c: Composer, es: Seq<Happening>, n: int)
    requires
        0 <= n <= es.len(),
        forall|i: int| 0 <= i < n ==> #[trigger] es[i] != Happening::Key(ComposerInput::Escape),
    ensures
        c.after_all(es, n).on() == (prompted(c.active && c.in_prompt, es, n) && !composing(
            c.ime,
            es,
            n,
        ) && !full_screen(c.alt_screen, es, n)),
{
    lemma_gates(c, es, n);
}

proof fn lemma_gates(c: Composer, es: Seq<Happening>, n: int)
    requires
        0 <= n <= es.len(),
    ensures
        ({
            let d = c.after_all(es, n);
            &&& d.ime == composing(c.ime, es, n)
            &&& d.alt_screen == full_screen(c.alt_screen, es, n)
            &&& (forall|i: int|
                0 <= i < n ==> #[trigger] es[i] != Happening::Key(ComposerInput::Escape)) ==> (
            d.active && d.in_prompt) == prompted(c.active && c.in_prompt, es, n)
        }),
    decreases n,
{
    if n > 0 {
        lemma_gates(c, es, n - 1);
        let prev = c.after_all(es, n - 1);
        match es[n - 1] {
            Happening::Output(items) => {
                lemma_marks_decide(prev, items);
            },
            Happening::Answers(answers) => {
                lemma_answers_keep_gates(prev, answers, answers.len() as int);
            },
            _ => {},
        }
    }
}

/// Whoever gives the line up gives it up until the next prompt: the composer
/// takes no key whatever else happens, and a prompt brings it back unless an
/// input method or a full-screen program has the keys.
pub proof fn law_escape_lasts_until_prompt(c: Composer, es: Seq<Happening>, n: int)
    requires
        c.on(),
        0 <= n <= es.len(),
        forall|i: int| 0 <= i < n ==> !brings_prompt(#[trigger] es[i]),
    ensures
        ({
            let d = c.after_key(ComposerInput::Escape).after_all(es, n);
            &&& !d.on()
            &&& d.after_items(scan(prefix() + seq![0x41u8, 0x07u8]).items).on() == (!d.ime
                && !d.alt_screen)
        }),
{
    lemma_stays_given_up(c.after_key(ComposerInput::Escape), es, n);
    let d = c.after_key(ComposerInput::Escape).after_all(es, n);
    let a = seq![0x41u8];
    law_mark_is_seen(a, Osc133Event::PromptStart, seq![]);
    assert(prefix() + a + seq![0x07u8] + seq![] =~= prefix() + seq![0x41u8, 0x07u8]);
    let seen = seq![Item::Mark(Osc133Event::PromptStart)];
    assert(seen + Seq::<Item>::empty() =~= seen);
    lemma_marks_decide(d, seen);
}

proof fn lemma_stays_given_up(c: Composer, es: Seq<Happening>, n: int)
    requires
        !c.active,
        0 <= n <= es.len(),
        forall|i: int| 0 <= i < n ==> !brings_prompt(#[trigger] es[i]),
    ensures
        !c.after_all(es, n).active,
    decreases n,
{
    if n > 0 {
        lemma_stays_given_up(c, es, n - 1);
        let prev = c.after_all(es, n - 1);
        match es[n - 1] {
            Happening::Output(items) => {
                assert(!brings_prompt(es[n - 1]));
                lemma_marks_decide(prev, items);
            },
            Happening::Answers(answers) => {
                lemma_answers_keep_gates(prev, answers, answers.len() as int);
            },
            _ => {},
        }
    }
}

/// A question is due exactly where a key has edited the line, moved the cursor
/// or accepted a candidate, and since then nobody has asked and the line has
/// not ended.
pub proof fn law_due_once_per_change(c: Composer, es: Seq<Happening>, n: int)
    requires
        !c.debounce,
        0 <= n <= es.len(),
    ensures
        c.after_all(es, n).debounce <==> exists|i: int|
            0 <= i < n && (#[trigger] c.after_all(es, i)).makes_due(es[i]) && forall|j: int|
                i < j < n ==> !(#[trigger] c.after_all(es, j)).settles(es[j]),
    decreases n,
{
    if n > 0 {
        law_due_once_per_change(c, es, n - 1);
        let prev = c.after_all(es, n - 1);
        let e = es[n - 1];
        match e {
            Happening::Output(items) => {
                lemma_marks_decide(prev, items);
            },
            Happening::Answers(answers) => {
                lemma_answers_keep_gates(prev, answers, answers.len() as int);
            },
            _ => {},
        }
        assert(c.after_all(es, n).debounce == (prev.makes_due(e) || (prev.debounce
            && !prev.settles(e))));
        if prev.makes_due(e) {
            assert(c.after_all(es, n - 1).makes_due(es[n - 1]));
        } else if prev.debounce && !prev.settles(e) {
            let i = choose|i: int|
                0 <= i < n - 1 && (#[trigger] c.after_all(es, i)).makes_due(es[i]) && forall|j: int|
                    i < j < n - 1 ==> !(#[trigger] c.after_all(es, j)).settles(es[j]);
            assert(c.after_all(es, i).makes_due(es[i]));
            assert forall|j: int| i < j < n implies !(#[trigger] c.after_all(es, j)).settles(
                es[j],
            ) by {
                if j == n - 1 {
                    assert(c.after_all(es, j) == prev);
                }
            }
        } else if exists|i: int|
            0 <= i < n && (#[trigger] c.after_all(es, i)).makes_due(es[i]) && forall|j: int|
                i < j < n ==> !(#[trigger] c.after_all(es, j)).settles(es[j]) {
            let i = choose|i: int|
                0 <= i < n && (#[trigger] c.after_all(es, i)).makes_due(es[i]) && forall|j: int|
                    i < j < n ==> !(#[trigger] c.after_all(es, j)).settles(es[j]);
            assert(i < n - 1);
            assert(!c.after_all(es, n - 1).settles(es[n - 1]));
            assert(c.after_all(es, i).makes_due(es[i]));
            assert forall|j: int| i < j < n - 1 implies !(#[trigger] c.after_all(es, j)).settles(
                es[j],
            ) by {}
            assert(prev.debounce);
        }
    }
}

/// What a composer keeps can be relied on: the cursor is in the line, and a
/// candidate is selected exactly where there are any.
pub proof fn law_composer_is_valid(s: &ComposerState)
    requires
        s.inv(),
    ensures
        s@.wf(),
{
}

} // verus!
