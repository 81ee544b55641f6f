//! An input method: what it is composing, what it commits, and where its
//! window belongs.
//!
//! Its events come in groups: what a group says takes effect when the group is
//! done, and not before.

use vstd::prelude::*;
use vstd::utf8::encode_utf8;

verus! {

/// What an input method says.
#[derive(Debug)]
pub enum TextInputEvent {
    /// The surface has the focus.
    Enter,
    /// The surface has lost the focus.
    Leave,
    PreeditString { text: Option<String>, cursor_begin: i32, cursor_end: i32 },
    CommitString { text: Option<String> },
    DeleteSurroundingText { before_length: u32, after_length: u32 },
    Done { serial: u32 },
    /// Anything else.
    Other,
}

/// A text that is being composed, and where the cursor is in it, in bytes.
#[derive(Debug)]
struct PreeditPending {
    text: String,
    cursor_begin: i32,
    cursor_end: i32,
}

/// What a group of events has said so far.
#[derive(Debug)]
struct PendingFrame {
    preedit: Option<PreeditPending>,
    commit: Option<Vec<u8>>,
    delete: Option<(u32, u32)>,
}

/// Where the cursor is, in pixels of the surface.
#[derive(Debug, Clone, Copy, PartialEq, Eq, Structural)]
pub struct CursorRectangle {
    pub x: i32,
    pub y: i32,
    pub width: i32,
    pub height: i32,
}

/// The state of an input method.
#[derive(Debug)]
pub struct ImeState {
    pending: PendingFrame,
    current_preedit: String,
    current_preedit_cursor: (i32, i32),
    last_cursor_rect: Option<CursorRectangle>,
    enabled: bool,
}

/// What is to be done about an event.
#[derive(Debug, PartialEq, Eq)]
pub enum ImeAction {
    Nothing,
    /// Show this text as being composed; none where it is empty.
    UpdatePreedit { text: String, cursor_begin: i32, cursor_end: i32 },
    /// Type these bytes.
    Commit(Vec<u8>),
    /// Delete so many bytes before and after the cursor.
    DeleteSurroundingText { before: u32, after: u32 },
    EnterFocus,
    LeaveFocus,
    /// Do all of these, in this order.
    Composite(Vec<ImeAction>),
}

impl Default for ImeAction {
    fn default() -> (r: Self)
        ensures
            r is Nothing,
    {
        ImeAction::Nothing
    }
}

/// A text that is being composed, as plain values.
#[verifier::ext_equal]
pub ghost struct Preedit {
    pub text: Seq<char>,
    pub begin: i32,
    pub end: i32,
}

/// The state of an input method, as plain values.
#[verifier::ext_equal]
pub ghost struct Ime {
    /// What the group of events has said so far.
    pub preedit: Option<Preedit>,
    pub commit: Option<Seq<u8>>,
    pub delete: Option<(u32, u32)>,
    /// What is shown.
    pub shown: Seq<char>,
    pub cursor: (i32, i32),
    /// Where the cursor was said to be.
    pub rect: Option<CursorRectangle>,
    pub enabled: bool,
}

/// One thing to be done.
pub ghost enum Act {
    Delete(u32, u32),
    Commit(Seq<u8>),
    Show(Preedit),
    Enter,
    Leave,
}

/// The one thing that an action says is to be done.
pub open spec fn single(a: ImeAction) -> Option<Act> {
    match a {
        ImeAction::UpdatePreedit { text, cursor_begin, cursor_end } => Some(
            Act::Show(Preedit { text: text@, begin: cursor_begin, end: cursor_end }),
        ),
        ImeAction::Commit(bytes) => Some(Act::Commit(bytes@)),
        ImeAction::DeleteSurroundingText { before, after } => Some(Act::Delete(before, after)),
        ImeAction::EnterFocus => Some(Act::Enter),
        ImeAction::LeaveFocus => Some(Act::Leave),
        ImeAction::Nothing => None,
        ImeAction::Composite(_) => None,
    }
}

/// The action says to do exactly these things, in this order.
pub open spec fn says(a: ImeAction, acts: Seq<Act>) -> bool {
    if acts.len() == 0 {
        a is Nothing
    } else if acts.len() == 1 {
        single(a) == Some(acts[0])
    } else {
        a matches ImeAction::Composite(v) && v@.len() == acts.len() && forall|i: int|
            0 <= i < acts.len() ==> single(#[trigger] v@[i]) == Some(acts[i])
    }
}

impl View for ImeState {
    type V = Ime;

    closed spec fn view(&self) -> Ime {
        Ime {
            preedit: match self.pending.preedit {
                Some(p) => Some(
                    Preedit { text: p.text@, begin: p.cursor_begin, end: p.cursor_end },
                ),
                None => None,
            },
            commit: match self.pending.commit {
                Some(b) => Some(b@),
                None => None,
            },
            delete: self.pending.delete,
            shown: self.current_preedit@,
            cursor: self.current_preedit_cursor,
            rect: self.last_cursor_rect,
            enabled: self.enabled,
        }
    }
}

/// The state before anything was said.
pub open spec fn initial() -> Ime {
    Ime {
        preedit: None,
        commit: None,
        delete: None,
        shown: seq![],
        cursor: (0, 0),
        rect: None,
        enabled: false,
    }
}

/// The state once the focus has come or gone: nothing is being composed.
pub open spec fn focused(s: Ime, enabled: bool) -> Ime {
    Ime {
        preedit: None,
        commit: None,
        delete: None,
        shown: seq![],
        cursor: ((-1) as i32, (-1) as i32),
        rect: s.rect,
        enabled,
    }
}

/// The state once a group is done. A group that says nothing of a text that is
/// being composed leaves the one that is shown.
pub open spec fn applied(s: Ime) -> Ime {
    Ime {
        preedit: None,
        commit: None,
        delete: None,
        shown: match s.preedit {
            Some(p) => p.text,
            None => s.shown,
        },
        cursor: match s.preedit {
            Some(p) => (p.begin, p.end),
            None => s.cursor,
        },
        ..s
    }
}

/// What is to be done once a group is done: first delete, then commit, then
/// show.
pub open spec fn due(s: Ime) -> Seq<Act> {
    (match s.delete {
        Some((before, after)) => seq![Act::Delete(before, after)],
        None => seq![],
    }) + (match s.commit {
        Some(b) => seq![Act::Commit(b)],
        None => seq![],
    }) + (match s.preedit {
        Some(p) => seq![Act::Show(p)],
        None => seq![],
    })
}

/// The text of an event, or an empty one.
pub open spec fn text_of(t: Option<String>) -> Seq<char> {
    match t {
        Some(t) => t@,
        None => seq![],
    }
}

/// The state after an event.
pub open spec fn after_event(s: Ime, event: TextInputEvent) -> Ime {
    match event {
        TextInputEvent::Enter => focused(s, true),
        TextInputEvent::Leave => focused(s, false),
        TextInputEvent::PreeditString { text, cursor_begin, cursor_end } => Ime {
            preedit: Some(Preedit { text: text_of(text), begin: cursor_begin, end: cursor_end }),
            ..s
        },
        TextInputEvent::CommitString { text } => if text_of(text).len() > 0 {
            Ime { commit: Some(encode_utf8(text_of(text))), ..s }
        } else {
            s
        },
        TextInputEvent::DeleteSurroundingText { before_length, after_length } => Ime {
            delete: Some((before_length, after_length)),
            ..s
        },
        TextInputEvent::Done { serial } => applied(s),
        TextInputEvent::Other => s,
    }
}

/// What is to be done about an event.
pub open spec fn event_acts(s: Ime, event: TextInputEvent) -> Seq<Act> {
    match event {
        TextInputEvent::Enter => seq![Act::Enter],
        TextInputEvent::Leave => seq![Act::Leave],
        TextInputEvent::Done { serial } => due(s),
        _ => seq![],
    }
}

fn no_pending() -> (r: PendingFrame)
    ensures
        r.preedit is None,
        r.commit is None,
        r.delete is None,
{
    PendingFrame { preedit: None, commit: None, delete: None }
}

impl ImeState {
    pub fn new() -> (r: Self)
        ensures
            r@ == initial(),
    {
        let r = ImeState {
            pending: no_pending(),
            current_preedit: String::new(),
            current_preedit_cursor: (0, 0),
            last_cursor_rect: None,
            enabled: false,
        };
        assert(r@ =~= initial());
        r
    }

    /// The text that is shown as being composed.
    pub fn current_preedit(&self) -> (r: &str)
        ensures
            r@ == self@.shown,
    {
        self.current_preedit.as_str()
    }

    /// Where the cursor is in it, in bytes; -1 where it is hidden.
    pub fn current_preedit_cursor(&self) -> (r: (i32, i32))
        ensures
            r == self@.cursor,
    {
        self.current_preedit_cursor
    }

    /// Whether the surface has the focus.
    pub fn is_enabled(&self) -> (b: bool)
        ensures
            b == self@.enabled,
    {
        self.enabled
    }

    /// Takes where the cursor is. Returns it where it has moved, to be
    /// reported.
    pub fn update_cursor_rectangle(&mut self, rect: CursorRectangle) -> (r: Option<CursorRectangle>)
        ensures
            final(self)@ == (Ime { rect: Some(rect), ..old(self)@ }),
            r == (if old(self)@.rect == Some(rect) {
                None
            } else {
                Some(rect)
            }),
    {
        if let Some(last) = self.last_cursor_rect {
            if last == rect {
                return None;
            }
        }
        self.last_cursor_rect = Some(rect);
        Some(rect)
    }

    fn refocus(&mut self, enabled: bool)
        ensures
            final(self)@ == focused(old(self)@, enabled),
    {
        self.current_preedit = String::new();
        self.current_preedit_cursor = (-1, -1);
        self.pending = no_pending();
        self.enabled = enabled;
        assert(self@ =~= focused(old(self)@, enabled));
    }
}

impl Default for ImeState {
    fn default() -> (r: Self)
        ensures
            r@ == initial(),
    {
        ImeState::new()
    }
}

/// Takes an event, and says what is to be done about it.
pub fn handle_text_input_event(event: TextInputEvent, state: &mut ImeState) -> (r: ImeAction)
    ensures
        final(state)@ == after_event(old(state)@, event),
        says(r, event_acts(old(state)@, event)),
{
    match event {
        TextInputEvent::Enter => {
            state.refocus(true);
            ImeAction::EnterFocus
        },
        TextInputEvent::Leave => {
            state.refocus(false);
            ImeAction::LeaveFocus
        },
        TextInputEvent::PreeditString { text, cursor_begin, cursor_end } => {
            let text: String = match text {
                Some(t) => t,
                None => {
                    let none: String = String::new();
                    assert(none@ =~= seq![]);
                    none
                },
            };
            state.pending.preedit = Some(PreeditPending { text, cursor_begin, cursor_end });
            ImeAction::Nothing
        },
        TextInputEvent::CommitString { text } => {
            if let Some(t) = text {
                if !t.as_str().is_empty() {
                    let mut bytes: Vec<u8> = Vec::new();
                    bytes.extend_from_slice(t.as_str().as_bytes());
                    assert(bytes@ =~= encode_utf8(t@));
                    state.pending.commit = Some(bytes);
                }
            }
            ImeAction::Nothing
        },
        TextInputEvent::DeleteSurroundingText { before_length, after_length } => {
            state.pending.delete = Some((before_length, after_length));
            ImeAction::Nothing
        },
        TextInputEvent::Done { serial: _ } => apply_pending(state),
        TextInputEvent::Other => ImeAction::Nothing,
    }
}

/// Lets a group of events take effect.
fn apply_pending(state: &mut ImeState) -> (r: ImeAction)
    ensures
        final(state)@ == applied(old(state)@),
        says(r, due(old(state)@)),
{
    let ghost before = state@;
    let mut pending: PendingFrame = no_pending();
    core::mem::swap(&mut pending, &mut state.pending);
    let mut actions: Vec<ImeAction> = Vec::new();
    if let Some((before, after)) = pending.delete {
        actions.push(ImeAction::DeleteSurroundingText { before, after });
    }
    if let Some(bytes) = pending.commit {
        actions.push(ImeAction::Commit(bytes));
    }
    if let Some(p) = pending.preedit {
        state.current_preedit = p.text.clone();
        state.current_preedit_cursor = (p.cursor_begin, p.cursor_end);
        actions.push(
            ImeAction::UpdatePreedit {
                text: p.text,
                cursor_begin: p.cursor_begin,
                cursor_end: p.cursor_end,
            },
        );
    }
    proof {
        assert(state@ =~= applied(before));
        assert(actions@.len() == due(before).len());
        assert forall|i: int| 0 <= i < actions@.len() implies single(#[trigger] actions@[i])
            == Some(due(before)[i]) by {}
    }
    if actions.len() == 0 {
        ImeAction::Nothing
    } else if actions.len() == 1 {
        actions.remove(0)
    } else {
        ImeAction::Composite(actions)
    }
}

/// Nothing is shown or typed before a group of events is done, unless the
/// focus comes or goes.
pub proof fn law_nothing_before_done(s: Ime, event: TextInputEvent)
    requires
        !(event is Done),
        !(event is Enter),
        !(event is Leave),
    ensures
        event_acts(s, event).len() == 0,
        after_event(s, event).shown == s.shown,
        after_event(s, event).cursor == s.cursor,
        after_event(s, event).enabled == s.enabled,
{
}

/// A group of events takes effect once: when the next is done without having
/// said anything, nothing is to be done.
pub proof fn law_group_takes_effect_once(s: Ime, serial: u32, next: u32)
    ensures
        ({
            let t = after_event(s, TextInputEvent::Done { serial });
            event_acts(t, TextInputEvent::Done { serial: next }).len() == 0 && after_event(
                t,
                TextInputEvent::Done { serial: next },
            ) == t
        }),
{
    let t = after_event(s, TextInputEvent::Done { serial });
    assert(due(t) =~= seq![]);
}

/// The order in which a group's events come does not matter: a commit, a
/// deletion and a text that is being composed take effect in one order.
pub proof fn law_group_order(s: Ime, a: TextInputEvent, b: TextInputEvent)
    requires
        (a is PreeditString && b is CommitString) || (a is PreeditString
            && b is DeleteSurroundingText) || (a is CommitString && b is DeleteSurroundingText),
    ensures
        after_event(after_event(s, a), b) == after_event(after_event(s, b), a),
{
}

/// When the focus comes or goes, nothing that was said before matters.
pub proof fn law_focus_forgets(s: Ime, event: TextInputEvent, serial: u32)
    requires
        event is Enter || event is Leave,
    ensures
        after_event(s, event).shown.len() == 0,
        event_acts(after_event(s, event), TextInputEvent::Done { serial }).len() == 0,
{
    assert(due(after_event(s, event)) =~= seq![]);
}

/// Whether nothing has been said since the last group.
pub open spec fn nothing_said(s: Ime) -> bool {
    s.preedit is None && s.commit is None && s.delete is None
}

/// A group that deletes, commits and composes is carried out in this order, with
/// what it said: the deletion, the text's bytes, and the text that is being
/// composed, which is then shown. Whatever is left out is not done, and without
/// a text that is being composed the one that is shown stays.
pub proof fn law_group_is_carried_out(
    s: Ime,
    before_length: u32,
    after_length: u32,
    typed: String,
    composed: String,
    cursor_begin: i32,
    cursor_end: i32,
    serial: u32,
)
    requires
        nothing_said(s),
        typed@.len() > 0,
    ensures
        ({
            let delete = TextInputEvent::DeleteSurroundingText { before_length, after_length };
            let commit = TextInputEvent::CommitString { text: Some(typed) };
            let compose = TextInputEvent::PreeditString {
                text: Some(composed),
                cursor_begin,
                cursor_end,
            };
            let done = TextInputEvent::Done { serial };
            let show = Preedit { text: composed@, begin: cursor_begin, end: cursor_end };
            let s1 = after_event(s, delete);
            let s2 = after_event(s1, commit);
            let s3 = after_event(s2, compose);
            let t1 = after_event(s, commit);
            let t2 = after_event(s, compose);
            let last = after_event(s3, done);
            &&& event_acts(s, done).len() == 0
            &&& event_acts(s1, done) == seq![Act::Delete(before_length, after_length)]
            &&& event_acts(s2, done) == seq![
                Act::Delete(before_length, after_length),
                Act::Commit(encode_utf8(typed@)),
            ]
            &&& event_acts(s3, done) == seq![
                Act::Delete(before_length, after_length),
                Act::Commit(encode_utf8(typed@)),
                Act::Show(show),
            ]
            &&& event_acts(t1, done) == seq![Act::Commit(encode_utf8(typed@))]
            &&& event_acts(t2, done) == seq![Act::Show(show)]
            &&& last.shown == composed@ && last.cursor == (cursor_begin, cursor_end)
            &&& last.enabled == s.enabled && nothing_said(last)
            &&& after_event(s2, done).shown == s.shown && after_event(s2, done).cursor == s.cursor
        }),
{
    let delete = TextInputEvent::DeleteSurroundingText { before_length, after_length };
    let commit = TextInputEvent::CommitString { text: Some(typed) };
    let compose = TextInputEvent::PreeditString { text: Some(composed), cursor_begin, cursor_end };
    let show = Preedit { text: composed@, begin: cursor_begin, end: cursor_end };
    let s1 = after_event(s, delete);
    let s2 = after_event(s1, commit);
    let s3 = after_event(s2, compose);
    assert(due(s) =~= seq![]);
    assert(due(s1) =~= seq![Act::Delete(before_length, after_length)]);
    assert(due(s2) =~= seq![
        Act::Delete(before_length, after_length),
        Act::Commit(encode_utf8(typed@)),
    ]);
    assert(due(s3) =~= seq![
        Act::Delete(before_length, after_length),
        Act::Commit(encode_utf8(typed@)),
        Act::Show(show),
    ]);
    assert(due(after_event(s, commit)) =~= seq![Act::Commit(encode_utf8(typed@))]);
    assert(due(after_event(s, compose)) =~= seq![Act::Show(show)]);
}

/// What a group says twice counts as it was said last, but an empty text commits
/// nothing and takes nothing back.
pub proof fn law_last_word_counts(
    s: Ime,
    a: TextInputEvent,
    b: TextInputEvent,
    none: TextInputEvent,
)
    requires
        (a is PreeditString && b is PreeditString) || (a is DeleteSurroundingText
            && b is DeleteSurroundingText) || (a is CommitString && (b matches
            TextInputEvent::CommitString { text: Some(t) } && t@.len() > 0)),
        none matches TextInputEvent::CommitString { text } ==> (text matches Some(t) ==> t@.len()
            == 0),
        none is CommitString,
    ensures
        after_event(after_event(s, a), b) == after_event(s, b),
        after_event(s, none) == s,
{
}

/// The focus comes and goes: that is reported, the surface takes input or no
/// longer does, and nothing is being composed. What comes without a text
/// composes an empty one.
pub proof fn law_focus_is_reported(s: Ime, cursor_begin: i32, cursor_end: i32)
    ensures
        event_acts(s, TextInputEvent::Enter) == seq![Act::Enter],
        event_acts(s, TextInputEvent::Leave) == seq![Act::Leave],
        after_event(s, TextInputEvent::Enter).enabled,
        !after_event(s, TextInputEvent::Leave).enabled,
        nothing_said(after_event(s, TextInputEvent::Enter)),
        nothing_said(after_event(s, TextInputEvent::Leave)),
        after_event(s, TextInputEvent::Enter).cursor == (-1i32, -1i32),
        after_event(s, TextInputEvent::Leave).cursor == (-1i32, -1i32),
        after_event(s, TextInputEvent::Enter).rect == s.rect,
        after_event(s, TextInputEvent::PreeditString { text: None, cursor_begin, cursor_end })
            == (Ime {
            preedit: Some(Preedit { text: seq![], begin: cursor_begin, end: cursor_end }),
            ..s
        }),
        after_event(s, TextInputEvent::Other) == s,
        event_acts(s, TextInputEvent::Other).len() == 0,
{
}

/// The action is this one thing.
pub open spec fn is_act(a: ImeAction, act: Act) -> bool {
    match act {
        Act::Delete(m, n) => match a {
            ImeAction::DeleteSurroundingText { before, after } => before == m && after == n,
            _ => false,
        },
        Act::Commit(bytes) => match a {
            ImeAction::Commit(b) => b@ == bytes,
            _ => false,
        },
        Act::Show(p) => match a {
            ImeAction::UpdatePreedit { text, cursor_begin, cursor_end } => text@ == p.text
                && cursor_begin == p.begin && cursor_end == p.end,
            _ => false,
        },
        Act::Enter => a is EnterFocus,
        Act::Leave => a is LeaveFocus,
    }
}

/// What an action says: nothing, the one thing, or all of them in their order.
pub proof fn law_action_is_what_it_says(a: ImeAction, acts: Seq<Act>)
    requires
        says(a, acts),
    ensures
        acts.len() == 0 ==> a is Nothing,
        acts.len() == 1 ==> is_act(a, acts[0]),
        acts.len() > 1 ==> match a {
            ImeAction::Composite(v) => v@.len() == acts.len() && forall|i: int|
                0 <= i < acts.len() ==> is_act(#[trigger] v@[i], acts[i]),
            _ => false,
        },
{
}

/// At first nothing has been said, nothing is shown, the surface has no focus, and
/// where the cursor is has not been said.
pub proof fn law_nothing_at_first()
    ensures
        nothing_said(initial()),
        initial().shown.len() == 0,
        initial().cursor == (0i32, 0i32),
        initial().rect is None,
        !initial().enabled,
{
}

} // verus!
