//! The session: the workspaces that the daemon holds, their tabs, and how long
//! a workspace lives.
//!
//! A workspace lives as long as it is anchored or held. Only an explicit act
//! ends it: a client that merely disconnects ends nothing.

use crate::kernel::proto::{
    cell_wire, shape_wire, CellWire, CursorShapeWire, CursorWire, Snapshot, TabMeta, TabOp,
    WorkspaceInfo, WorkspaceList, WorkspaceMeta,
};
use crate::tab::{lemma_tab_list_wf, position, Tab, TabId, TabInstance, TabList, Tabs};
use crate::term::{row_text, shown_cells, CellRef, Screen};
use std::collections::HashSet;
use vstd::prelude::*;

verus! {

broadcast use vstd::std_specs::hash::group_hash_axioms;

/// What became of a workspace.
#[derive(Debug, Clone, Copy, PartialEq, Eq, Structural)]
pub enum Lifecycle {
    Alive,
    Destroyed,
    Unknown,
}

/// Why an operation was refused.
#[derive(Debug, Clone, Copy, PartialEq, Eq, Structural)]
pub enum SessionErr {
    UnknownWorkspace { workspace_id: u64 },
    UnknownTab { tab_id: u64 },
    NoSuchIndex { idx: usize },
    BadReorder { origin: usize, target: usize },
}

struct Workspace {
    id: u64,
    tabs: TabList,
    anchored: bool,
    holders: HashSet<u64>,
}

/// The workspaces, one of them active.
pub struct Session {
    workspaces: Vec<Workspace>,
    active: usize,
    next_ws_id: u64,
}

/// A workspace as plain values.
pub ghost struct Room {
    pub id: u64,
    pub tabs: Tabs,
    pub anchored: bool,
    pub holders: Set<u64>,
}

/// A session as plain values.
pub ghost struct House {
    pub rooms: Seq<Room>,
    pub active: int,
    pub next: u64,
}

impl Room {
    /// How many keep the workspace alive: its anchor and its holders.
    pub open spec fn refcount(self) -> nat {
        self.holders.len() + (if self.anchored {
            1nat
        } else {
            0
        })
    }
}

/// The position of the workspace with this number.
pub open spec fn room_at(rooms: Seq<Room>, id: u64) -> Option<int>
    decreases rooms.len(),
{
    if rooms.len() == 0 {
        None
    } else if rooms[0].id == id {
        Some(0)
    } else {
        match room_at(rooms.skip(1), id) {
            Some(i) => Some(i + 1),
            None => None,
        }
    }
}

/// The position of the first workspace that has a tab with this number.
pub open spec fn room_of_tab(rooms: Seq<Room>, tab_id: u64) -> Option<int>
    decreases rooms.len(),
{
    if rooms.len() == 0 {
        None
    } else if position(rooms[0].tabs.tabs, tab_id) is Some {
        Some(0)
    } else {
        match room_of_tab(rooms.skip(1), tab_id) {
            Some(i) => Some(i + 1),
            None => None,
        }
    }
}

/// `v` between 1 and 65535.
pub open spec fn clamp16(v: int) -> int {
    if v < 1 {
        1
    } else if v > 65535 {
        65535
    } else {
        v
    }
}

impl House {
    /// The active workspace is one of the session, unless that is empty.
    pub open spec fn wf(self) -> bool {
        &&& 0 <= self.active
        &&& self.rooms.len() > 0 ==> self.active < self.rooms.len()
        &&& self.rooms.len() == 0 ==> self.active == 0
    }

    /// Every workspace has a tab.
    pub open spec fn peopled(self) -> bool {
        forall|i: int| 0 <= i < self.rooms.len() ==> (#[trigger] self.rooms[i]).tabs.tabs.len() > 0
    }

    /// The workspace has a tab, if there is one with this number.
    pub open spec fn has_tabs(self, ws_id: u64) -> bool {
        room_at(self.rooms, ws_id) matches Some(w) ==> self.rooms[w].tabs.tabs.len() > 0
    }

    /// No tab of the session has this number.
    pub open spec fn unused(self, tab_id: u64) -> bool {
        forall|i: int, j: int|
            0 <= i < self.rooms.len() && 0 <= j < self.rooms[i].tabs.tabs.len()
                ==> #[trigger] self.rooms[i].tabs.tabs[j].id != tab_id
    }

    /// Whether the emulation of a tab can take this output.
    pub open spec fn takes_output(self, tab_id: u64, bytes: Seq<u8>) -> bool {
        match room_of_tab(self.rooms, tab_id) {
            Some(w) => {
                let tabs = self.rooms[w].tabs.tabs;
                tabs[position(tabs, tab_id)->0].screen.takes_output(bytes)
            },
            None => true,
        }
    }

    /// The house once a tab has taken output, if there is one with this
    /// number.
    pub open spec fn after_output(self, tab_id: u64, bytes: Seq<u8>, next: House) -> bool {
        match room_of_tab(self.rooms, tab_id) {
            None => next == self,
            Some(w) => {
                let t = position(self.rooms[w].tabs.tabs, tab_id)->0;
                let before = self.rooms[w].tabs.tabs[t];
                let after = next.rooms[w].tabs.tabs[t];
                &&& next == self.with_tab(w, t, after)
                &&& after == (Tab { screen: after.screen, ..before })
                &&& before.screen.after_output(bytes, after.screen)
            },
        }
    }

    /// Whether the emulations of a workspace can be made this wide.
    pub open spec fn takes_width(self, ws_id: u64, cols: int) -> bool {
        match room_at(self.rooms, ws_id) {
            Some(w) => self.rooms[w].tabs.take_width(cols),
            None => true,
        }
    }

    /// With workspace `w` replaced.
    pub open spec fn with_room(self, w: int, room: Room) -> House {
        House { rooms: self.rooms.update(w, room), ..self }
    }

    /// With the tabs of workspace `w` replaced.
    pub open spec fn with_tabs(self, w: int, tabs: Tabs) -> House {
        self.with_room(w, Room { tabs, ..self.rooms[w] })
    }

    /// With tab `t` of workspace `w` replaced.
    pub open spec fn with_tab(self, w: int, t: int, tab: Tab) -> House {
        let old = self.rooms[w].tabs;
        self.with_tabs(w, Tabs { tabs: old.tabs.update(t, tab), ..old })
    }

    /// Without workspace `w`. The active one stays active; where it is the one
    /// that goes, its place is taken by the next, or the last.
    pub open spec fn without(self, w: int) -> House {
        let rooms = self.rooms.remove(w);
        House {
            rooms,
            active: if rooms.len() == 0 {
                0
            } else if w < self.active {
                self.active - 1
            } else if w == self.active && self.active >= rooms.len() {
                rooms.len() - 1
            } else {
                self.active
            },
            ..self
        }
    }

    /// With a workspace held, if there is one with this number.
    pub open spec fn held(self, ws_id: u64, holder: u64) -> House {
        match room_at(self.rooms, ws_id) {
            None => self,
            Some(w) => self.with_room(
                w,
                Room { holders: self.rooms[w].holders.insert(holder), ..self.rooms[w] },
            ),
        }
    }

    /// With a workspace let go, if there is one with this number. Where that
    /// is explicit it ends a workspace that nobody keeps alive.
    pub open spec fn let_go(self, ws_id: u64, holder: u64, explicit: bool) -> House {
        match room_at(self.rooms, ws_id) {
            None => self,
            Some(w) => {
                let next = self.with_room(
                    w,
                    Room { holders: self.rooms[w].holders.remove(holder), ..self.rooms[w] },
                );
                if explicit {
                    next.settled(w)
                } else {
                    next
                }
            },
        }
    }

    /// What an explicit act leaves of workspace `w`: nothing where nobody
    /// keeps it alive.
    pub open spec fn settled(self, w: int) -> House {
        if self.rooms[w].refcount() == 0 {
            self.without(w)
        } else {
            self
        }
    }
}

impl View for Workspace {
    type V = Room;

    closed spec fn view(&self) -> Room {
        Room {
            id: self.id,
            tabs: self.tabs@,
            anchored: self.anchored,
            holders: self.holders@,
        }
    }
}

spec fn rooms(s: Seq<Workspace>) -> Seq<Room> {
    s.map_values(|w: Workspace| w@)
}

impl View for Session {
    type V = House;

    closed spec fn view(&self) -> House {
        House {
            rooms: rooms(self.workspaces@),
            active: self.active as int,
            next: self.next_ws_id,
        }
    }
}

proof fn lemma_room_at(rs: Seq<Room>, id: u64, i: int)
    requires
        0 <= i <= rs.len(),
        forall|j: int| 0 <= j < i ==> (#[trigger] rs[j]).id != id,
        i < rs.len() ==> rs[i].id == id,
    ensures
        room_at(rs, id) == (if i < rs.len() {
            Some(i)
        } else {
            None
        }),
    decreases i,
{
    if i > 0 {
        assert(rs[0].id != id);
        assert forall|j: int| 0 <= j < i - 1 implies (#[trigger] rs.skip(1)[j]).id != id by {
            assert(rs.skip(1)[j] == rs[j + 1]);
        }
        lemma_room_at(rs.skip(1), id, i - 1);
    }
}

/// What the position of a workspace is.
pub proof fn lemma_room_at_is(rs: Seq<Room>, id: u64)
    ensures
        match room_at(rs, id) {
            Some(i) => 0 <= i < rs.len() && rs[i].id == id,
            None => forall|j: int| 0 <= j < rs.len() ==> (#[trigger] rs[j]).id != id,
        },
    decreases rs.len(),
{
    if rs.len() > 0 && rs[0].id != id {
        let rest = rs.skip(1);
        lemma_room_at_is(rest, id);
        assert forall|j: int| 0 < j < rs.len() implies #[trigger] rs[j] == rest[j - 1] by {}
    }
}

/// A valid session's model is valid.
pub proof fn lemma_session_wf(s: Session)
    requires
        s.inv(),
    ensures
        s@.wf(),
{
}

/// The tabs of a valid session are valid.
pub proof fn lemma_session_tabs(s: Session, w: int)
    requires
        s.inv(),
        0 <= w < s@.rooms.len(),
    ensures
        s@.rooms[w].tabs.wf(),
{
    assert(s@.rooms[w] == s.workspaces@[w]@);
    lemma_tab_list_wf(s.workspaces@[w].tabs);
}

proof fn lemma_room_of_tab(rs: Seq<Room>, tab_id: u64, i: int)
    requires
        0 <= i <= rs.len(),
        forall|j: int| 0 <= j < i ==> position((#[trigger] rs[j]).tabs.tabs, tab_id) is None,
        i < rs.len() ==> position(rs[i].tabs.tabs, tab_id) is Some,
    ensures
        room_of_tab(rs, tab_id) == (if i < rs.len() {
            Some(i)
        } else {
            None
        }),
    decreases i,
{
    if i > 0 {
        assert(position(rs[0].tabs.tabs, tab_id) is None);
        assert forall|j: int| 0 <= j < i - 1 implies position(
            (#[trigger] rs.skip(1)[j]).tabs.tabs,
            tab_id,
        ) is None by {
            assert(rs.skip(1)[j] == rs[j + 1]);
        }
        lemma_room_of_tab(rs.skip(1), tab_id, i - 1);
    }
}

/// A workspace that is found has the tab, at a place in its list.
pub proof fn lemma_room_of_tab_is(rs: Seq<Room>, tab_id: u64)
    ensures
        room_of_tab(rs, tab_id) matches Some(w) ==> 0 <= w < rs.len() && position(
            rs[w].tabs.tabs,
            tab_id,
        ) is Some,
    decreases rs.len(),
{
    if rs.len() > 0 {
        lemma_room_of_tab_is(rs.skip(1), tab_id);
    }
}

/// `v` between 1 and 65535.
pub fn clamp_u16(v: usize) -> (r: u16)
    ensures
        r == clamp16(v as int),
{
    if v < 1 {
        1
    } else if v > 65535 {
        65535
    } else {
        v as u16
    }
}

impl Session {
    /// What every session keeps.
    pub closed spec fn inv(&self) -> bool {
        self@.wf() && forall|i: int|
            0 <= i < self.workspaces@.len() ==> (#[trigger] self.workspaces@[i]).tabs.inv()
    }

    /// A session with one workspace, number 1, that is neither anchored nor
    /// held.
    pub fn new(tabs: TabList) -> (r: Self)
        requires
            tabs.inv(),
        ensures
            r.inv(),
            r@ == (House {
                rooms: seq![
                    Room { id: 1, tabs: tabs@, anchored: false, holders: Set::empty() },
                ],
                active: 0,
                next: 2,
            }),
    {
        let mut workspaces: Vec<Workspace> = Vec::new();
        workspaces.push(Workspace { id: 1, tabs, anchored: false, holders: HashSet::new() });
        let r = Session { workspaces, active: 0, next_ws_id: 2 };
        assert(r@.rooms =~= seq![
            Room { id: 1, tabs: tabs@, anchored: false, holders: Set::empty() },
        ]);
        r
    }

    /// The position of the workspace with this number.
    fn ws_idx(&self, ws_id: u64) -> (r: Option<usize>)
        ensures
            match r {
                Some(i) => room_at(self@.rooms, ws_id) == Some(i as int) && i
                    < self.workspaces@.len(),
                None => room_at(self@.rooms, ws_id) is None,
            },
    {
        let mut i: usize = 0;
        while i < self.workspaces.len()
            invariant
                i <= self.workspaces@.len() == self@.rooms.len(),
                forall|j: int| 0 <= j < i ==> (#[trigger] self@.rooms[j]).id != ws_id,
            decreases self.workspaces@.len() - i,
        {
            assert(self@.rooms[i as int] == self.workspaces@[i as int]@);
            if self.workspaces[i].id == ws_id {
                proof {
                    lemma_room_at(self@.rooms, ws_id, i as int);
                }
                return Some(i);
            }
            i = i + 1;
        }
        proof {
            lemma_room_at(self@.rooms, ws_id, i as int);
        }
        None
    }

    /// The positions of the workspace and the tab with this number.
    fn locate(&self, tab_id: u64) -> (r: Option<(usize, usize)>)
        ensures
            match r {
                Some((w, t)) => w < self.workspaces@.len() && room_of_tab(self@.rooms, tab_id)
                    == Some(w as int) && position(self@.rooms[w as int].tabs.tabs, tab_id) == Some(
                    t as int,
                ) && t < self@.rooms[w as int].tabs.tabs.len(),
                None => room_of_tab(self@.rooms, tab_id) is None,
            },
    {
        let mut w: usize = 0;
        while w < self.workspaces.len()
            invariant
                w <= self.workspaces@.len() == self@.rooms.len(),
                forall|j: int|
                    0 <= j < w ==> position((#[trigger] self@.rooms[j]).tabs.tabs, tab_id) is None,
            decreases self.workspaces@.len() - w,
        {
            assert(self@.rooms[w as int] == self.workspaces@[w as int]@);
            if let Some(t) = self.workspaces[w].tabs.position_of(tab_id) {
                proof {
                    lemma_room_of_tab(self@.rooms, tab_id, w as int);
                }
                return Some((w, t));
            }
            w = w + 1;
        }
        proof {
            lemma_room_of_tab(self@.rooms, tab_id, w as int);
        }
        None
    }

    /// The tabs of the active workspace.
    pub fn tabs(&self) -> (r: &TabList)
        requires
            self.inv(),
            self@.rooms.len() > 0,
        ensures
            r.inv(),
            r@ == self@.rooms[self@.active].tabs,
    {
        &self.workspaces[self.active].tabs
    }

    /// The number of the active workspace.
    pub fn active_workspace_id(&self) -> (r: u64)
        requires
            self.inv(),
            self@.rooms.len() > 0,
        ensures
            r == self@.rooms[self@.active].id,
    {
        self.workspaces[self.active].id
    }

    /// The numbers of all workspaces, in order.
    pub fn workspace_ids(&self) -> (r: Vec<u64>)
        ensures
            r@ == self@.rooms.map_values(|w: Room| w.id),
    {
        let mut out: Vec<u64> = Vec::new();
        let mut i: usize = 0;
        while i < self.workspaces.len()
            invariant
                i <= self.workspaces@.len() == self@.rooms.len(),
                out@ =~= self@.rooms.map_values(|w: Room| w.id).take(i as int),
            decreases self.workspaces@.len() - i,
        {
            assert(self@.rooms[i as int] == self.workspaces@[i as int]@);
            out.push(self.workspaces[i].id);
            i = i + 1;
        }
        assert(self@.rooms.map_values(|w: Room| w.id).take(i as int) =~= self@.rooms.map_values(
            |w: Room| w.id,
        ));
        out
    }

    pub fn workspace_count(&self) -> (n: usize)
        ensures
            n == self@.rooms.len(),
    {
        self.workspaces.len()
    }

    /// Makes a workspace active; tells whether there is one with this number.
    pub fn set_active_workspace(&mut self, ws_id: u64) -> (b: bool)
        requires
            old(self).inv(),
        ensures
            final(self).inv(),
            match room_at(old(self)@.rooms, ws_id) {
                Some(i) => b && final(self)@ == (House { active: i, ..old(self)@ }),
                None => !b && final(self)@ == old(self)@,
            },
    {
        match self.ws_idx(ws_id) {
            Some(i) => {
                self.active = i;
                true
            },
            None => false,
        }
    }

    /// Takes the next number for a workspace. Behind the largest comes 0.
    fn alloc_ws_id(&mut self) -> (r: u64)
        requires
            old(self).inv(),
        ensures
            final(self).inv(),
            r == old(self)@.next,
            final(self)@ == (House {
                next: ((old(self)@.next + 1) % 0x1_0000_0000_0000_0000) as u64,
                ..old(self)@
            }),
    {
        let id: u64 = self.next_ws_id;
        self.next_ws_id = self.next_ws_id.wrapping_add(1);
        id
    }

    /// A new workspace with one tab of this size. Returns its number; the
    /// active workspace stays active.
    pub fn new_workspace(&mut self, cols: u16, rows: u16, fresh: TabId) -> (r: u64)
        requires
            old(self).inv(),
            cols >= 1 && rows >= 1,
        ensures
            final(self).inv(),
            r == old(self)@.next,
            final(self)@.next == (old(self)@.next + 1) % 0x1_0000_0000_0000_0000,
            final(self)@.rooms.len() == old(self)@.rooms.len() + 1,
            final(self)@.rooms.drop_last() == old(self)@.rooms,
            final(self)@.active == old(self)@.active,
            ({
                let room = final(self)@.rooms.last();
                &&& room.id == r
                &&& !room.anchored && room.holders == Set::<u64>::empty()
                &&& room.tabs.active == 0 && room.tabs.tabs.len() == 1
                &&& is_new_tab(room.tabs.tabs[0], fresh.number(), cols as int, rows as int)
            }),
    {
        let tab: TabInstance = TabInstance::new(fresh, cols, rows);
        let id: u64 = self.alloc_ws_id();
        self.workspaces.push(
            Workspace { id, tabs: TabList::new(tab), anchored: false, holders: HashSet::new() },
        );
        assert(self@.rooms.drop_last() =~= old(self)@.rooms);
        id
    }

    /// Whether the emulation of a tab can take this output.
    pub fn takes_output(&self, tab_id: u64, bytes: &[u8]) -> (b: bool)
        requires
            self.inv(),
        ensures
            b == self@.takes_output(tab_id, bytes@),
    {
        match self.locate(tab_id) {
            None => true,
            Some((w, t)) => {
                let ws: &Workspace = &self.workspaces[w];
                match ws.tabs.get(t) {
                    Some(tab) => tab.term().takes_output(bytes),
                    None => true,
                }
            },
        }
    }

    /// Whether the emulations of a workspace can be made this wide.
    pub fn takes_width(&self, workspace_id: u64, cols: u16) -> (b: bool)
        requires
            self.inv(),
        ensures
            b == self@.takes_width(workspace_id, cols as int),
    {
        match self.ws_idx(workspace_id) {
            None => true,
            Some(w) => self.workspaces[w].tabs.take_width(cols as usize),
        }
    }

    /// Takes output of a tab's program. Tells whether there is such a tab,
    /// which then is to be redrawn.
    pub fn on_pty_output(&mut self, tab_id: u64, bytes: &[u8]) -> (dirty: bool)
        requires
            old(self).inv(),
            old(self)@.takes_output(tab_id, bytes@),
        ensures
            final(self).inv(),
            dirty == (room_of_tab(old(self)@.rooms, tab_id) is Some),
            old(self)@.after_output(tab_id, bytes@, final(self)@),
    {
        match self.locate(tab_id) {
            None => false,
            Some((w, t)) => {
                let ws = &mut self.workspaces[w];
                ws.tabs.advance_at(t, bytes);
                proof {
                    let after = self@.rooms[w as int].tabs.tabs[t as int];
                    assert(self@.rooms =~= old(self)@.with_tab(w as int, t as int, after).rooms);
                }
                true
            },
        }
    }

    /// Notes that a tab has been drawn; tells whether there is such a tab.
    pub fn clear_dirty(&mut self, tab_id: u64) -> (b: bool)
        requires
            old(self).inv(),
        ensures
            final(self).inv(),
            match room_of_tab(old(self)@.rooms, tab_id) {
                None => !b && final(self)@ == old(self)@,
                Some(w) => {
                    let t = position(old(self)@.rooms[w].tabs.tabs, tab_id)->0;
                    let tab = old(self)@.rooms[w].tabs.tabs[t];
                    b && final(self)@ == old(self)@.with_tab(
                        w,
                        t,
                        Tab { screen: Screen { dirty: false, ..tab.screen }, ..tab },
                    )
                },
            },
    {
        match self.locate(tab_id) {
            None => false,
            Some((w, t)) => {
                let ws = &mut self.workspaces[w];
                ws.tabs.clear_term_dirty_at(t);
                proof {
                    let tab = old(self)@.rooms[w as int].tabs.tabs[t as int];
                    assert(self@.rooms =~= old(self)@.with_tab(
                        w as int,
                        t as int,
                        Tab { screen: Screen { dirty: false, ..tab.screen }, ..tab },
                    ).rooms);
                }
                true
            },
        }
    }

    /// Whether there is a tab with this number.
    pub fn has_tab(&self, tab_id: u64) -> (b: bool)
        ensures
            b == (room_of_tab(self@.rooms, tab_id) is Some),
    {
        self.locate(tab_id).is_some()
    }

    /// The size that a new tab of a workspace gets: that of its active tab.
    pub fn new_tab_size(&self, workspace_id: u64) -> (r: Option<(u16, u16)>)
        requires
            self.inv(),
            self@.has_tabs(workspace_id),
        ensures
            match room_at(self@.rooms, workspace_id) {
                None => r is None,
                Some(w) => r == Some(new_tab_dims(self@.rooms[w].tabs)),
            },
    {
        match self.ws_idx(workspace_id) {
            None => None,
            Some(w) => {
                assert(self@.rooms[w as int].tabs.tabs.len() > 0);
                let (cols, rows) = self.workspaces[w].tabs.active().term().dimensions();
                Some((clamp_u16(cols), clamp_u16(rows)))
            },
        }
    }

    /// Applies an operation to the tabs of a workspace. `fresh` is the number
    /// of the tab that a `New` makes.
    pub fn apply_tab_op(&mut self, workspace_id: u64, op: TabOp, fresh: TabId) -> (r: Result<
        (),
        SessionErr,
    >)
        requires
            old(self).inv(),
            op is New ==> old(self)@.has_tabs(workspace_id) && old(self)@.unused(fresh.number()),
        ensures
            final(self).inv(),
            match room_at(old(self)@.rooms, workspace_id) {
                None => r == Err::<(), SessionErr>(SessionErr::UnknownWorkspace { workspace_id })
                    && final(self)@ == old(self)@,
                Some(w) => {
                    let before = old(self)@.rooms[w].tabs;
                    let after = final(self)@.rooms[w].tabs;
                    &&& r == tab_op_result(before, op)
                    &&& r is Err ==> final(self)@ == old(self)@
                    &&& r is Ok ==> final(self)@ == old(self)@.with_tabs(w, after) && tab_op_done(
                        before,
                        op,
                        fresh.number(),
                        after,
                    )
                },
            },
    {
        let w: usize = match self.ws_idx(workspace_id) {
            Some(w) => w,
            None => {
                return Err(SessionErr::UnknownWorkspace { workspace_id });
            },
        };
        let ghost before = self@.rooms[w as int].tabs;
        proof {
            if op is New {
                assert forall|j: int| 0 <= j < before.tabs.len() implies (
                #[trigger] before.tabs[j]).id != fresh.number() by {
                    assert(self@.rooms[w as int].tabs.tabs[j].id != fresh.number());
                }
            }
        }
        let result: Result<(), SessionErr> = match op {
            TabOp::New => {
                let (cols, rows) = self.workspaces[w].tabs.active().term().dimensions();
                let tab: TabInstance = TabInstance::new(fresh, clamp_u16(cols), clamp_u16(rows));
                let ws = &mut self.workspaces[w];
                let _ = ws.tabs.push(tab);
                assert(self@.rooms[w as int].tabs.tabs.drop_last() =~= before.tabs);
                Ok(())
            },
            TabOp::Close { tab_id } => match self.workspaces[w].tabs.position_of(tab_id) {
                None => Err(SessionErr::UnknownTab { tab_id }),
                Some(t) => {
                    let ws = &mut self.workspaces[w];
                    let _ = ws.tabs.remove(t);
                    Ok(())
                },
            },
            TabOp::Select { idx } => {
                let ws = &mut self.workspaces[w];
                if ws.tabs.set_active(idx) {
                    Ok(())
                } else {
                    Err(SessionErr::NoSuchIndex { idx })
                }
            },
            TabOp::Reorder { origin, target } => {
                let ws = &mut self.workspaces[w];
                if ws.tabs.swap_reorder(origin, target) {
                    Ok(())
                } else {
                    Err(SessionErr::BadReorder { origin, target })
                }
            },
            TabOp::SetTitle { tab_id, title } => match self.workspaces[w].tabs.position_of(
                tab_id,
            ) {
                None => Err(SessionErr::UnknownTab { tab_id }),
                Some(t) => {
                    let ws = &mut self.workspaces[w];
                    ws.tabs.set_title_at(t, title);
                    Ok(())
                },
            },
        };
        proof {
            let after = self@.rooms[w as int].tabs;
            assert(self@.rooms =~= old(self)@.with_tabs(w as int, after).rooms);
            if result is Err {
                assert(self@.rooms =~= old(self)@.rooms);
            }
        }
        result
    }

    /// Changes the size of all tabs of a workspace.
    pub fn resize(&mut self, workspace_id: u64, cols: u16, rows: u16) -> (r: Result<(), SessionErr>)
        requires
            old(self).inv(),
            old(self)@.takes_width(workspace_id, cols as int),
        ensures
            final(self).inv(),
            match room_at(old(self)@.rooms, workspace_id) {
                None => r == Err::<(), SessionErr>(SessionErr::UnknownWorkspace { workspace_id })
                    && final(self)@ == old(self)@,
                Some(w) => {
                    let before = old(self)@.rooms[w].tabs;
                    let after = final(self)@.rooms[w].tabs;
                    &&& r is Ok
                    &&& final(self)@ == old(self)@.with_tabs(w, after)
                    &&& after.active == before.active && after.tabs.len() == before.tabs.len()
                    &&& forall|i: int|
                        0 <= i < before.tabs.len() ==> {
                            &&& #[trigger] after.tabs[i] == (Tab {
                                screen: after.tabs[i].screen,
                                ..before.tabs[i]
                            })
                            &&& before.tabs[i].screen.after_resize(
                                cols as int,
                                rows as int,
                                after.tabs[i].screen,
                            )
                        }
                },
            },
    {
        match self.ws_idx(workspace_id) {
            None => Err(SessionErr::UnknownWorkspace { workspace_id }),
            Some(w) => {
                let ws = &mut self.workspaces[w];
                ws.tabs.resize_all(cols as usize, rows as usize);
                proof {
                    let after = self@.rooms[w as int].tabs;
                    assert(self@.rooms =~= old(self)@.with_tabs(w as int, after).rooms);
                }
                Ok(())
            },
        }
    }

    /// The snapshot of a tab; none where there is no such tab.
    pub fn snapshot(&self, tab_id: u64) -> (r: Option<Snapshot>)
        requires
            self.inv(),
        ensures
            match room_of_tab(self@.rooms, tab_id) {
                None => r is None,
                Some(w) => r is Some && depicts(
                    r->0,
                    self@.rooms[w].id,
                    self@.rooms[w].tabs.tabs[position(self@.rooms[w].tabs.tabs, tab_id)->0],
                ),
            },
    {
        match self.locate(tab_id) {
            None => None,
            Some((w, t)) => {
                let ws: &Workspace = &self.workspaces[w];
                match ws.tabs.get(t) {
                    None => None,
                    Some(tab) => Some(snapshot_of(ws.id, tab)),
                }
            },
        }
    }

    /// The snapshot of the active tab of the active workspace.
    pub fn snapshot_active(&self) -> (r: Snapshot)
        requires
            self.inv(),
            self@.rooms.len() > 0,
            self@.rooms[self@.active].tabs.tabs.len() > 0,
        ensures
            ({
                let room = self@.rooms[self@.active];
                depicts(r, room.id, room.tabs.tabs[room.tabs.active])
            }),
    {
        let ws: &Workspace = &self.workspaces[self.active];
        snapshot_of(ws.id, ws.tabs.active())
    }

    /// The tabs of a workspace; none where there is no such workspace.
    pub fn workspace_info(&self, workspace_id: u64) -> (r: Option<WorkspaceInfo>)
        requires
            self.inv(),
            self@.has_tabs(workspace_id),
        ensures
            match room_at(self@.rooms, workspace_id) {
                None => r is None,
                Some(w) => r is Some && describes(r->0, self@.rooms[w]),
            },
    {
        match self.ws_idx(workspace_id) {
            None => None,
            Some(w) => {
                let ws: &Workspace = &self.workspaces[w];
                assert(self@.rooms[w as int].tabs.tabs.len() > 0);
                let (cols, rows) = ws.tabs.active().term().dimensions();
                let mut tabs: Vec<TabMeta> = Vec::new();
                let mut i: usize = 0;
                while i < ws.tabs.len()
                    invariant
                        ws.tabs.inv(),
                        i <= ws@.tabs.tabs.len(),
                        tabs@.len() == i,
                        forall|j: int| 0 <= j < i ==> lists(#[trigger] tabs@[j], ws@.tabs.tabs[j]),
                    decreases ws@.tabs.tabs.len() - i,
                {
                    if let Some(t) = ws.tabs.get(i) {
                        tabs.push(TabMeta { tab_id: t.id().raw(), title: t.title().to_owned() });
                    }
                    i = i + 1;
                }
                Some(
                    WorkspaceInfo {
                        workspace_id: ws.id,
                        tabs,
                        active: ws.tabs.active_idx(),
                        cols,
                        rows,
                    },
                )
            },
        }
    }

    /// All workspaces. Each is titled as its active tab.
    pub fn workspace_list(&self) -> (r: WorkspaceList)
        requires
            self.inv(),
            self@.rooms.len() > 0,
            self@.peopled(),
        ensures
            r.active == self@.rooms[self@.active].id,
            r.workspaces@.len() == self@.rooms.len(),
            forall|i: int|
                0 <= i < self@.rooms.len() ==> summarizes(
                    #[trigger] r.workspaces@[i],
                    self@.rooms[i],
                    r.active,
                ),
    {
        let active: u64 = self.workspaces[self.active].id;
        let mut workspaces: Vec<WorkspaceMeta> = Vec::new();
        let mut i: usize = 0;
        while i < self.workspaces.len()
            invariant
                self.inv(),
                self@.peopled(),
                i <= self.workspaces@.len() == self@.rooms.len(),
                workspaces@.len() == i,
                forall|j: int|
                    0 <= j < i ==> summarizes(
                        #[trigger] workspaces@[j],
                        self@.rooms[j],
                        active,
                    ),
            decreases self.workspaces@.len() - i,
        {
            let w: &Workspace = &self.workspaces[i];
            assert(self@.rooms[i as int] == w@);
            assert(self@.rooms[i as int].tabs.tabs.len() > 0);
            workspaces.push(
                WorkspaceMeta {
                    id: w.id,
                    title: w.tabs.active().title().to_owned(),
                    tab_count: w.tabs.len(),
                    active: w.id == active,
                },
            );
            i = i + 1;
        }
        WorkspaceList { workspaces, active }
    }

    /// Takes workspace `w` out.
    fn destroy_at(&mut self, w: usize)
        requires
            old(self).inv(),
            w < old(self)@.rooms.len(),
        ensures
            final(self).inv(),
            final(self)@ == old(self)@.without(w as int),
    {
        let _ = self.workspaces.remove(w);
        let n: usize = self.workspaces.len();
        if n == 0 {
            self.active = 0;
        } else if w < self.active {
            self.active = self.active - 1;
        } else if w == self.active && self.active >= n {
            self.active = n - 1;
        }
        assert(self@.rooms =~= old(self)@.rooms.remove(w as int));
    }

    /// The number of those that keep workspace `w` alive.
    fn refcount_is_zero(&self, w: usize) -> (b: bool)
        requires
            w < self@.rooms.len(),
        ensures
            b == (self@.rooms[w as int].refcount() == 0),
    {
        let ws: &Workspace = &self.workspaces[w];
        assert(self@.rooms[w as int] == ws@);
        !ws.anchored && ws.holders.len() == 0
    }

    /// Anchors a workspace or takes its anchor away. Taking it away ends a
    /// workspace that nobody holds.
    pub fn set_anchor(&mut self, ws_id: u64, anchored: bool) -> (r: Lifecycle)
        requires
            old(self).inv(),
        ensures
            final(self).inv(),
            match room_at(old(self)@.rooms, ws_id) {
                None => r == Lifecycle::Unknown && final(self)@ == old(self)@,
                Some(w) => {
                    let next = old(self)@.with_room(
                        w,
                        Room { anchored, ..old(self)@.rooms[w] },
                    );
                    if anchored {
                        r == Lifecycle::Alive && final(self)@ == next
                    } else {
                        r == outcome(next.rooms[w]) && final(self)@ == next.settled(w)
                    }
                },
            },
    {
        match self.ws_idx(ws_id) {
            None => Lifecycle::Unknown,
            Some(w) => {
                let ws = &mut self.workspaces[w];
                ws.anchored = anchored;
                proof {
                    assert(self@.rooms =~= old(self)@.with_room(
                        w as int,
                        Room { anchored, ..old(self)@.rooms[w as int] },
                    ).rooms);
                }
                if !anchored && self.refcount_is_zero(w) {
                    self.destroy_at(w);
                    Lifecycle::Destroyed
                } else {
                    Lifecycle::Alive
                }
            },
        }
    }

    /// Notes that `holder` holds a workspace; tells whether there is one with
    /// this number.
    pub fn hold(&mut self, ws_id: u64, holder: u64) -> (b: bool)
        requires
            old(self).inv(),
        ensures
            final(self).inv(),
            b == (room_at(old(self)@.rooms, ws_id) is Some),
            final(self)@ == old(self)@.held(ws_id, holder),
    {
        match self.ws_idx(ws_id) {
            None => false,
            Some(w) => {
                let ws = &mut self.workspaces[w];
                let _ = ws.holders.insert(holder);
                proof {
                    assert(self@.rooms =~= old(self)@.with_room(
                        w as int,
                        Room {
                            holders: old(self)@.rooms[w as int].holders.insert(holder),
                            ..old(self)@.rooms[w as int]
                        },
                    ).rooms);
                }
                true
            },
        }
    }

    /// Notes that `holder` no longer holds a workspace. Where that is explicit
    /// it ends a workspace that nobody keeps alive; a lost connection ends
    /// none.
    pub fn release(&mut self, ws_id: u64, holder: u64, explicit: bool) -> (r: Lifecycle)
        requires
            old(self).inv(),
        ensures
            final(self).inv(),
            final(self)@ == old(self)@.let_go(ws_id, holder, explicit),
            r == match room_at(old(self)@.rooms, ws_id) {
                None => Lifecycle::Unknown,
                Some(w) => if explicit {
                    outcome(
                        Room {
                            holders: old(self)@.rooms[w].holders.remove(holder),
                            ..old(self)@.rooms[w]
                        },
                    )
                } else {
                    Lifecycle::Alive
                },
            },
    {
        match self.ws_idx(ws_id) {
            None => Lifecycle::Unknown,
            Some(w) => {
                let ws = &mut self.workspaces[w];
                let _ = ws.holders.remove(&holder);
                proof {
                    assert(self@.rooms =~= old(self)@.with_room(
                        w as int,
                        Room {
                            holders: old(self)@.rooms[w as int].holders.remove(holder),
                            ..old(self)@.rooms[w as int]
                        },
                    ).rooms);
                }
                if explicit && self.refcount_is_zero(w) {
                    self.destroy_at(w);
                    Lifecycle::Destroyed
                } else {
                    Lifecycle::Alive
                }
            },
        }
    }

    /// How many keep a workspace alive; none where there is no such workspace.
    pub fn refcount(&self, ws_id: u64) -> (r: Option<usize>)
        requires
            self.inv(),
            forall|i: int|
                0 <= i < self@.rooms.len() ==> (#[trigger] self@.rooms[i]).holders.len()
                    < usize::MAX,
        ensures
            match room_at(self@.rooms, ws_id) {
                None => r is None,
                Some(w) => r is Some && r->0 == self@.rooms[w].refcount(),
            },
    {
        match self.ws_idx(ws_id) {
            None => None,
            Some(w) => {
                let ws: &Workspace = &self.workspaces[w];
                assert(self@.rooms[w as int] == ws@);
                let n: usize = ws.holders.len();
                if ws.anchored {
                    Some(n + 1)
                } else {
                    Some(n)
                }
            },
        }
    }
}

/// What an explicit act makes of a workspace.
pub open spec fn outcome(room: Room) -> Lifecycle {
    if room.refcount() == 0 {
        Lifecycle::Destroyed
    } else {
        Lifecycle::Alive
    }
}

/// The size that a new tab gets: that of the active one.
pub open spec fn new_tab_dims(tabs: Tabs) -> (u16, u16) {
    let facts = tabs.tabs[tabs.active].screen.facts;
    (clamp16(facts.columns as int) as u16, clamp16(facts.lines as int) as u16)
}

/// A tab that has just been made.
pub open spec fn is_new_tab(t: Tab, id: u64, cols: int, rows: int) -> bool {
    &&& t.id == id
    &&& t.title == "shell"@
    &&& t.dirty
    &&& t.screen.is_new(cols, rows)
}

/// Whether an operation on tabs is refused, and why.
pub open spec fn tab_op_result(tabs: Tabs, op: TabOp) -> Result<(), SessionErr> {
    let n = tabs.tabs.len();
    match op {
        TabOp::New => Ok(()),
        TabOp::Close { tab_id } => if position(tabs.tabs, tab_id) is Some {
            Ok(())
        } else {
            Err(SessionErr::UnknownTab { tab_id })
        },
        TabOp::Select { idx } => if idx < n {
            Ok(())
        } else {
            Err(SessionErr::NoSuchIndex { idx })
        },
        TabOp::Reorder { origin, target } => if origin < n && target < n && origin != target {
            Ok(())
        } else {
            Err(SessionErr::BadReorder { origin, target })
        },
        TabOp::SetTitle { tab_id, title } => if position(tabs.tabs, tab_id) is Some {
            Ok(())
        } else {
            Err(SessionErr::UnknownTab { tab_id })
        },
    }
}

/// What an operation that is not refused makes of the tabs.
pub open spec fn tab_op_done(before: Tabs, op: TabOp, fresh: u64, after: Tabs) -> bool {
    match op {
        TabOp::New => {
            let (cols, rows) = new_tab_dims(before);
            &&& after.active == before.active
            &&& after.tabs.len() == before.tabs.len() + 1
            &&& after.tabs.drop_last() == before.tabs
            &&& is_new_tab(after.tabs.last(), fresh, cols as int, rows as int)
        },
        TabOp::Close { tab_id } => after == before.without(position(before.tabs, tab_id)->0),
        TabOp::Select { idx } => after == (Tabs { active: idx as int, ..before }),
        TabOp::Reorder { origin, target } => after == before.exchanged(
            origin as int,
            target as int,
        ),
        TabOp::SetTitle { tab_id, title } => {
            let t = position(before.tabs, tab_id)->0;
            after == (Tabs {
                tabs: before.tabs.update(t, Tab { title: title@, ..before.tabs[t] }),
                ..before
            })
        },
    }
}

/// The entry tells the tab's number and title.
pub open spec fn lists(m: TabMeta, t: Tab) -> bool {
    m.tab_id == t.id && m.title@ == t.title
}

/// The message tells the tabs of the workspace, and the size of the active
/// one.
pub open spec fn describes(info: WorkspaceInfo, room: Room) -> bool {
    let facts = room.tabs.tabs[room.tabs.active].screen.facts;
    &&& info.workspace_id == room.id
    &&& info.active == room.tabs.active
    &&& info.cols == facts.columns
    &&& info.rows == facts.lines
    &&& info.tabs@.len() == room.tabs.tabs.len()
    &&& forall|i: int|
        0 <= i < room.tabs.tabs.len() ==> lists(#[trigger] info.tabs@[i], room.tabs.tabs[i])
}

/// The entry tells the workspace's number, the title of its active tab and how
/// many tabs it has.
pub open spec fn summarizes(m: WorkspaceMeta, room: Room, active: u64) -> bool {
    &&& m.id == room.id
    &&& m.title@ == room.tabs.tabs[room.tabs.active].title
    &&& m.tab_count == room.tabs.tabs.len()
    &&& m.active == (room.id == active)
}

/// The snapshot shows the tab.
pub open spec fn depicts(s: Snapshot, workspace_id: u64, t: Tab) -> bool {
    let facts = t.screen.facts;
    &&& s.workspace_id == workspace_id
    &&& s.tab_id == t.id
    &&& s.title@ == t.title
    &&& s.cols == facts.columns
    &&& s.rows == facts.lines
    &&& s.cells@ == shown_cells(t.screen, facts.lines as int).map_values(|c: CellRef| cell_wire(c))
    &&& s.row_texts@.len() == facts.lines
    &&& forall|r: int|
        0 <= r < facts.lines ==> (#[trigger] s.row_texts@[r])@ == row_text(
            t.screen.screen_row(r),
            facts.columns as int,
        )
    &&& s.cursor.col == facts.cursor_col
    &&& s.cursor.line == (if facts.cursor_line > 0 {
        facts.cursor_line as int
    } else {
        0
    })
    &&& s.cursor.visible == (facts.offset == 0 && facts.show_cursor)
    &&& s.cursor.shape == shape_wire(facts.shape)
}

/// The snapshot of a tab.
fn snapshot_of(workspace_id: u64, tab: &TabInstance) -> (r: Snapshot)
    requires
        tab.inv(),
    ensures
        depicts(r, workspace_id, tab@),
{
    let term = tab.term();
    let (cols, rows) = term.dimensions();
    let shown: Vec<CellRef> = term.cells_iter();
    let ghost wires = shown@.map_values(|c: CellRef| cell_wire(c));
    let mut cells: Vec<CellWire> = Vec::new();
    let mut i: usize = 0;
    assert(cells@ =~= wires.take(0));
    while i < shown.len()
        invariant
            i <= shown@.len(),
            wires == shown@.map_values(|c: CellRef| cell_wire(c)),
            cells@ == wires.take(i as int),
        decreases shown@.len() - i,
    {
        cells.push(CellWire::from(shown[i]));
        assert(wires.take(i + 1) =~= wires.take(i as int).push(wires[i as int]));
        i = i + 1;
    }
    assert(wires.take(wires.len() as int) =~= wires);
    let mut row_texts: Vec<String> = Vec::new();
    let mut r: usize = 0;
    while r < rows
        invariant
            term.inv(),
            term@ == tab@.screen,
            r <= rows == term@.facts.lines,
            row_texts@.len() == r,
            forall|k: int|
                0 <= k < r ==> (#[trigger] row_texts@[k])@ == row_text(
                    term@.screen_row(k),
                    term@.facts.columns as int,
                ),
        decreases rows - r,
    {
        row_texts.push(term.line_text(r));
        r = r + 1;
    }
    let at = term.cursor_pos();
    let cursor = CursorWire {
        col: at.col,
        line: at.line,
        visible: term.cursor_visible(),
        shape: CursorShapeWire::from(term.cursor_shape()),
    };
    Snapshot {
        workspace_id,
        tab_id: tab.id().raw(),
        cols,
        rows,
        cells,
        row_texts,
        cursor,
        title: tab.title().to_owned(),
    }
}

/// A client that loses its connection ends no workspace: all are still there,
/// in the same order, with the same tabs.
pub proof fn law_disconnect_ends_nothing(h: House, ws_id: u64, holder: u64)
    ensures
        h.let_go(ws_id, holder, false).rooms.map_values(|r: Room| (r.id, r.tabs))
            == h.rooms.map_values(|r: Room| (r.id, r.tabs)),
        h.let_go(ws_id, holder, false).active == h.active,
{
    lemma_room_at_is(h.rooms, ws_id);
    assert(h.let_go(ws_id, holder, false).rooms.map_values(|r: Room| (r.id, r.tabs))
        =~= h.rooms.map_values(|r: Room| (r.id, r.tabs)));
}

/// An anchored workspace survives whatever its holders do.
pub proof fn law_anchor_keeps_alive(room: Room)
    requires
        room.anchored,
    ensures
        outcome(room) == Lifecycle::Alive,
{
}

/// Holding twice counts once, and letting go restores what was.
pub proof fn law_hold_is_idempotent(room: Room, holder: u64)
    ensures
        room.holders.insert(holder).insert(holder) == room.holders.insert(holder),
        !room.holders.contains(holder) ==> room.holders.insert(holder).remove(holder)
            == room.holders,
{
    assert(room.holders.insert(holder).insert(holder) =~= room.holders.insert(holder));
    if !room.holders.contains(holder) {
        assert(room.holders.insert(holder).remove(holder) =~= room.holders);
    }
}

/// Ending a workspace that is not active keeps the active one active, and the
/// session valid.
pub proof fn law_end_keeps_active(h: House, w: int)
    requires
        h.wf(),
        0 <= w < h.rooms.len(),
    ensures
        h.without(w).wf(),
        w != h.active ==> h.without(w).rooms[h.without(w).active] == h.rooms[h.active],
{
}

} // verus!
