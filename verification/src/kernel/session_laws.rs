//! What a session does with its workspaces and their tabs, one act at a time.

use crate::kernel::proto::{cell_wire, Snapshot, TabOp, WorkspaceInfo, WorkspaceMeta};
use crate::kernel::session::{
    depicts, describes, lemma_room_at_is, lemma_room_of_tab_is, outcome, room_at, room_of_tab,
    summarizes, tab_op_done, tab_op_result, House, Lifecycle, Room, SessionErr,
};
use crate::tab::{lemma_position_is, position, Tab, Tabs};
use crate::term::grid::laid_out;
use crate::term::palette::resolved;
use crate::term::screen_laws::{law_cells_in_their_places, law_row_text, letters};
use crate::term::shown_cells;
use vstd::prelude::*;

verus! {

/// The workspace at `k` is the first with this number.
pub open spec fn is_room(h: House, ws_id: u64, k: int) -> bool {
    &&& 0 <= k < h.rooms.len()
    &&& h.rooms[k].id == ws_id
    &&& forall|j: int| 0 <= j < k ==> (#[trigger] h.rooms[j]).id != ws_id
}

/// No workspace has this number.
pub open spec fn is_no_room(h: House, ws_id: u64) -> bool {
    forall|j: int| 0 <= j < h.rooms.len() ==> (#[trigger] h.rooms[j]).id != ws_id
}

proof fn lemma_first_room(rs: Seq<Room>, id: u64, k: int)
    requires
        0 <= k < rs.len(),
        rs[k].id == id,
        forall|j: int| 0 <= j < k ==> (#[trigger] rs[j]).id != id,
    ensures
        room_at(rs, id) == Some(k),
    decreases k,
{
    if k > 0 {
        assert(rs[0].id != id);
        let rest = rs.skip(1);
        assert forall|j: int| 0 <= j < k - 1 implies (#[trigger] rest[j]).id != id by {
            assert(rest[j] == rs[j + 1]);
        }
        lemma_first_room(rest, id, k - 1);
    }
}

/// A workspace is found by its number, and a tab in the first workspace that
/// has one of its number.
pub proof fn law_workspaces_are_found(h: House, ws_id: u64, tab_id: u64, k: int, t: int)
    ensures
        is_room(h, ws_id, k) ==> room_at(h.rooms, ws_id) == Some(k),
        is_no_room(h, ws_id) ==> room_at(h.rooms, ws_id) is None,
        0 <= k < h.rooms.len() && 0 <= t < h.rooms[k].tabs.tabs.len() && h.rooms[k].tabs.tabs[t].id
            == tab_id ==> match room_of_tab(h.rooms, tab_id) {
            Some(w) => 0 <= w <= k && position(h.rooms[w].tabs.tabs, tab_id) is Some,
            None => false,
        },
        (forall|i: int, j: int|
            0 <= i < h.rooms.len() && 0 <= j < h.rooms[i].tabs.tabs.len()
                ==> #[trigger] h.rooms[i].tabs.tabs[j].id != tab_id) ==> room_of_tab(
            h.rooms,
            tab_id,
        ) is None,
{
    if is_room(h, ws_id, k) {
        lemma_first_room(h.rooms, ws_id, k);
    }
    lemma_room_at_is(h.rooms, ws_id);
    lemma_room_of_tab_is(h.rooms, tab_id);
    if 0 <= k < h.rooms.len() && 0 <= t < h.rooms[k].tabs.tabs.len() && h.rooms[k].tabs.tabs[t].id
        == tab_id {
        lemma_position_is(h.rooms[k].tabs.tabs, tab_id);
        lemma_some_room(h.rooms, tab_id, k);
    }
    if let Some(w) = room_of_tab(h.rooms, tab_id) {
        lemma_position_is(h.rooms[w].tabs.tabs, tab_id);
        let p = position(h.rooms[w].tabs.tabs, tab_id)->0;
        assert(h.rooms[w].tabs.tabs[p].id == tab_id);
    }
}

proof fn lemma_some_room(rs: Seq<Room>, tab_id: u64, k: int)
    requires
        0 <= k < rs.len(),
        position(rs[k].tabs.tabs, tab_id) is Some,
    ensures
        match room_of_tab(rs, tab_id) {
            Some(w) => 0 <= w <= k,
            None => false,
        },
    decreases k,
{
    if k > 0 && position(rs[0].tabs.tabs, tab_id) is None {
        assert(rs.skip(1)[k - 1] == rs[k]);
        lemma_some_room(rs.skip(1), tab_id, k - 1);
    }
}

/// Who holds a workspace is added to those who hold it, and nothing else
/// changes.
pub proof fn law_holder_is_noted(h: House, ws_id: u64, holder: u64, k: int)
    ensures
        is_room(h, ws_id, k) ==> ({
            let next = h.held(ws_id, holder);
            &&& next.rooms.len() == h.rooms.len() && next.active == h.active && next.next == h.next
            &&& forall|x: u64| #[trigger]
                next.rooms[k].holders.contains(x) <==> x == holder || h.rooms[k].holders.contains(x)
            &&& next.rooms[k].id == ws_id && next.rooms[k].tabs == h.rooms[k].tabs
            &&& next.rooms[k].anchored == h.rooms[k].anchored
            &&& forall|j: int|
                0 <= j < h.rooms.len() && j != k ==> #[trigger] next.rooms[j] == h.rooms[j]
        }),
        is_no_room(h, ws_id) ==> h.held(ws_id, holder) == h,
{
    law_workspaces_are_found(h, ws_id, 0, k, 0);
}

/// Who lets a workspace go no longer holds it. Where that is explicit, nobody
/// else holds it and it is not anchored, it ends, and no other does; in all
/// other cases it stays, with its tabs.
pub proof fn law_release_ends_what_nobody_keeps(
    h: House,
    ws_id: u64,
    holder: u64,
    explicit: bool,
    k: int,
    other: u64,
)
    requires
        forall|j: int| 0 <= j < h.rooms.len() ==> (#[trigger] h.rooms[j]).holders.finite(),
    ensures
        is_room(h, ws_id, k) && (!explicit || h.rooms[k].anchored || (other != holder
            && h.rooms[k].holders.contains(other))) ==> ({
            let next = h.let_go(ws_id, holder, explicit);
            &&& next.rooms.len() == h.rooms.len() && next.active == h.active && next.next == h.next
            &&& next.rooms[k].id == ws_id && next.rooms[k].tabs == h.rooms[k].tabs
            &&& next.rooms[k].anchored == h.rooms[k].anchored
            &&& forall|x: u64| #[trigger]
                next.rooms[k].holders.contains(x) <==> x != holder && h.rooms[k].holders.contains(x)
            &&& forall|j: int|
                0 <= j < h.rooms.len() && j != k ==> #[trigger] next.rooms[j] == h.rooms[j]
        }),
        is_room(h, ws_id, k) && explicit && !h.rooms[k].anchored && (forall|x: u64|
            #[trigger] h.rooms[k].holders.contains(x) ==> x == holder) ==> ({
            let next = h.let_go(ws_id, holder, explicit);
            &&& next.rooms.len() == h.rooms.len() - 1 && next.next == h.next
            &&& forall|j: int| 0 <= j < k ==> #[trigger] next.rooms[j] == h.rooms[j]
            &&& forall|j: int|
                k < j < h.rooms.len() ==> next.rooms[j - 1] == #[trigger] h.rooms[j]
        }),
        is_no_room(h, ws_id) ==> h.let_go(ws_id, holder, explicit) == h,
{
    law_workspaces_are_found(h, ws_id, 0, k, 0);
    if is_room(h, ws_id, k) {
        let before = h.rooms[k].holders;
        let left = before.remove(holder);
        assert(before.finite());
        if other != holder && before.contains(other) {
            assert(left.contains(other));
            assert(left.len() > 0) by {
                if left.len() == 0 {
                    assert(left =~= Set::empty());
                }
            }
        }
        if forall|x: u64| #[trigger] before.contains(x) ==> x == holder {
            assert(left =~= Set::empty());
        }
    }
}

/// To say what became of a workspace: it is alive where it is anchored or
/// somebody holds it, and else it has ended.
pub proof fn law_outcome(room: Room, holder: u64)
    requires
        room.holders.finite(),
    ensures
        room.anchored || room.holders.contains(holder) ==> outcome(room) == Lifecycle::Alive,
        !room.anchored && room.holders == Set::<u64>::empty() ==> outcome(room)
            == Lifecycle::Destroyed,
{
    if room.holders.contains(holder) && room.holders.len() == 0 {
        assert(room.holders =~= Set::empty());
    }
}

/// A workspace is kept by its anchor and by each of its holders, each counted
/// once.
pub proof fn law_keepers_are_counted(room: Room, holder: u64)
    requires
        room.holders.finite(),
    ensures
        !room.anchored && room.holders == Set::<u64>::empty() ==> room.refcount() == 0,
        (Room { anchored: true, ..room }).refcount() == (Room {
            anchored: false,
            ..room
        }).refcount() + 1,
        !room.holders.contains(holder) ==> (Room {
            holders: room.holders.insert(holder),
            ..room
        }).refcount() == room.refcount() + 1,
        room.holders.contains(holder) ==> (Room {
            holders: room.holders.insert(holder),
            ..room
        }).refcount() == room.refcount(),
{
    if room.holders.contains(holder) {
        assert(room.holders.insert(holder) =~= room.holders);
    }
}

/// A workspace that loses its anchor ends where nobody holds it, and stays
/// where somebody does. When the active one ends, the next takes its place, or
/// the last.
pub proof fn law_settled(h: House, k: int, holder: u64)
    requires
        h.wf(),
        0 <= k < h.rooms.len(),
        h.rooms[k].holders.finite(),
    ensures
        h.rooms[k].anchored || h.rooms[k].holders.contains(holder) ==> h.settled(k) == h,
        !h.rooms[k].anchored && h.rooms[k].holders == Set::<u64>::empty() ==> ({
            let next = h.settled(k);
            &&& next.rooms.len() == h.rooms.len() - 1 && next.next == h.next
            &&& forall|j: int| 0 <= j < k ==> #[trigger] next.rooms[j] == h.rooms[j]
            &&& forall|j: int|
                k < j < h.rooms.len() ==> next.rooms[j - 1] == #[trigger] h.rooms[j]
            &&& k != h.active ==> next.rooms[next.active] == h.rooms[h.active]
            &&& k == h.active && k + 1 < h.rooms.len() ==> next.rooms[next.active] == h.rooms[k + 1]
            &&& k == h.active && k + 1 == h.rooms.len() && k > 0 ==> next.rooms[next.active]
                == h.rooms[k - 1]
            &&& h.rooms.len() == 1 ==> next.active == 0
        }),
{
    if h.rooms[k].holders.contains(holder) && h.rooms[k].holders.len() == 0 {
        assert(h.rooms[k].holders =~= Set::empty());
    }
}

/// The tab at `k` has this number.
pub open spec fn is_tab(t: Tabs, tab_id: u64, k: int) -> bool {
    0 <= k < t.tabs.len() && t.tabs[k].id == tab_id
}

/// No tab has this number.
pub open spec fn is_no_tab(t: Tabs, tab_id: u64) -> bool {
    forall|j: int| 0 <= j < t.tabs.len() ==> (#[trigger] t.tabs[j]).id != tab_id
}

/// An operation is refused where what it names is not there, and only there.
pub proof fn law_operations_are_refused(
    t: Tabs,
    tab_id: u64,
    title: String,
    a: usize,
    b: usize,
    k: int,
)
    ensures
        tab_op_result(t, TabOp::New) is Ok,
        is_tab(t, tab_id, k) ==> tab_op_result(t, TabOp::Close { tab_id }) is Ok,
        is_tab(t, tab_id, k) ==> tab_op_result(t, TabOp::SetTitle { tab_id, title }) is Ok,
        is_no_tab(t, tab_id) ==> tab_op_result(t, TabOp::Close { tab_id }) == Err::<
            (),
            SessionErr,
        >(SessionErr::UnknownTab { tab_id }),
        is_no_tab(t, tab_id) ==> tab_op_result(t, TabOp::SetTitle { tab_id, title }) == Err::<
            (),
            SessionErr,
        >(SessionErr::UnknownTab { tab_id }),
        a < t.tabs.len() ==> tab_op_result(t, TabOp::Select { idx: a }) is Ok,
        a >= t.tabs.len() ==> tab_op_result(t, TabOp::Select { idx: a }) == Err::<(), SessionErr>(
            SessionErr::NoSuchIndex { idx: a },
        ),
        a != b && a < t.tabs.len() && b < t.tabs.len() ==> tab_op_result(
            t,
            TabOp::Reorder { origin: a, target: b },
        ) is Ok,
        a == b || a >= t.tabs.len() || b >= t.tabs.len() ==> tab_op_result(
            t,
            TabOp::Reorder { origin: a, target: b },
        ) == Err::<(), SessionErr>(SessionErr::BadReorder { origin: a, target: b }),
{
    lemma_position_is(t.tabs, tab_id);
}

/// What the operations do: a new tab goes to the end, under its number, with the
/// title `shell` and the size of the active one, and does not become active; a
/// close takes that tab out and no other; a select makes the tab active; a
/// reorder exchanges two and the active tab stays active; a title is that tab's.
pub proof fn law_operations_do_their_part(
    t: Tabs,
    after: Tabs,
    tab_id: u64,
    title: String,
    a: usize,
    b: usize,
    fresh: u64,
    k: int,
)
    requires
        t.wf(),
    ensures
        tab_op_done(t, TabOp::New, fresh, after) ==> {
            let made = after.tabs.last();
            let size = t.tabs[t.active].screen.facts;
            &&& after.tabs.len() == t.tabs.len() + 1 && after.active == t.active
            &&& forall|j: int| 0 <= j < t.tabs.len() ==> #[trigger] after.tabs[j] == t.tabs[j]
            &&& made.id == fresh && made.title == "shell"@ && made.dirty
            &&& 1 <= size.columns <= 65535 ==> made.screen.facts.columns == size.columns
            &&& 1 <= size.lines <= 65535 ==> made.screen.facts.lines == size.lines
        },
        tab_op_done(t, TabOp::Close { tab_id }, fresh, after) && is_tab(t, tab_id, k) ==> {
            &&& after.tabs.len() == t.tabs.len() - 1
            &&& is_no_tab(after, tab_id)
            &&& forall|j: int| 0 <= j < k ==> #[trigger] after.tabs[j] == t.tabs[j]
            &&& forall|j: int| k < j < t.tabs.len() ==> after.tabs[j - 1] == #[trigger] t.tabs[j]
            &&& k != t.active ==> after.tabs[after.active] == t.tabs[t.active]
            &&& k == t.active && k > 0 ==> after.tabs[after.active] == t.tabs[k - 1]
        },
        tab_op_done(t, TabOp::Select { idx: a }, fresh, after) ==> after.active == a && after.tabs
            == t.tabs,
        tab_op_done(t, TabOp::Reorder { origin: a, target: b }, fresh, after) && a < t.tabs.len()
            && b < t.tabs.len() ==> {
            &&& after.tabs.len() == t.tabs.len()
            &&& after.tabs[a as int] == t.tabs[b as int] && after.tabs[b as int]
                == t.tabs[a as int]
            &&& forall|j: int|
                0 <= j < t.tabs.len() && j != a && j != b ==> #[trigger] after.tabs[j] == t.tabs[j]
            &&& after.tabs[after.active] == t.tabs[t.active]
        },
        tab_op_done(t, TabOp::SetTitle { tab_id, title }, fresh, after) && is_tab(t, tab_id, k)
            ==> {
            &&& after.tabs.len() == t.tabs.len() && after.active == t.active
            &&& after.tabs[k].title == title@ && after.tabs[k].id == tab_id
            &&& after.tabs[k].screen == t.tabs[k].screen && after.tabs[k].dirty == t.tabs[k].dirty
            &&& forall|j: int|
                0 <= j < t.tabs.len() && j != k ==> #[trigger] after.tabs[j] == t.tabs[j]
        },
{
    if tab_op_done(t, TabOp::New, fresh, after) {
        assert forall|j: int| 0 <= j < t.tabs.len() implies #[trigger] after.tabs[j]
            == t.tabs[j] by {
            assert(after.tabs.drop_last()[j] == after.tabs[j]);
        }
    }
    lemma_position_is(t.tabs, tab_id);
    if is_tab(t, tab_id, k) {
        assert(position(t.tabs, tab_id) == Some(k));
    }
}

/// What is told of a workspace: its number, the size of its active tab, which
/// one that is, and each tab's number and title in order.
pub proof fn law_workspace_is_described(
    info: WorkspaceInfo,
    m: WorkspaceMeta,
    room: Room,
    active: u64,
)
    ensures
        describes(info, room) ==> {
            let size = room.tabs.tabs[room.tabs.active].screen.facts;
            &&& info.workspace_id == room.id && info.active == room.tabs.active
            &&& info.cols == size.columns && info.rows == size.lines
            &&& info.tabs@.len() == room.tabs.tabs.len()
            &&& forall|i: int|
                0 <= i < room.tabs.tabs.len() ==> (#[trigger] info.tabs@[i]).tab_id
                    == room.tabs.tabs[i].id && info.tabs@[i].title@ == room.tabs.tabs[i].title
        },
        summarizes(m, room, active) ==> {
            &&& m.id == room.id && m.tab_count == room.tabs.tabs.len()
            &&& m.title@ == room.tabs.tabs[room.tabs.active].title
            &&& m.active <==> room.id == active
        },
{
}

/// A snapshot shows the tab as it is: its numbers, title and size, each cell that
/// is displayed at its place in its colours, the text of each line of the screen,
/// and the cursor where it is, unless the history is displayed.
pub proof fn law_snapshot_shows_the_tab(s: Snapshot, ws: u64, t: Tab, line: int, col: int)
    requires
        depicts(s, ws, t),
        laid_out(t.screen.rows, t.screen.facts),
        0 <= line < t.screen.facts.lines,
        0 <= col < t.screen.facts.columns,
    ensures
        s.workspace_id == ws && s.tab_id == t.id && s.title@ == t.title,
        s.cols == t.screen.facts.columns && s.rows == t.screen.facts.lines,
        s.cells@.len() == t.screen.facts.lines * t.screen.facts.columns,
        s.row_texts@.len() == t.screen.facts.lines,
        ({
            let rows = t.screen.rows;
            let top = rows.len() - t.screen.facts.lines;
            let k = line * t.screen.facts.columns + col;
            let cell = rows[top - t.screen.facts.offset + line][col];
            let w = s.cells@[k];
            &&& 0 <= k < s.cells@.len()
            &&& w.line == line && w.col == col && w.c == cell.c
            &&& w.fg.r == resolved(cell.fg).r && w.fg.g == resolved(cell.fg).g && w.fg.b == resolved(
                cell.fg,
            ).b
            &&& w.bg.r == resolved(cell.bg).r && w.bg.g == resolved(cell.bg).g && w.bg.b == resolved(
                cell.bg,
            ).b
            &&& s.row_texts@[line]@ == letters(rows[top + line])
        }),
        s.cursor.col == t.screen.facts.cursor_col,
        t.screen.facts.cursor_line >= 0 ==> s.cursor.line == t.screen.facts.cursor_line,
        s.cursor.visible <==> t.screen.facts.offset == 0 && t.screen.facts.show_cursor,
{
    law_cells_in_their_places(t.screen, line, col);
    let row = t.screen.screen_row(line);
    let at = t.screen.history() + line;
    assert(t.screen.rows[at].len() == t.screen.facts.columns);
    law_row_text(row);
    let cells = shown_cells(t.screen, t.screen.facts.lines as int);
    let k = line * t.screen.facts.columns + col;
    assert(s.cells@[k] == cell_wire(cells[k]));
}

} // verus!
