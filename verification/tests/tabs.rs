//! Tabs, and the session that holds them.

use quill::kernel::proto::TabOp;
use quill::kernel::session::{clamp_u16, Lifecycle, Session, SessionErr};
use quill::tab::{neighbor_active_after_close, TabInstance, TabList, TabRegistry};
use quill::term::{CellPos, CursorShape};

fn tab(ids: &mut TabRegistry, title: &str) -> TabInstance {
    let mut t = TabInstance::new(ids.next_id(), 80, 24);
    t.set_title(title.to_string());
    t.clear_dirty();
    t
}

fn session_one_tab(ids: &mut TabRegistry) -> Session {
    let t = tab(ids, "shell");
    Session::new(TabList::new(t))
}

#[test]
fn neighbor_close_left_shifts_active_down() {
    assert_eq!(neighbor_active_after_close(2, 0, 4), 1);
}

#[test]
fn neighbor_close_right_keeps_active() {
    assert_eq!(neighbor_active_after_close(1, 3, 4), 1);
}

#[test]
fn neighbor_close_active_idx_pos_picks_left() {
    assert_eq!(neighbor_active_after_close(2, 2, 4), 1);
}

#[test]
fn neighbor_close_active_idx_zero_stays_zero() {
    assert_eq!(neighbor_active_after_close(0, 0, 3), 0);
}

#[test]
fn neighbor_close_last_tab_returns_zero() {
    assert_eq!(neighbor_active_after_close(0, 0, 1), 0);
}

#[test]
fn tab_registry_monotonic() {
    let mut ids = TabRegistry::new();
    let a = ids.next_id();
    let b = ids.next_id();
    let c = ids.next_id();
    assert_eq!(a.raw(), 1);
    assert_eq!(b.raw(), 2);
    assert_eq!(c.raw(), 3);
    assert!(a < b && b < c);
}

#[test]
fn tab_instance_for_test_distinct_ids() {
    let mut ids = TabRegistry::new();
    let a = tab(&mut ids, "a");
    let b = tab(&mut ids, "b");
    assert_ne!(a.id(), b.id());
}

#[test]
fn tab_list_push_returns_idx_and_id() {
    let mut ids = TabRegistry::new();
    let initial = tab(&mut ids, "0");
    let initial_id = initial.id();
    let mut list = TabList::new(initial);
    let new_tab = tab(&mut ids, "1");
    let new_id = new_tab.id();
    let (idx, ret_id) = list.push(new_tab);
    assert_eq!(idx, 1);
    assert_eq!(ret_id, new_id);
    assert_eq!(list.len(), 2);
    assert_eq!(list.idx_of(initial_id), Some(0));
    assert_eq!(list.idx_of(new_id), Some(1));
}

#[test]
fn tab_list_set_active_out_of_bounds_returns_false() {
    let mut ids = TabRegistry::new();
    let mut list = TabList::new(tab(&mut ids, "0"));
    assert!(!list.set_active(5));
    assert_eq!(list.active_idx(), 0);
}

#[test]
fn tab_list_swap_reorder_active_follows_id() {
    let mut ids = TabRegistry::new();
    let mut list = TabList::new(tab(&mut ids, "0"));
    list.push(tab(&mut ids, "1"));
    list.push(tab(&mut ids, "2"));
    assert!(list.set_active(2));
    let active_id = list.active().id();
    assert!(list.swap_reorder(2, 0));
    assert_eq!(list.active_idx(), 0);
    assert_eq!(list.active().id(), active_id);
}

#[test]
fn tab_list_remove_active_picks_neighbor() {
    let mut ids = TabRegistry::new();
    let mut list = TabList::new(tab(&mut ids, "0"));
    list.push(tab(&mut ids, "1"));
    list.push(tab(&mut ids, "2"));
    list.set_active(2);
    let removed = list.remove(2);
    assert!(removed.is_some());
    assert_eq!(list.active_idx(), 1);
    assert_eq!(list.len(), 2);
}

#[test]
fn tab_list_remove_last_tab_empties_list() {
    let mut ids = TabRegistry::new();
    let mut list = TabList::new(tab(&mut ids, "0"));
    let removed = list.remove(0);
    assert!(removed.is_some());
    assert!(list.is_empty());
}

#[test]
fn tab_list_remove_out_of_bounds_returns_none() {
    let mut ids = TabRegistry::new();
    let mut list = TabList::new(tab(&mut ids, "0"));
    assert!(list.remove(99).is_none());
    assert_eq!(list.len(), 1);
}

#[test]
fn tab_list_active_returns_correct_tab() {
    let mut ids = TabRegistry::new();
    let mut list = TabList::new(tab(&mut ids, "first"));
    list.push(tab(&mut ids, "second"));
    list.set_active(1);
    assert_eq!(list.active().title(), "second");
}

#[test]
fn tab_instance_set_title_updates() {
    let mut ids = TabRegistry::new();
    let mut t = tab(&mut ids, "orig");
    t.set_title("new".to_string());
    assert_eq!(t.title(), "new");
}

#[test]
fn tab_instance_dirty_lifecycle() {
    let mut ids = TabRegistry::new();
    let mut t = tab(&mut ids, "a");
    assert!(!t.dirty());
    t.mark_dirty();
    assert!(t.dirty());
    t.clear_dirty();
    assert!(!t.dirty());
}

#[test]
fn a_new_tab_is_a_dirty_shell() {
    let mut ids = TabRegistry::new();
    let t = TabInstance::new(ids.next_id(), 100, 30);
    assert_eq!(t.title(), "shell");
    assert!(t.dirty());
    assert_eq!(t.term().dimensions(), (100, 30));
}

#[test]
fn a_new_tab_has_a_blank_screen_to_be_drawn() {
    let mut ids = TabRegistry::new();
    let mut s = session_one_tab(&mut ids);
    let ws1 = s.active_workspace_id();
    let ws2 = s.new_workspace(8, 3, ids.next_id());
    let mut made = Vec::new();
    s.apply_tab_op(ws1, TabOp::New, ids.next_id()).unwrap();
    made.push(s.tabs().get(1).unwrap().term().dimensions());
    blank(s.tabs().get(1).unwrap());
    assert!(s.set_active_workspace(ws2));
    made.push(s.tabs().active().term().dimensions());
    blank(s.tabs().active());
    assert_eq!(made, vec![(80, 24), (8, 3)]);
}

fn blank(tab: &TabInstance) {
    let term = tab.term();
    assert!(tab.dirty() && term.is_dirty());
    assert_eq!(term.cursor_pos(), CellPos { col: 0, line: 0 });
    assert!(term.cursor_visible());
    assert_eq!(term.cursor_shape(), CursorShape::Block);
    assert_eq!((term.scrollback_size(), term.display_offset()), (0, 0));
    assert!(term.cells_iter().iter().all(|cell| cell.c == ' '));
}

#[test]
fn swapping_twice_changes_nothing() {
    let mut ids = TabRegistry::new();
    let mut list = TabList::new(tab(&mut ids, "0"));
    list.push(tab(&mut ids, "1"));
    list.push(tab(&mut ids, "2"));
    list.set_active(1);
    assert!(list.swap_reorder(0, 2));
    assert_eq!(list.get(0).unwrap().title(), "2");
    assert_eq!(list.get(2).unwrap().title(), "0");
    assert!(list.swap_reorder(0, 2));
    let titles: Vec<&str> = (0..3).map(|i| list.get(i).unwrap().title()).collect();
    assert_eq!(titles, vec!["0", "1", "2"]);
    assert_eq!(list.active_idx(), 1);
    assert!(!list.swap_reorder(0, 9));
}

#[test]
fn closing_another_tab_keeps_the_active_one() {
    let mut ids = TabRegistry::new();
    let mut list = TabList::new(tab(&mut ids, "0"));
    list.push(tab(&mut ids, "1"));
    list.push(tab(&mut ids, "2"));
    list.set_active(1);
    let id = list.active().id();
    list.remove(0);
    assert_eq!(list.active().id(), id);
    list.remove(1);
    assert_eq!(list.active().id(), id);
}

#[test]
fn on_pty_output_feeds_term_and_snapshot_reflects() {
    let mut ids = TabRegistry::new();
    let mut s = session_one_tab(&mut ids);
    let ws_id = s.active_workspace_id();
    let id = s.tabs().active().id().raw();
    let dirty = s.on_pty_output(id, b"hi");
    assert!(dirty);
    let snap = s.snapshot(id).unwrap();
    assert_eq!(snap.tab_id, id);
    assert_eq!(snap.workspace_id, ws_id);
    let c00 = snap.cells.iter().find(|c| c.line == 0 && c.col == 0).unwrap();
    let c01 = snap.cells.iter().find(|c| c.line == 0 && c.col == 1).unwrap();
    assert_eq!(c00.c, 'h');
    assert_eq!(c01.c, 'i');
    assert!(snap.row_texts[0].starts_with("hi"));
}

#[test]
fn unknown_tab_id_is_handled() {
    let mut ids = TabRegistry::new();
    let mut s = session_one_tab(&mut ids);
    assert!(!s.on_pty_output(9999, b"x"));
    assert!(s.snapshot(9999).is_none());
    assert!(!s.has_tab(9999));
}

#[test]
fn apply_tab_op_new_select_reorder_close() {
    let mut ids = TabRegistry::new();
    let mut s = session_one_tab(&mut ids);
    let ws = s.active_workspace_id();
    let first = s.tabs().active().id().raw();
    assert_eq!(s.tabs().len(), 1);
    s.apply_tab_op(ws, TabOp::New, ids.next_id()).unwrap();
    assert_eq!(s.tabs().len(), 2);
    let second = s.tabs().get(1).unwrap().id().raw();
    assert_ne!(first, second);
    s.apply_tab_op(ws, TabOp::Select { idx: 1 }, ids.next_id()).unwrap();
    assert_eq!(s.tabs().active_idx(), 1);
    assert!(s.apply_tab_op(ws, TabOp::Select { idx: 99 }, ids.next_id()).is_err());
    s.apply_tab_op(ws, TabOp::Reorder { origin: 0, target: 1 }, ids.next_id()).unwrap();
    assert_eq!(s.tabs().active().id().raw(), second);
    s.apply_tab_op(ws, TabOp::Close { tab_id: first }, ids.next_id()).unwrap();
    assert_eq!(s.tabs().len(), 1);
    assert!(s.apply_tab_op(ws, TabOp::Close { tab_id: 4242 }, ids.next_id()).is_err());
    assert!(s.apply_tab_op(999_999, TabOp::New, ids.next_id()).is_err());
}

#[test]
fn errors_of_tab_operations() {
    let mut ids = TabRegistry::new();
    let mut s = session_one_tab(&mut ids);
    let ws = s.active_workspace_id();
    assert_eq!(
        s.apply_tab_op(ws, TabOp::Select { idx: 99 }, ids.next_id()),
        Err(SessionErr::NoSuchIndex { idx: 99 })
    );
    assert_eq!(
        s.apply_tab_op(ws, TabOp::Reorder { origin: 0, target: 7 }, ids.next_id()),
        Err(SessionErr::BadReorder { origin: 0, target: 7 })
    );
    assert_eq!(
        s.apply_tab_op(ws, TabOp::Close { tab_id: 4242 }, ids.next_id()),
        Err(SessionErr::UnknownTab { tab_id: 4242 })
    );
    assert_eq!(
        s.apply_tab_op(999_999, TabOp::New, ids.next_id()),
        Err(SessionErr::UnknownWorkspace { workspace_id: 999_999 })
    );
}

#[test]
fn set_title_and_workspace_info() {
    let mut ids = TabRegistry::new();
    let mut s = session_one_tab(&mut ids);
    let ws_id = s.active_workspace_id();
    let id = s.tabs().active().id().raw();
    s.apply_tab_op(
        ws_id,
        TabOp::SetTitle { tab_id: id, title: "renamed".to_string() },
        ids.next_id(),
    )
    .unwrap();
    let ws = s.workspace_info(ws_id).unwrap();
    assert_eq!(ws.workspace_id, ws_id);
    assert_eq!(ws.tabs.len(), 1);
    assert_eq!(ws.tabs[0].title, "renamed");
    assert_eq!(ws.active, 0);
    assert!(s.workspace_info(424_242).is_none());
}

#[test]
fn dirty_truth_source_set_and_clear() {
    let mut ids = TabRegistry::new();
    let mut s = session_one_tab(&mut ids);
    let id = s.tabs().active().id().raw();
    assert!(s.on_pty_output(id, b"x"));
    assert!(s.clear_dirty(id));
    assert!(!s.tabs().active().term().is_dirty());
    assert!(s.on_pty_output(id, b"y"));
    assert!(s.tabs().active().term().is_dirty());
    assert!(!s.clear_dirty(9999));
}

#[test]
fn multi_workspace_isolation_and_list() {
    let mut ids = TabRegistry::new();
    let mut s = session_one_tab(&mut ids);
    let ws1 = s.active_workspace_id();
    let tab1 = s.tabs().active().id().raw();
    assert_eq!(s.workspace_count(), 1);
    let ws2 = s.new_workspace(80, 24, ids.next_id());
    assert_ne!(ws1, ws2);
    assert_eq!(s.workspace_count(), 2);
    assert_eq!(s.active_workspace_id(), ws1);
    assert!(s.set_active_workspace(ws2));
    let tab2 = s.tabs().active().id().raw();
    assert_ne!(tab1, tab2);
    assert!(s.on_pty_output(tab1, b"in-ws1"));
    assert!(s.on_pty_output(tab2, b"in-ws2"));
    let snap1 = s.snapshot(tab1).unwrap();
    let snap2 = s.snapshot(tab2).unwrap();
    assert_eq!(snap1.workspace_id, ws1);
    assert_eq!(snap2.workspace_id, ws2);
    assert!(snap1.row_texts[0].starts_with("in-ws1"));
    assert!(snap2.row_texts[0].starts_with("in-ws2"));
    let list = s.workspace_list();
    assert_eq!(list.workspaces.len(), 2);
    assert_eq!(list.active, ws2);
    let m2 = list.workspaces.iter().find(|m| m.id == ws2).unwrap();
    assert!(m2.active);
    let m1 = list.workspaces.iter().find(|m| m.id == ws1).unwrap();
    assert!(!m1.active);
    assert_eq!(s.workspace_ids().len(), 2);
    assert!(!s.set_active_workspace(7_777_777));
}

#[test]
fn refcount_anchor_keeps_alive_then_destroys_at_zero() {
    let mut ids = TabRegistry::new();
    let mut s = session_one_tab(&mut ids);
    let ws1 = s.active_workspace_id();
    let ws2 = s.new_workspace(80, 24, ids.next_id());
    assert_eq!(s.set_anchor(ws2, true), Lifecycle::Alive);
    assert!(s.hold(ws2, 100));
    assert!(s.hold(ws2, 101));
    assert_eq!(s.refcount(ws2), Some(3));
    assert!(s.hold(ws2, 100));
    assert_eq!(s.refcount(ws2), Some(3));
    assert_eq!(s.release(ws2, 100, false), Lifecycle::Alive);
    assert_eq!(s.release(ws2, 101, false), Lifecycle::Alive);
    assert_eq!(s.refcount(ws2), Some(1));
    assert!(s.workspace_ids().contains(&ws2));
    assert!(s.hold(ws2, 102));
    assert_eq!(s.release(ws2, 102, true), Lifecycle::Alive);
    assert_eq!(s.refcount(ws2), Some(1));
    assert_eq!(s.set_anchor(ws2, false), Lifecycle::Destroyed);
    assert!(!s.workspace_ids().contains(&ws2));
    assert_eq!(s.workspace_count(), 1);
    assert!(s.workspace_ids().contains(&ws1));
    let _ = s.snapshot_active();
    assert_eq!(s.refcount(999), None);
    assert_eq!(s.set_anchor(999, false), Lifecycle::Unknown);
    assert_eq!(s.release(999, 1, true), Lifecycle::Unknown);
    assert!(!s.hold(999, 1));
}

#[test]
fn refcount_explicit_destroys_disconnect_does_not() {
    let mut ids = TabRegistry::new();
    let mut s = session_one_tab(&mut ids);
    let ws2 = s.new_workspace(80, 24, ids.next_id());
    assert!(s.hold(ws2, 300));
    assert_eq!(s.release(ws2, 300, false), Lifecycle::Alive);
    assert_eq!(s.refcount(ws2), Some(0));
    assert!(s.workspace_ids().contains(&ws2));
    assert!(s.hold(ws2, 301));
    assert_eq!(s.release(ws2, 301, true), Lifecycle::Destroyed);
    assert!(!s.workspace_ids().contains(&ws2));
    assert_eq!(s.workspace_count(), 1);
}

#[test]
fn destroy_adjusts_active_index() {
    let mut ids = TabRegistry::new();
    let mut s = session_one_tab(&mut ids);
    let ws1 = s.active_workspace_id();
    let ws2 = s.new_workspace(80, 24, ids.next_id());
    let ws3 = s.new_workspace(80, 24, ids.next_id());
    assert!(s.hold(ws2, 1));
    assert_eq!(s.release(ws2, 1, true), Lifecycle::Destroyed);
    assert_eq!(s.active_workspace_id(), ws1);
    assert!(s.set_active_workspace(ws3));
    assert!(s.hold(ws1, 1));
    assert_eq!(s.release(ws1, 1, true), Lifecycle::Destroyed);
    assert_eq!(s.active_workspace_id(), ws3);
    assert_eq!(s.workspace_count(), 1);
}

#[test]
fn resizing_a_workspace_resizes_its_tabs_only() {
    let mut ids = TabRegistry::new();
    let mut s = session_one_tab(&mut ids);
    let ws1 = s.active_workspace_id();
    let ws2 = s.new_workspace(80, 24, ids.next_id());
    s.resize(ws1, 100, 30).unwrap();
    assert_eq!(s.workspace_info(ws1).unwrap().cols, 100);
    assert_eq!(s.workspace_info(ws1).unwrap().rows, 30);
    assert_eq!(s.workspace_info(ws2).unwrap().cols, 80);
    assert_eq!(s.new_tab_size(ws1), Some((100, 30)));
    assert_eq!(s.new_tab_size(99), None);
    assert_eq!(
        s.resize(99, 1, 1),
        Err(SessionErr::UnknownWorkspace { workspace_id: 99 })
    );
}

#[test]
fn sizes_are_clamped_to_sixteen_bits() {
    assert_eq!(clamp_u16(0), 1);
    assert_eq!(clamp_u16(80), 80);
    assert_eq!(clamp_u16(70_000), 65_535);
}

#[test]
fn a_workspace_without_tabs_concerns_no_other() {
    let mut ids = TabRegistry::new();
    let mut s = session_one_tab(&mut ids);
    let ws1 = s.active_workspace_id();
    let only = s.tabs().active().id().raw();
    let ws2 = s.new_workspace(80, 24, ids.next_id());
    s.apply_tab_op(ws1, TabOp::Close { tab_id: only }, ids.next_id()).unwrap();
    assert!(s.tabs().is_empty());
    assert_eq!(s.new_tab_size(ws2), Some((80, 24)));
    s.apply_tab_op(ws2, TabOp::New, ids.next_id()).unwrap();
    s.apply_tab_op(ws2, TabOp::Select { idx: 1 }, ids.next_id()).unwrap();
    let info = s.workspace_info(ws2).unwrap();
    assert_eq!((info.tabs.len(), info.active), (2, 1));
    assert_eq!(
        s.apply_tab_op(ws1, TabOp::Close { tab_id: only }, ids.next_id()),
        Err(SessionErr::UnknownTab { tab_id: only })
    );
}

#[test]
fn later_numbers_are_greater() {
    let mut ids = TabRegistry::new();
    let mut last = ids.next_id();
    for _ in 0..1000 {
        let next = ids.next_id();
        assert!(last.raw() < next.raw());
        last = next;
    }
}
