//! The daemon's state: windows that come and go, clients that watch.

use quill::kernel::feed::{encode_dims, encode_tab_list, FeedDecoder, FeedFrame, FrameKind};
use quill::kernel::hub::{Action, Hub, BYTE_RING_CAP, FED_INPUT_CHUNK, MAX_WS_CONNS, WS_CLIENT_OUT_CAP};
use quill::kernel::proto::{ClientMsg, ServerMsg, TabOp};
use quill::kernel::ring::OutFrame;
use quill::kernel::session::Session;
use quill::tab::{TabInstance, TabList, TabRegistry};

fn frame(kind: FrameKind, ws: u64, tab: u64, payload: &[u8]) -> FeedFrame {
    FeedFrame {
        kind,
        ws_id: ws,
        tab_id: tab,
        payload: payload.to_vec(),
    }
}

fn tabs(hub: &mut Hub, feeder: u64, ws: u64, active: usize, list: &[(u64, &str)]) -> Vec<Action> {
    let mut out = Vec::new();
    let f = frame(FrameKind::TabList, ws, 0, &encode_tab_list(active, list));
    hub.route_feeder_frame(feeder, &f, &mut out);
    out
}

fn window(hub: &mut Hub, created: u64, ws: u64, active: usize, list: &[(u64, &str)]) -> u64 {
    let mut out = Vec::new();
    let id = hub.attach_feeder(created, &mut out);
    tabs(hub, id, ws, active, list);
    id
}

fn live(hub: &mut Hub) -> u64 {
    let id = hub.accept_ws_client(0).unwrap();
    let mut out = Vec::new();
    hub.ws_go_live(id, &mut out);
    id
}

fn viewed(hub: &Hub, client: u64) -> (u64, u64) {
    hub.clients.iter().find(|c| c.id == client).unwrap().viewed
}

fn focus(ws: u64, tab: u64) -> ServerMsg {
    ServerMsg::StreamFocus {
        workspace_id: ws,
        tab_id: tab,
    }
}

#[test]
fn the_first_window_is_the_anchor() {
    let mut hub = Hub::new_fed();
    let a = window(&mut hub, 1, 10, 0, &[(1, "a")]);
    let b = window(&mut hub, 2, 20, 0, &[(2, "b")]);
    assert_eq!(hub.anchor, Some(a));
    let list = hub.aggregate_workspace_list();
    assert_eq!(list.active, 10);
    let ids: Vec<(u64, bool)> = list.workspaces.iter().map(|w| (w.id, w.active)).collect();
    assert_eq!(ids, vec![(10, true), (20, false)]);
    let mut out = Vec::new();
    hub.feeder_teardown(a, &mut out);
    assert_eq!(hub.anchor, Some(b));
    assert!(!out.contains(&Action::Stop));
    hub.feeder_teardown(b, &mut out);
    assert_eq!(hub.anchor, None);
    assert_eq!(out.last(), Some(&Action::Stop));
}

#[test]
fn a_window_that_has_told_nothing_is_not_listed() {
    let mut hub = Hub::new_fed();
    let mut out = Vec::new();
    hub.attach_feeder(1, &mut out);
    assert!(hub.aggregate_workspace_list().workspaces.is_empty());
}

#[test]
fn a_client_is_greeted_with_all_windows() {
    let mut hub = Hub::new_fed();
    let b = window(&mut hub, 1, 20, 0, &[(2, "b")]);
    window(&mut hub, 2, 10, 1, &[(3, "c"), (4, "d")]);
    let mut out = Vec::new();
    hub.route_feeder_frame(b, &frame(FrameKind::Dims, 20, 0, &encode_dims(100, 30)), &mut out);
    hub.fan_out_tab_bytes(20, 2, b"hello", &mut out);
    let id = hub.accept_ws_client(0).unwrap();
    let mut told = Vec::new();
    hub.ws_go_live(id, &mut told);
    assert_eq!(told.len(), 6);
    assert!(matches!(&told[0], Action::Tell { msg: ServerMsg::Workspaces(l), .. } if l.active == 20));
    assert!(matches!(&told[1], Action::Tell { msg: ServerMsg::Workspace(i), .. }
        if i.workspace_id == 10 && i.tabs.len() == 2 && i.active == 1 && (i.cols, i.rows) == (80, 24)));
    assert!(matches!(&told[2], Action::Tell { msg: ServerMsg::Workspace(i), .. }
        if i.workspace_id == 20 && (i.cols, i.rows) == (100, 30)));
    assert_eq!(told[3], Action::Tell { client: id, msg: focus(20, 2) });
    assert_eq!(
        told[4],
        Action::Tell { client: id, msg: ServerMsg::Dims { cols: 100, rows: 30 } }
    );
    assert_eq!(told[5], Action::Replay { client: id, bytes: b"hello".to_vec() });
    assert_eq!(viewed(&hub, id), (20, 2));
}

#[test]
fn followers_follow_and_others_stay() {
    let mut hub = Hub::new_fed();
    let a = window(&mut hub, 1, 10, 0, &[(1, "a"), (2, "b")]);
    let follower = live(&mut hub);
    let pinned = live(&mut hub);
    let mut out = Vec::new();
    hub.handle_tab_op(pinned, 10, TabOp::Select { idx: 0 }, &mut out);
    assert_eq!(out, vec![Action::Tell { client: pinned, msg: focus(10, 1) }]);
    hub.route_feeder_frame(a, &frame(FrameKind::FocusChange, 10, 2, b""), &mut out);
    assert_eq!(viewed(&hub, follower), (10, 2));
    assert_eq!(viewed(&hub, pinned), (10, 1));
}

#[test]
fn a_client_is_shown_the_tab_that_it_asked_for() {
    let mut hub = Hub::new_fed();
    let a = window(&mut hub, 1, 10, 0, &[(1, "a")]);
    let c = live(&mut hub);
    let other = live(&mut hub);
    let mut out = Vec::new();
    hub.handle_tab_op(c, 10, TabOp::New, &mut out);
    assert_eq!(out.len(), 1);
    let sent = match &out[0] {
        Action::ToFeeder { feeder, frame } if *feeder == a => frame.clone(),
        other => panic!("{other:?}"),
    };
    let mut dec = FeedDecoder::new();
    let (frames, err) = dec.drain(&sent);
    assert_eq!(err, None);
    assert_eq!(frames, vec![frame(FrameKind::TabOp, 10, 0, &[1])]);
    tabs(&mut hub, a, 10, 1, &[(1, "a"), (5, "new")]);
    assert_eq!(viewed(&hub, c), (10, 5));
    assert_eq!(viewed(&hub, other), (10, 1));
    let mut out = Vec::new();
    hub.route_feeder_frame(a, &frame(FrameKind::FocusChange, 10, 1, b""), &mut out);
    assert_eq!(viewed(&hub, c), (10, 5));
}

#[test]
fn closed_tabs_are_forgotten_and_their_clients_moved() {
    let mut hub = Hub::new_fed();
    let a = window(&mut hub, 1, 10, 0, &[(1, "a"), (2, "b")]);
    let c = live(&mut hub);
    let mut out = Vec::new();
    hub.handle_tab_op(c, 10, TabOp::Select { idx: 1 }, &mut out);
    hub.fan_out_tab_bytes(10, 2, b"x", &mut out);
    hub.fan_out_tab_bytes(10, 1, b"one", &mut out);
    assert_eq!(hub.rings.len(), 2);
    let acts = tabs(&mut hub, a, 10, 0, &[(1, "a")]);
    assert_eq!(hub.rings.len(), 1);
    assert_eq!(viewed(&hub, c), (10, 1));
    assert_eq!(acts[0], Action::Tell { client: c, msg: focus(10, 1) });
    assert_eq!(acts[1], Action::Replay { client: c, bytes: b"one".to_vec() });
}

#[test]
fn a_gone_window_leaves_nothing() {
    let mut hub = Hub::new_fed();
    let a = window(&mut hub, 1, 10, 0, &[(1, "a")]);
    let b = window(&mut hub, 2, 20, 0, &[(2, "b")]);
    let c = live(&mut hub);
    let mut out = Vec::new();
    hub.fan_out_tab_bytes(10, 1, b"x", &mut out);
    assert_eq!(viewed(&hub, c), (10, 1));
    hub.feeder_teardown(a, &mut out);
    assert_eq!(viewed(&hub, c), (20, 2));
    assert_eq!(hub.clients[0].feeder, Some(b));
    assert!(hub.rings.is_empty());
}

#[test]
fn clients_without_a_window_watch_the_next_one() {
    let mut hub = Hub::new_fed();
    let c = live(&mut hub);
    assert_eq!(hub.clients[0].feeder, None);
    let a = window(&mut hub, 1, 10, 0, &[(1, "a")]);
    assert_eq!(hub.clients[0].feeder, Some(a));
    assert_eq!(viewed(&hub, c), (10, 1));
}

#[test]
fn output_goes_to_those_who_see_it() {
    let mut hub = Hub::new_fed();
    window(&mut hub, 1, 10, 0, &[(1, "a"), (2, "b")]);
    let c = live(&mut hub);
    let d = live(&mut hub);
    let mut out = Vec::new();
    hub.handle_tab_op(d, 10, TabOp::Select { idx: 1 }, &mut out);
    hub.fan_out_tab_bytes(10, 1, b"hi", &mut out);
    assert!(matches!(hub.dequeue(c), Some(OutFrame::Bytes(b)) if b == b"hi"));
    assert!(hub.dequeue(c).is_none());
    assert!(hub.dequeue(d).is_none());
}

#[test]
fn a_client_that_does_not_read_is_dropped() {
    let mut hub = Hub::new_fed();
    window(&mut hub, 1, 10, 0, &[(1, "a")]);
    let c = live(&mut hub);
    let chunk = vec![b'x'; 1 << 19];
    let mut out = Vec::new();
    hub.fan_out_tab_bytes(10, 1, &chunk, &mut out);
    hub.fan_out_tab_bytes(10, 1, &chunk, &mut out);
    assert!(out.is_empty());
    assert_eq!(2 * chunk.len(), WS_CLIENT_OUT_CAP);
    hub.fan_out_tab_bytes(10, 1, b"x", &mut out);
    assert_eq!(out, vec![Action::DropClient { client: c }]);
    hub.drop_client(c);
    assert!(hub.clients.is_empty());
    assert_eq!(hub.rings[0].ring.snapshot().len(), BYTE_RING_CAP);
}

#[test]
fn there_are_at_most_sixteen_clients() {
    let mut hub = Hub::new_fed();
    for _ in 0..MAX_WS_CONNS {
        assert!(hub.accept_ws_client(5).is_some());
    }
    assert_eq!(hub.accept_ws_client(5), None);
    let first = hub.clients[0].id;
    let mut out = Vec::new();
    hub.ws_go_live(first, &mut out);
    assert_eq!(hub.reap_stale_clients(15, 10).len(), 0);
    assert_eq!(hub.reap_stale_clients(16, 10).len(), MAX_WS_CONNS - 1);
    assert_eq!(hub.live_clients(), vec![first]);
}

#[test]
fn input_goes_to_the_window_in_pieces() {
    let mut hub = Hub::new_fed();
    let a = window(&mut hub, 1, 10, 0, &[(1, "a")]);
    let c = live(&mut hub);
    let typed: Vec<u8> = (0..FED_INPUT_CHUNK + 5).map(|i| i as u8).collect();
    let mut out = Vec::new();
    hub.client_typed(c, &typed, &mut out);
    assert_eq!(out.len(), 2);
    let mut dec = FeedDecoder::new();
    let mut got = Vec::new();
    for act in &out {
        let bytes = match act {
            Action::ToFeeder { feeder, frame } if *feeder == a => frame,
            other => panic!("{other:?}"),
        };
        for f in dec.drain(bytes).0 {
            assert_eq!((f.kind, f.ws_id, f.tab_id), (FrameKind::Input, 10, 1));
            got.extend_from_slice(&f.payload);
        }
    }
    assert_eq!(got, typed);
    let mut none = Vec::new();
    hub.route_input(99, 1, b"x", &mut none);
    assert!(none.is_empty());
}

#[test]
fn operations_that_are_the_windows_to_do() {
    let mut hub = Hub::new_fed();
    let a = window(&mut hub, 1, 10, 0, &[(1, "a")]);
    let c = live(&mut hub);
    let mut out = Vec::new();
    hub.handle_tab_op(c, 77, TabOp::Close { tab_id: 1 }, &mut out);
    hub.handle_tab_op(c, 10, TabOp::Reorder { origin: 0, target: 1 }, &mut out);
    hub.handle_tab_op(c, 10, TabOp::SetTitle { tab_id: 1, title: "x".to_string() }, &mut out);
    hub.handle_tab_op(c, 10, TabOp::Select { idx: 9 }, &mut out);
    let mut dec = FeedDecoder::new();
    let mut frames = Vec::new();
    for act in &out {
        match act {
            Action::ToFeeder { feeder, frame } if *feeder == a => frames.extend(dec.drain(frame).0),
            other => panic!("{other:?}"),
        }
    }
    assert_eq!(
        frames,
        vec![
            frame(FrameKind::TabOp, 10, 1, &[2, 1, 0, 0, 0, 0, 0, 0, 0]),
            frame(FrameKind::TabOp, 10, 0, &[3, 0, 0, 0, 0, 1, 0, 0, 0]),
        ]
    );
}

#[test]
fn frames_that_cannot_be_read_change_nothing() {
    let mut hub = Hub::new_fed();
    let a = window(&mut hub, 1, 10, 0, &[(1, "a")]);
    let mut out = Vec::new();
    hub.route_feeder_frame(a, &frame(FrameKind::Dims, 11, 0, &[1]), &mut out);
    hub.route_feeder_frame(a, &frame(FrameKind::TabList, 11, 0, &[1]), &mut out);
    hub.route_feeder_frame(a, &frame(FrameKind::Input, 11, 0, b"x"), &mut out);
    hub.route_feeder_frame(a, &frame(FrameKind::WorkspaceAdd, 11, 0, b"x"), &mut out);
    hub.route_feeder_frame(99, &frame(FrameKind::FocusChange, 11, 0, b""), &mut out);
    assert!(out.is_empty());
    assert_eq!(hub.feeders[0].ws_id, 10);
    hub.route_feeder_frame(a, &frame(FrameKind::PtyOutput, 12, 0, b""), &mut out);
    assert_eq!(hub.feeders[0].ws_id, 12);
    assert!(hub.rings.is_empty());
}

fn local() -> (Hub, u64, u64) {
    let mut ids = TabRegistry::new();
    let tab = TabInstance::new(ids.next_id(), 80, 24);
    let tab_id = tab.id().raw();
    let mut session = Session::new(TabList::new(tab));
    let ws = session.active_workspace_id();
    session.set_anchor(ws, true);
    (Hub::new_local(session, tab_id, 80, 24), ws, tab_id)
}

#[test]
fn a_daemon_with_terminals_of_its_own() {
    let (mut hub, ws, tab) = local();
    let id = hub.accept_ws_client(0).unwrap();
    let mut out = Vec::new();
    hub.ws_go_live(id, &mut out);
    assert_eq!(out.len(), 4);
    assert!(matches!(&out[0], Action::Tell { msg: ServerMsg::Workspaces(_), .. }));
    assert!(matches!(&out[1], Action::Tell { msg: ServerMsg::Workspace(_), .. }));
    assert_eq!(out[2], Action::Tell { client: id, msg: focus(ws, tab) });
    assert_eq!(out[3], Action::Tell { client: id, msg: ServerMsg::Dims { cols: 80, rows: 24 } });
    assert_eq!(hub.session.as_ref().unwrap().refcount(ws), Some(2));
    let mut acts = Vec::new();
    hub.client_typed(id, b"ls\n", &mut acts);
    assert_eq!(acts, vec![Action::ToPty { tab_id: tab, bytes: b"ls\n".to_vec() }]);
    let mut acts = Vec::new();
    let close = hub.handle_client_msg(
        id,
        ClientMsg::Resize { workspace_id: ws, cols: 100, rows: 30 },
        &mut acts,
    );
    assert!(!close);
    assert_eq!(acts, vec![Action::ResizePtys { workspace_id: ws, cols: 100, rows: 30 }]);
    let mut acts = Vec::new();
    hub.ptys_resized(100, 30, &mut acts);
    assert_eq!(acts, vec![Action::TellAll { msg: ServerMsg::Dims { cols: 100, rows: 30 } }]);
    assert!(hub.handle_client_msg(id, ClientMsg::Release { workspace_id: ws }, &mut acts));
    assert_eq!(hub.session.as_ref().unwrap().refcount(ws), Some(1));
}

#[test]
fn a_closed_connection_ends_no_workspace() {
    let (mut hub, ws, _) = local();
    let c = live(&mut hub);
    let mut out = Vec::new();
    assert!(!hub.handle_client_msg(c, ClientMsg::Hold { workspace_id: 99 }, &mut out));
    assert!(!hub.handle_client_msg(c, ClientMsg::Hold { workspace_id: ws }, &mut out));
    hub.drop_client(c);
    assert_eq!(hub.session.as_ref().unwrap().refcount(ws), Some(1));
    assert_eq!(hub.session.as_ref().unwrap().workspace_count(), 1);
}

#[test]
fn messages_wait_for_live_clients_only() {
    let mut hub = Hub::new_fed();
    let idle = hub.accept_ws_client(0).unwrap();
    let c = live(&mut hub);
    assert!(!hub.enqueue(idle, OutFrame::Text("x".to_string())));
    assert!(hub.enqueue(c, OutFrame::Text("x".to_string())));
    assert!(!hub.enqueue(99, OutFrame::Text("x".to_string())));
    assert!(matches!(hub.dequeue(c), Some(OutFrame::Text(t)) if t == "x"));
    assert!(hub.dequeue(c).is_none());
}

#[test]
fn a_client_misses_nothing_and_gets_nothing_twice() {
    let mut hub = Hub::new_fed();
    window(&mut hub, 1, 10, 0, &[(1, "a")]);
    let mut out = Vec::new();
    hub.fan_out_tab_bytes(10, 1, b"before ", &mut out);
    let id = hub.accept_ws_client(0).unwrap();
    hub.fan_out_tab_bytes(10, 1, b"meanwhile ", &mut out);
    let mut told = Vec::new();
    hub.ws_go_live(id, &mut told);
    let replay = Action::Replay {
        client: id,
        bytes: b"before meanwhile ".to_vec(),
    };
    assert_eq!(told.last(), Some(&replay));
    hub.fan_out_tab_bytes(10, 1, b"after ", &mut out);
    hub.fan_out_tab_bytes(10, 1, b"that", &mut out);
    assert_eq!(hub.dequeue(id), Some(OutFrame::Bytes(b"after ".to_vec())));
    assert_eq!(hub.dequeue(id), Some(OutFrame::Bytes(b"that".to_vec())));
    assert_eq!(hub.dequeue(id), None);
    let later = hub.accept_ws_client(0).unwrap();
    let mut told = Vec::new();
    hub.ws_go_live(later, &mut told);
    let replay = Action::Replay {
        client: later,
        bytes: b"before meanwhile after that".to_vec(),
    };
    assert_eq!(told.last(), Some(&replay));
}

#[test]
fn a_client_lets_go_once() {
    let (mut hub, ws, _) = local();
    let fresh = TabRegistry::new().next_id();
    let other = hub.session.as_mut().unwrap().new_workspace(80, 24, fresh);
    let a = live(&mut hub);
    let b = live(&mut hub);
    let mut out = Vec::new();
    hub.handle_client_msg(a, ClientMsg::Hold { workspace_id: other }, &mut out);
    hub.handle_client_msg(b, ClientMsg::Hold { workspace_id: other }, &mut out);
    assert_ne!(ws, other);
    hub.release_holder(a, true);
    hub.release_holder(a, true);
    hub.drop_client(a);
    let ids = |hub: &Hub| -> Vec<u64> {
        let list = hub.session.as_ref().unwrap().workspace_list();
        list.workspaces.iter().map(|w| w.id).collect()
    };
    assert_eq!(ids(&hub), vec![ws, other]);
    hub.release_holder(b, true);
    assert_eq!(ids(&hub), vec![ws]);
}

#[test]
fn a_session_tells_what_its_screens_can_take() {
    let (mut hub, ws, tab) = local();
    let session = hub.session.as_mut().unwrap();
    assert!(session.takes_width(ws, 1));
    assert!(session.takes_output(tab, "é你".as_bytes()));
    assert!(session.on_pty_output(tab, "é你".as_bytes()));
    assert!(!session.takes_width(ws, 1));
    assert!(session.takes_width(ws, 2));
    assert!(session.takes_width(ws + 1, 1));
    assert!(session.takes_output(tab + 1, b"x"));
    assert!(!session.on_pty_output(tab + 1, b"x"));
}
