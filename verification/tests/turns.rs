//! One turn of the daemon at a time.

use quill::kernel::feed::{encode_tab_list, FeedFrame, FrameKind};
use quill::kernel::flow::IoResult;
use quill::kernel::hub::{Action, Hub};
use quill::kernel::proto::ClientMsg;
use quill::kernel::ring::OutFrame;
use quill::kernel::session::Session;
use quill::kernel::turns::{
    after_client_write, after_feeder_read, ReadNext, SendNext, SentNext, SocketEvent, SocketNext,
    SocketWrite,
};
use quill::tab::{TabInstance, TabList, TabRegistry};

fn local() -> (Hub, u64, u64) {
    let tab = TabInstance::new(TabRegistry::new().next_id(), 20, 4);
    let tab_id = tab.id().raw();
    let mut session = Session::new(TabList::new(tab));
    let ws = session.active_workspace_id();
    session.set_anchor(ws, true);
    (Hub::new_local(session, tab_id, 20, 4), ws, tab_id)
}

fn live(hub: &mut Hub) -> u64 {
    let id = hub.accept_ws_client(0).unwrap();
    let mut out = Vec::new();
    hub.ws_go_live(id, &mut out);
    id
}

#[test]
fn output_is_collected_and_told_once() {
    let (mut hub, _, _) = local();
    let client = live(&mut hub);
    let mut batch = Vec::new();
    let mut out = Vec::new();
    assert_eq!(
        hub.pty_read(IoResult::Done(3), b"abc", &mut batch, &mut out),
        ReadNext::Again
    );
    assert_eq!(
        hub.pty_read(IoResult::Interrupted, b"", &mut batch, &mut out),
        ReadNext::Again
    );
    assert_eq!(
        hub.pty_read(IoResult::Done(2), b"de", &mut batch, &mut out),
        ReadNext::Again
    );
    assert_eq!(batch, b"abcde".to_vec());
    assert_eq!(
        hub.pty_read(IoResult::WouldBlock, b"", &mut batch, &mut out),
        ReadNext::Wait
    );
    assert!(batch.is_empty());
    assert!(!out.contains(&Action::Stop));
    assert!(matches!(
        hub.client_flushed(client, SocketWrite::Done),
        SendNext::Send(OutFrame::Bytes(b)) if b == b"abcde".to_vec()
    ));
    assert!(matches!(hub.client_flushed(client, SocketWrite::Done), SendNext::Idle));
    let snapshot = hub.session.as_ref().unwrap().snapshot_active();
    let row: String = snapshot.cells[..5].iter().map(|c| c.c).collect();
    assert_eq!(row, "abcde");
}

#[test]
fn the_daemon_ends_with_its_terminal() {
    for res in [IoResult::Done(0), IoResult::HungUp, IoResult::Failed] {
        let (mut hub, _, _) = local();
        let client = live(&mut hub);
        let mut batch = b"bye".to_vec();
        let mut out = Vec::new();
        assert_eq!(hub.pty_read(res, b"", &mut batch, &mut out), ReadNext::Gone);
        assert!(batch.is_empty());
        assert_eq!(out, vec![Action::Stop]);
        assert!(matches!(
            hub.client_flushed(client, SocketWrite::Done),
            SendNext::Send(OutFrame::Bytes(b)) if b == b"bye".to_vec()
        ));
    }
}

#[test]
fn reads_from_a_window_go_on_until_nothing_is_there() {
    assert_eq!(after_feeder_read(IoResult::Done(7)), ReadNext::Again);
    assert_eq!(after_feeder_read(IoResult::Interrupted), ReadNext::Again);
    assert_eq!(after_feeder_read(IoResult::WouldBlock), ReadNext::Wait);
    assert_eq!(after_feeder_read(IoResult::Done(0)), ReadNext::Gone);
    assert_eq!(after_feeder_read(IoResult::HungUp), ReadNext::Gone);
    assert_eq!(after_feeder_read(IoResult::Failed), ReadNext::Gone);
}

#[test]
fn what_a_client_types_goes_to_the_tab_it_sees() {
    let (mut hub, _, tab) = local();
    let client = live(&mut hub);
    let mut out = Vec::new();
    let next = hub.client_received(client, SocketEvent::Typed(b"ls\r".to_vec()), &mut out);
    assert_eq!(next, SocketNext::Again);
    assert_eq!(
        out,
        vec![Action::ToPty {
            tab_id: tab,
            bytes: b"ls\r".to_vec()
        }]
    );
}

#[test]
fn a_client_that_holds_lets_go_when_it_closes() {
    let (mut hub, ws, _) = local();
    let client = live(&mut hub);
    let mut out = Vec::new();
    let hold = SocketEvent::Told(ClientMsg::Hold { workspace_id: ws });
    assert_eq!(hub.client_received(client, hold, &mut out), SocketNext::Again);
    assert_eq!(hub.clients[0].held_ws, Some(ws));
    assert_eq!(
        hub.client_received(client, SocketEvent::Closed, &mut out),
        SocketNext::Drop
    );
    assert_eq!(hub.clients[0].held_ws, None);
    let release = SocketEvent::Told(ClientMsg::Release { workspace_id: ws });
    assert_eq!(hub.client_received(client, release, &mut out), SocketNext::Drop);
    assert!(out.is_empty());
}

#[test]
fn other_events_of_a_socket_change_nothing() {
    let (mut hub, _, _) = local();
    let client = live(&mut hub);
    let mut out = Vec::new();
    let cases = [
        (SocketEvent::Unreadable, SocketNext::Again),
        (SocketEvent::Other, SocketNext::Flush),
        (SocketEvent::WouldBlock, SocketNext::Wait),
        (SocketEvent::Gone, SocketNext::Drop),
    ];
    for (event, next) in cases {
        assert_eq!(hub.client_received(client, event, &mut out), next);
    }
    assert!(out.is_empty());
}

#[test]
fn frames_wait_while_a_socket_takes_none() {
    let (mut hub, _, _) = local();
    let client = live(&mut hub);
    hub.enqueue(client, OutFrame::Text("one".to_string()));
    hub.enqueue(client, OutFrame::Text("two".to_string()));
    assert!(matches!(hub.client_flushed(client, SocketWrite::WouldBlock), SendNext::Wait));
    assert!(matches!(hub.client_flushed(client, SocketWrite::Gone), SendNext::Drop));
    for want in ["one", "two"] {
        assert!(matches!(
            hub.client_flushed(client, SocketWrite::Done),
            SendNext::Send(OutFrame::Text(t)) if t == want
        ));
    }
    assert!(matches!(hub.client_flushed(client, SocketWrite::Done), SendNext::Idle));
    assert!(matches!(hub.client_flushed(99, SocketWrite::Done), SendNext::Idle));
    assert_eq!(after_client_write(SocketWrite::Done), SentNext::Flush);
    assert_eq!(after_client_write(SocketWrite::WouldBlock), SentNext::Wait);
    assert_eq!(after_client_write(SocketWrite::Gone), SentNext::Drop);
}

#[test]
fn a_daemon_that_no_window_comes_to_ends() {
    let mut hub = Hub::new_fed();
    let mut out = Vec::new();
    hub.grace_over(&mut out);
    assert_eq!(out, vec![Action::Stop]);
    let id = hub.attach_feeder(1, &mut out);
    let frame = FeedFrame {
        kind: FrameKind::TabList,
        ws_id: 1,
        tab_id: 0,
        payload: encode_tab_list(0, &[(1, "a")]),
    };
    hub.route_feeder_frame(id, &frame, &mut out);
    out.clear();
    hub.grace_over(&mut out);
    assert!(out.is_empty());
}
