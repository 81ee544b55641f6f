//! One turn at a time: what the daemon does with what a read or a write gave,
//! and whether it goes on.

use crate::kernel::flow::{classify_pty_read, IoResult, PtyRead};
use crate::kernel::hub::{acts, anchored, client_at, lemma_acts_push, Act, Action, ClientModel, Hub, HubModel};
use crate::kernel::proto::ClientMsg;
use crate::kernel::ring::OutFrame;
use crate::kernel::session::{lemma_room_of_tab_is, room_of_tab, House, Session};
use crate::tab::lemma_position_is;
use vstd::prelude::*;

verus! {

/// What is to be done with a source of reads.
#[derive(Debug, Clone, Copy, PartialEq, Eq, Structural)]
pub enum ReadNext {
    /// Read again now.
    Again,
    /// Wait until there is more.
    Wait,
    /// The other side is gone.
    Gone,
}

/// What follows a read from a window. The bytes that it gave are decoded
/// first.
pub fn after_feeder_read(res: IoResult) -> (r: ReadNext)
    ensures
        r == match res {
            IoResult::Done(n) => if n == 0 {
                ReadNext::Gone
            } else {
                ReadNext::Again
            },
            IoResult::WouldBlock => ReadNext::Wait,
            IoResult::Interrupted => ReadNext::Again,
            _ => ReadNext::Gone,
        },
{
    match res {
        IoResult::Done(n) => if n == 0 {
            ReadNext::Gone
        } else {
            ReadNext::Again
        },
        IoResult::WouldBlock => ReadNext::Wait,
        IoResult::Interrupted => ReadNext::Again,
        _ => ReadNext::Gone,
    }
}

/// What a client's socket gave.
#[derive(Debug)]
pub enum SocketEvent {
    /// Bytes that were typed.
    Typed(Vec<u8>),
    Told(ClientMsg),
    /// A message that cannot be read.
    Unreadable,
    /// The client has closed the socket, as it should.
    Closed,
    /// Anything else, such as a ping: an answer may wait to be flushed.
    Other,
    WouldBlock,
    /// The client is gone.
    Gone,
}

/// What follows an event of a client's socket.
#[derive(Debug, Clone, Copy, PartialEq, Eq, Structural)]
pub enum SocketNext {
    /// Read again now.
    Again,
    /// Read again now, and flush when the socket takes more.
    Flush,
    /// Wait until there is more.
    Wait,
    /// Close the connection.
    Drop,
}

/// What a flush or a write of a client's socket gave.
#[derive(Debug, Clone, Copy, PartialEq, Eq, Structural)]
pub enum SocketWrite {
    Done,
    WouldBlock,
    Gone,
}

/// What follows a flush of a client's socket.
#[derive(Debug)]
pub enum SendNext {
    /// Write this frame, then flush.
    Send(OutFrame),
    /// Wait until the socket takes more.
    Wait,
    /// Nothing waits for the client.
    Idle,
    /// Close the connection.
    Drop,
}

/// What follows a write to a client's socket.
#[derive(Debug, Clone, Copy, PartialEq, Eq, Structural)]
pub enum SentNext {
    Flush,
    Wait,
    Drop,
}

/// What follows a write to a client's socket. A frame that the socket has
/// taken is not lost where it cannot be sent at once.
pub fn after_client_write(res: SocketWrite) -> (r: SentNext)
    ensures
        r == match res {
            SocketWrite::Done => SentNext::Flush,
            SocketWrite::WouldBlock => SentNext::Wait,
            SocketWrite::Gone => SentNext::Drop,
        },
{
    match res {
        SocketWrite::Done => SentNext::Flush,
        SocketWrite::WouldBlock => SentNext::Wait,
        SocketWrite::Gone => SentNext::Drop,
    }
}

proof fn lemma_output_keeps_house(h: House, tab_id: u64, bytes: Seq<u8>, next: House)
    requires
        h.peopled(),
        anchored(h),
        h.after_output(tab_id, bytes, next),
    ensures
        next.peopled(),
        anchored(next),
{
    if let Some(w) = room_of_tab(h.rooms, tab_id) {
        lemma_room_of_tab_is(h.rooms, tab_id);
        lemma_position_is(h.rooms[w].tabs.tabs, tab_id);
        let a = choose|i: int| 0 <= i < h.rooms.len() && (#[trigger] h.rooms[i]).anchored;
        assert(next.rooms[a].anchored);
        assert forall|i: int| 0 <= i < next.rooms.len() implies (
        #[trigger] next.rooms[i]).tabs.tabs.len() > 0 by {
            assert(h.rooms[i].tabs.tabs.len() > 0);
        }
    }
}

impl HubModel {
    /// The state once the daemon's own terminal has given output: the screen
    /// has taken it.
    pub open spec fn after_pty(self, bytes: Seq<u8>, next: HubModel) -> bool {
        match self.session {
            Some(h) => {
                &&& next.session is Some
                &&& h.after_output(self.home.1, bytes, next.session->0)
                &&& next == (HubModel { session: next.session, ..self })
            },
            None => next == self,
        }
    }

    /// What is to be done with the output that has been collected: it goes to
    /// those who see the terminal.
    pub open spec fn collected(self, batch: Seq<u8>) -> (HubModel, Seq<Act>) {
        if batch.len() == 0 {
            (self, seq![])
        } else {
            let step = self.output(self.home.0, self.home.1, batch);
            (step.hub, step.acts)
        }
    }
}

impl Hub {
    /// Takes what a read from the daemon's own terminal gave. Output is shown
    /// on the screen and collected in `batch`; once there is no more for now,
    /// all of it goes to the clients. The daemon ends with the terminal's
    /// program.
    pub fn pty_read(
        &mut self,
        res: IoResult,
        bytes: &[u8],
        batch: &mut Vec<u8>,
        out: &mut Vec<Action>,
    ) -> (r: ReadNext)
        requires
            old(self).inv(),
            res matches IoResult::Done(n) ==> n == bytes@.len(),
            old(self)@.session matches Some(h) ==> h.takes_output(old(self)@.home.1, bytes@),
        ensures
            final(self).inv(),
            match res {
                IoResult::Done(n) if n > 0 => {
                    &&& r == ReadNext::Again
                    &&& old(self)@.after_pty(bytes@, final(self)@)
                    &&& final(batch)@ == old(batch)@ + bytes@
                    &&& acts(final(out)@) == acts(old(out)@)
                },
                IoResult::Interrupted => {
                    &&& r == ReadNext::Again
                    &&& final(self)@ == old(self)@
                    &&& final(batch)@ == old(batch)@
                    &&& acts(final(out)@) == acts(old(out)@)
                },
                _ => {
                    let (hub, told) = old(self)@.collected(old(batch)@);
                    &&& r == (if res == IoResult::WouldBlock {
                        ReadNext::Wait
                    } else {
                        ReadNext::Gone
                    })
                    &&& final(self)@ == hub
                    &&& final(batch)@.len() == 0
                    &&& acts(final(out)@) == acts(old(out)@) + told + (if res
                        == IoResult::WouldBlock {
                        seq![]
                    } else {
                        seq![Act::Stop]
                    })
                },
            },
    {
        let ghost start = acts(out@);
        match classify_pty_read(res) {
            PtyRead::Feed => {
                let tab: u64 = self.home.1;
                let mut taken: Option<Session> = None;
                core::mem::swap(&mut taken, &mut self.session);
                if let Some(mut session) = taken {
                    let ghost h = session@;
                    let _ = session.on_pty_output(tab, bytes);
                    proof {
                        lemma_output_keeps_house(h, tab, bytes@, session@);
                    }
                    self.session = Some(session);
                }
                batch.extend_from_slice(bytes);
                assert(batch@ =~= old(batch)@ + bytes@);
                return ReadNext::Again;
            },
            PtyRead::Retry => {
                return ReadNext::Again;
            },
            _ => {},
        }
        let (ws, tab): (u64, u64) = self.home;
        if batch.len() > 0 {
            self.fan_out_tab_bytes(ws, tab, batch.as_slice(), out);
            batch.clear();
        } else {
            assert(acts(out@) =~= start + Seq::<Act>::empty());
        }
        let ghost told = old(self)@.collected(old(batch)@).1;
        assert(acts(out@) == start + told);
        if matches!(res, IoResult::WouldBlock) {
            assert(start + told =~= start + told + Seq::<Act>::empty());
            return ReadNext::Wait;
        }
        let a = Action::Stop;
        proof {
            lemma_acts_push(out@, a);
            assert((start + told).push(Act::Stop) =~= start + told + seq![Act::Stop]);
        }
        out.push(a);
        ReadNext::Gone
    }

    /// Takes what a client's socket gave.
    pub fn client_received(&mut self, client: u64, event: SocketEvent, out: &mut Vec<Action>) -> (r:
        SocketNext)
        requires
            old(self).inv(),
            old(self)@.session matches Some(h) ==> event matches SocketEvent::Told(
                ClientMsg::Resize { workspace_id, cols, .. },
            ) ==> h.takes_width(workspace_id, cols as int),
        ensures
            final(self).inv(),
            match event {
                SocketEvent::Typed(bytes) => {
                    let (ws, tab) = match client_at(old(self)@.clients, client) {
                        Some(i) => old(self)@.clients[i].viewed,
                        None => old(self)@.home,
                    };
                    &&& r == SocketNext::Again
                    &&& final(self)@ == old(self)@
                    &&& acts(final(out)@) == acts(old(out)@) + old(self)@.input(ws, tab, bytes@)
                },
                SocketEvent::Told(msg) => {
                    &&& r == (if msg is Release {
                        SocketNext::Drop
                    } else {
                        SocketNext::Again
                    })
                    &&& old(self)@.told(client, msg, final(self)@)
                    &&& acts(final(out)@) == acts(old(out)@) + old(self)@.told_acts(client, msg)
                },
                SocketEvent::Closed => {
                    &&& r == SocketNext::Drop
                    &&& final(self)@ == old(self)@.released(client, true)
                    &&& acts(final(out)@) == acts(old(out)@)
                },
                _ => {
                    &&& r == (match event {
                        SocketEvent::Unreadable => SocketNext::Again,
                        SocketEvent::Other => SocketNext::Flush,
                        SocketEvent::WouldBlock => SocketNext::Wait,
                        _ => SocketNext::Drop,
                    })
                    &&& final(self)@ == old(self)@
                    &&& acts(final(out)@) == acts(old(out)@)
                },
            },
    {
        match event {
            SocketEvent::Typed(bytes) => {
                self.client_typed(client, bytes.as_slice(), out);
                SocketNext::Again
            },
            SocketEvent::Told(msg) => {
                if self.handle_client_msg(client, msg, out) {
                    SocketNext::Drop
                } else {
                    SocketNext::Again
                }
            },
            SocketEvent::Unreadable => SocketNext::Again,
            SocketEvent::Closed => {
                self.release_holder(client, true);
                SocketNext::Drop
            },
            SocketEvent::Other => SocketNext::Flush,
            SocketEvent::WouldBlock => SocketNext::Wait,
            SocketEvent::Gone => SocketNext::Drop,
        }
    }

    /// Takes what a flush of a client's socket gave: one frame is written at a
    /// time, in the order in which they were queued.
    pub fn client_flushed(&mut self, client: u64, res: SocketWrite) -> (r: SendNext)
        requires
            old(self).inv(),
        ensures
            final(self).inv(),
            match res {
                SocketWrite::WouldBlock => r is Wait && final(self)@ == old(self)@,
                SocketWrite::Gone => r is Drop && final(self)@ == old(self)@,
                SocketWrite::Done => match client_at(old(self)@.clients, client) {
                    Some(i) if old(self)@.clients[i].queue.len() > 0 => {
                        let c = old(self)@.clients[i];
                        &&& r matches SendNext::Send(f) && f@ == c.queue[0]
                        &&& final(self)@ == old(self)@.with_client(
                            i,
                            ClientModel { queue: c.queue.skip(1), ..c },
                        )
                    },
                    _ => r is Idle && final(self)@ == old(self)@,
                },
            },
    {
        match res {
            SocketWrite::WouldBlock => SendNext::Wait,
            SocketWrite::Gone => SendNext::Drop,
            SocketWrite::Done => match self.dequeue(client) {
                Some(f) => SendNext::Send(f),
                None => SendNext::Idle,
            },
        }
    }

    /// Takes that windows have had time to come: a daemon that none has come
    /// to ends.
    pub fn grace_over(&self, out: &mut Vec<Action>)
        ensures
            acts(final(out)@) == acts(old(out)@) + (if self@.feeders.len() == 0 {
                seq![Act::Stop]
            } else {
                seq![]
            }),
    {
        assert(self@.feeders.len() == self.feeders@.len());
        if self.feeders.len() == 0 {
            let a = Action::Stop;
            proof {
                lemma_acts_push(out@, a);
                assert(acts(out@).push(Act::Stop) =~= acts(out@) + seq![Act::Stop]);
            }
            out.push(a);
        } else {
            assert(acts(out@) =~= acts(out@) + Seq::<Act>::empty());
        }
    }
}

} // verus!
