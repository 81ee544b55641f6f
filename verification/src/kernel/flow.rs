//! What to do after a read or a write: the decisions around non-blocking
//! sources, one step at a time.

use vstd::prelude::*;
use vstd::slice::slice_subrange;

verus! {

/// What a read or a write gave.
#[derive(Debug, Clone, Copy, PartialEq, Eq, Structural)]
pub enum IoResult {
    /// This many bytes.
    Done(usize),
    WouldBlock,
    Interrupted,
    /// The error that a terminal gives when its program is gone (`EIO`).
    HungUp,
    Failed,
}

/// What a read from a terminal means.
#[derive(Debug, Clone, Copy, PartialEq, Eq, Structural)]
pub enum PtyRead {
    /// Bytes came: take them and read on.
    Feed,
    /// Nothing more for now.
    Drained,
    /// Read again.
    Retry,
    /// The program is gone.
    Closed,
    Fatal,
}

/// What a read from a terminal means.
pub fn classify_pty_read(res: IoResult) -> (r: PtyRead)
    ensures
        r == match res {
            IoResult::Done(n) => if n == 0 {
                PtyRead::Closed
            } else {
                PtyRead::Feed
            },
            IoResult::WouldBlock => PtyRead::Drained,
            IoResult::Interrupted => PtyRead::Retry,
            IoResult::HungUp => PtyRead::Closed,
            IoResult::Failed => PtyRead::Fatal,
        },
{
    match res {
        IoResult::Done(n) => if n == 0 {
            PtyRead::Closed
        } else {
            PtyRead::Feed
        },
        IoResult::WouldBlock => PtyRead::Drained,
        IoResult::Interrupted => PtyRead::Retry,
        IoResult::HungUp => PtyRead::Closed,
        IoResult::Failed => PtyRead::Fatal,
    }
}

/// What follows a write of input to a terminal, of which `written` bytes are
/// done.
#[derive(Debug, Clone, Copy, PartialEq, Eq, Structural)]
pub enum InputStep {
    /// Write on from here.
    Again { written: usize },
    /// All is written.
    Finished,
    /// The terminal takes no more: the rest is dropped.
    Dropped { written: usize },
    Failed,
}

/// What follows a write of the rest of `len` bytes of input to a terminal.
pub fn input_step(len: usize, written: usize, res: IoResult) -> (r: InputStep)
    requires
        written < len,
        res matches IoResult::Done(n) ==> n <= len - written,
    ensures
        r == match res {
            IoResult::Done(n) => if n == 0 {
                InputStep::Dropped { written }
            } else if written + n == len {
                InputStep::Finished
            } else {
                InputStep::Again { written: (written + n) as usize }
            },
            IoResult::WouldBlock => InputStep::Dropped { written },
            IoResult::Interrupted => InputStep::Again { written },
            _ => InputStep::Failed,
        },
{
    match res {
        IoResult::Done(n) => if n == 0 {
            InputStep::Dropped { written }
        } else if written + n == len {
            InputStep::Finished
        } else {
            InputStep::Again { written: written + n }
        },
        IoResult::WouldBlock => InputStep::Dropped { written },
        IoResult::Interrupted => InputStep::Again { written },
        _ => InputStep::Failed,
    }
}

/// What is to be done with a source of writes.
#[derive(Debug, Clone, Copy, PartialEq, Eq, Structural)]
pub enum WriteNext {
    /// Write again now.
    Again,
    /// Wait until the other side takes more.
    Wait,
    /// All is written.
    Idle,
    /// The other side is gone.
    Gone,
}

/// Bytes on their way out, and how many of them are written.
pub struct WritePending {
    buf: Vec<u8>,
    written: usize,
}

impl WritePending {
    /// What every such buffer keeps.
    pub closed spec fn inv(&self) -> bool {
        self.written <= self.buf@.len()
    }

    /// The bytes that are still to be written.
    pub closed spec fn left(&self) -> Seq<u8> {
        self.buf@.skip(self.written as int)
    }

    pub fn new(buf: Vec<u8>) -> (r: Self)
        ensures
            r.inv(),
            r.left() == buf@,
    {
        let r = WritePending { buf, written: 0 };
        assert(r.left() =~= buf@);
        r
    }

    /// The bytes that are still to be written.
    pub fn rest(&self) -> (r: &[u8])
        requires
            self.inv(),
        ensures
            r@ == self.left(),
    {
        let r: &[u8] = slice_subrange(self.buf.as_slice(), self.written, self.buf.len());
        assert(r@ =~= self.left());
        r
    }

    /// Takes the outcome of a write of `rest`.
    pub fn wrote(&mut self, res: IoResult) -> (r: WriteNext)
        requires
            old(self).inv(),
            res matches IoResult::Done(n) ==> n <= old(self).left().len(),
        ensures
            final(self).inv(),
            match res {
                IoResult::Done(n) => final(self).left() == old(self).left().skip(n as int) && r == (
                if n == 0 {
                    WriteNext::Gone
                } else if n == old(self).left().len() {
                    WriteNext::Idle
                } else {
                    WriteNext::Again
                }),
                IoResult::WouldBlock => final(self).left() == old(self).left() && r
                    == WriteNext::Wait,
                IoResult::Interrupted => final(self).left() == old(self).left() && r
                    == WriteNext::Again,
                _ => final(self).left() == old(self).left() && r == WriteNext::Gone,
            },
    {
        match res {
            IoResult::Done(n) => {
                let total: usize = self.buf.len();
                assert(self.written + n <= total);
                self.written = self.written + n;
                assert(self.left() =~= old(self).left().skip(n as int));
                if n == 0 {
                    WriteNext::Gone
                } else if self.written == self.buf.len() {
                    WriteNext::Idle
                } else {
                    WriteNext::Again
                }
            },
            IoResult::WouldBlock => WriteNext::Wait,
            IoResult::Interrupted => WriteNext::Again,
            _ => WriteNext::Gone,
        }
    }
}

/// What is to be done on behalf of a feeder's channel.
#[derive(Debug, Clone, Copy, PartialEq, Eq, Structural)]
pub enum ChannelNext {
    /// Write the front of the queue now.
    Write,
    /// Wait until the window takes more.
    Wait,
    /// Nothing waits.
    Idle,
    /// The window is gone, or does not read: give the feeder up.
    Down,
}

/// The bytes that a feeder's window is still to be sent. A frame is queued
/// whole, so no frame is ever sent in part.
pub struct BackChannel {
    queue: Vec<u8>,
    sent: usize,
    cap: usize,
}

impl BackChannel {
    /// What every channel keeps.
    pub closed spec fn inv(&self) -> bool {
        self.sent <= self.queue@.len()
    }

    /// The bytes that wait.
    pub closed spec fn waiting(&self) -> Seq<u8> {
        self.queue@.skip(self.sent as int)
    }

    /// The most bytes that may wait.
    pub closed spec fn limit(&self) -> nat {
        self.cap as nat
    }

    pub fn new(cap: usize) -> (r: Self)
        ensures
            r.inv(),
            r.waiting() == Seq::<u8>::empty(),
            r.limit() == cap,
    {
        let r = BackChannel { queue: Vec::new(), sent: 0, cap };
        assert(r.waiting() =~= Seq::<u8>::empty());
        r
    }

    /// The bytes that wait.
    pub fn front(&self) -> (r: &[u8])
        requires
            self.inv(),
        ensures
            r@ == self.waiting(),
    {
        let r: &[u8] = slice_subrange(self.queue.as_slice(), self.sent, self.queue.len());
        assert(r@ =~= self.waiting());
        r
    }

    /// Queues the bytes of a frame behind those that wait. `Write` where none
    /// did: they can be written at once.
    pub fn queue_frame(&mut self, frame: &[u8]) -> (r: ChannelNext)
        requires
            old(self).inv(),
        ensures
            final(self).inv(),
            final(self).limit() == old(self).limit(),
            final(self).waiting() == old(self).waiting() + frame@,
            r == (if old(self).waiting().len() == 0 {
                if frame@.len() == 0 {
                    ChannelNext::Idle
                } else {
                    ChannelNext::Write
                }
            } else if final(self).waiting().len() > final(self).limit() {
                ChannelNext::Down
            } else {
                ChannelNext::Wait
            }),
    {
        if self.sent == self.queue.len() {
            self.queue.clear();
            self.sent = 0;
            self.queue.extend_from_slice(frame);
            assert(self.waiting() =~= old(self).waiting() + frame@);
            if frame.len() == 0 {
                ChannelNext::Idle
            } else {
                ChannelNext::Write
            }
        } else {
            let rest: Vec<u8> = self.queue.split_off(self.sent);
            self.queue = rest;
            self.sent = 0;
            self.queue.extend_from_slice(frame);
            assert(self.waiting() =~= old(self).waiting() + frame@);
            if self.queue.len() > self.cap {
                ChannelNext::Down
            } else {
                ChannelNext::Wait
            }
        }
    }

    /// Takes the outcome of a write of `front`. What waits once the window
    /// takes no more must not exceed the limit.
    pub fn wrote(&mut self, res: IoResult) -> (r: ChannelNext)
        requires
            old(self).inv(),
            old(self).waiting().len() > 0,
            res matches IoResult::Done(n) ==> n <= old(self).waiting().len(),
        ensures
            final(self).inv(),
            final(self).limit() == old(self).limit(),
            match res {
                IoResult::Done(n) => final(self).waiting() == old(self).waiting().skip(n as int)
                    && r == (if n == 0 {
                    ChannelNext::Down
                } else if n == old(self).waiting().len() {
                    ChannelNext::Idle
                } else {
                    ChannelNext::Write
                }),
                IoResult::Interrupted => final(self).waiting() == old(self).waiting() && r
                    == ChannelNext::Write,
                IoResult::WouldBlock => final(self).waiting() == old(self).waiting() && r == (
                if old(self).waiting().len() > old(self).limit() {
                    ChannelNext::Down
                } else {
                    ChannelNext::Wait
                }),
                _ => final(self).waiting() == old(self).waiting() && r == ChannelNext::Down,
            },
    {
        match res {
            IoResult::Done(n) => {
                let total: usize = self.queue.len();
                assert(self.sent + n <= total);
                self.sent = self.sent + n;
                assert(self.waiting() =~= old(self).waiting().skip(n as int));
                if n == 0 {
                    ChannelNext::Down
                } else if self.sent == self.queue.len() {
                    ChannelNext::Idle
                } else {
                    ChannelNext::Write
                }
            },
            IoResult::Interrupted => ChannelNext::Write,
            IoResult::WouldBlock => if self.queue.len() - self.sent > self.cap {
                ChannelNext::Down
            } else {
                ChannelNext::Wait
            },
            _ => ChannelNext::Down,
        }
    }
}

/// What has been written and what waits is always what was queued: a write
/// takes bytes off the front, a frame goes to the back.
pub proof fn law_channel_order(waiting: Seq<u8>, frame: Seq<u8>, n: int)
    requires
        0 <= n <= waiting.len(),
    ensures
        waiting.take(n) + (waiting.skip(n) + frame) == waiting + frame,
{
    assert(waiting.take(n) + (waiting.skip(n) + frame) =~= waiting + frame);
}

} // verus!
