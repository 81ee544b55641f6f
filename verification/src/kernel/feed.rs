//! The frames between the window process and the daemon.
//!
//! ```text
//! [kind: u8][ws_id: u64 LE][tab_id: u64 LE][len: u32 LE][payload: len bytes]
//! ```

use crate::kernel::le::{get_le, le, lemma_pow256, lemma_value_le, put_le, value};
use crate::number::{decimal, push_decimal};
use crate::text::{lossy, lossy_text};
use vstd::prelude::*;
use vstd::slice::slice_subrange;
use vstd::string::StringExecFns;
use vstd::utf8::{decode_utf8, encode_utf8, valid_utf8};

verus! {

/// The bytes of a frame in front of its payload.
pub const FEED_HEADER_LEN: usize = 21;

/// The longest payload of a frame. A longer one means that the stream is out
/// of step.
pub const MAX_FEED_PAYLOAD: usize = 16777216;

/// The bytes of the payload of a `Dims` frame.
pub const DIMS_PAYLOAD_LEN: usize = 4;

/// The dead bytes in front of a decoder's buffer at which it is compacted.
pub const COMPACT_AT: usize = 65536;

/// What a frame carries, and in which direction.
#[derive(Debug, Clone, Copy, PartialEq, Eq, Structural)]
pub enum FrameKind {
    /// Window to daemon: terminal output.
    PtyOutput,
    /// Daemon to window: input for the terminal.
    Input,
    /// Window to daemon: the focus is now at the frame's workspace and tab.
    FocusChange,
    /// Window to daemon: the terminal's size.
    Dims,
    /// Window to daemon: a workspace is new.
    WorkspaceAdd,
    /// Window to daemon: a workspace is gone.
    WorkspaceRemove,
    /// Window to daemon: the whole list of tabs.
    TabList,
    /// Daemon to window: an operation on tabs.
    TabOp,
}

/// A frame.
#[derive(Debug, Clone, PartialEq, Eq)]
pub struct FeedFrame {
    pub kind: FrameKind,
    pub ws_id: u64,
    pub tab_id: u64,
    pub payload: Vec<u8>,
}

/// Why a stream cannot be decoded any further.
#[derive(Debug, Clone, Copy, PartialEq, Eq, Structural)]
pub enum FeedError {
    /// An unknown kind of frame.
    InvalidKind(u8),
    /// A payload longer than `MAX_FEED_PAYLOAD`.
    PayloadTooLarge(usize),
}

/// A frame as plain values.
#[verifier::ext_equal]
pub ghost struct Frame {
    pub kind: FrameKind,
    pub ws_id: u64,
    pub tab_id: u64,
    pub payload: Seq<u8>,
}

impl View for FeedFrame {
    type V = Frame;

    open spec fn view(&self) -> Frame {
        Frame {
            kind: self.kind,
            ws_id: self.ws_id,
            tab_id: self.tab_id,
            payload: self.payload@,
        }
    }
}

/// The byte that stands for a kind.
pub open spec fn kind_byte(kind: FrameKind) -> u8 {
    match kind {
        FrameKind::PtyOutput => 1,
        FrameKind::Input => 2,
        FrameKind::FocusChange => 3,
        FrameKind::WorkspaceAdd => 4,
        FrameKind::WorkspaceRemove => 5,
        FrameKind::Dims => 6,
        FrameKind::TabList => 7,
        FrameKind::TabOp => 8,
    }
}

impl FrameKind {
    pub fn to_u8(self) -> (r: u8)
        ensures
            r == kind_byte(self),
    {
        match self {
            FrameKind::PtyOutput => 1,
            FrameKind::Input => 2,
            FrameKind::FocusChange => 3,
            FrameKind::WorkspaceAdd => 4,
            FrameKind::WorkspaceRemove => 5,
            FrameKind::Dims => 6,
            FrameKind::TabList => 7,
            FrameKind::TabOp => 8,
        }
    }

    /// The kind that a byte stands for; none for an unknown byte.
    pub fn from_u8(v: u8) -> (r: Option<Self>)
        ensures
            match r {
                Some(kind) => kind_byte(kind) == v,
                None => forall|kind: FrameKind| kind_byte(kind) != v,
            },
    {
        match v {
            1 => Some(FrameKind::PtyOutput),
            2 => Some(FrameKind::Input),
            3 => Some(FrameKind::FocusChange),
            4 => Some(FrameKind::WorkspaceAdd),
            5 => Some(FrameKind::WorkspaceRemove),
            6 => Some(FrameKind::Dims),
            7 => Some(FrameKind::TabList),
            8 => Some(FrameKind::TabOp),
            _ => None,
        }
    }
}

/// The bytes of a frame.
pub open spec fn encoded(f: Frame) -> Seq<u8> {
    seq![kind_byte(f.kind)] + le(f.ws_id as int, 8) + le(f.tab_id as int, 8) + le(
        f.payload.len() as int,
        4,
    ) + f.payload
}

/// What stands at the front of a stream.
pub ghost enum Front {
    /// Not a whole frame yet.
    Short,
    /// A frame, and the number of its bytes.
    Whole(Frame, int),
    Bad(FeedError),
}

/// The kind with this byte.
pub open spec fn byte_kind(b: u8) -> Option<FrameKind> {
    if 1 <= b <= 8 {
        Some(choose|kind: FrameKind| kind_byte(kind) == b)
    } else {
        None
    }
}

/// What stands at the front of the stream `s`. The header is judged before
/// the payload is waited for.
pub open spec fn front(s: Seq<u8>) -> Front {
    if s.len() < FEED_HEADER_LEN {
        Front::Short
    } else {
        match byte_kind(s[0]) {
            None => Front::Bad(FeedError::InvalidKind(s[0])),
            Some(kind) => {
                let len = value(s.subrange(17, 21));
                if len > MAX_FEED_PAYLOAD {
                    Front::Bad(FeedError::PayloadTooLarge(len as usize))
                } else if s.len() < FEED_HEADER_LEN + len {
                    Front::Short
                } else {
                    Front::Whole(
                        Frame {
                            kind,
                            ws_id: value(s.subrange(1, 9)) as u64,
                            tab_id: value(s.subrange(9, 17)) as u64,
                            payload: s.subrange(21, 21 + len),
                        },
                        21 + len,
                    )
                }
            },
        }
    }
}

/// No two kinds share a byte.
pub proof fn law_kind_bytes_differ(a: FrameKind, b: FrameKind)
    ensures
        kind_byte(a) == kind_byte(b) ==> a == b,
        byte_kind(kind_byte(a)) == Some(a),
{
    let k = choose|k: FrameKind| kind_byte(k) == kind_byte(a);
    assert(kind_byte(k) == kind_byte(a));
}

/// A frame that was encoded is decoded, whatever follows it.
pub proof fn law_decode_encoded(f: Frame, rest: Seq<u8>)
    requires
        f.payload.len() <= MAX_FEED_PAYLOAD,
    ensures
        front(encoded(f) + rest) == Front::Whole(f, encoded(f).len() as int),
        encoded(f).len() == FEED_HEADER_LEN + f.payload.len(),
{
    let s = encoded(f) + rest;
    lemma_pow256();
    lemma_value_le(f.ws_id as int, 8);
    lemma_value_le(f.tab_id as int, 8);
    lemma_value_le(f.payload.len() as int, 4);
    law_kind_bytes_differ(f.kind, f.kind);
    assert(s.subrange(1, 9) =~= le(f.ws_id as int, 8));
    assert(s.subrange(9, 17) =~= le(f.tab_id as int, 8));
    assert(s.subrange(17, 21) =~= le(f.payload.len() as int, 4));
    assert(s.subrange(21, 21 + f.payload.len() as int) =~= f.payload);
}

/// What stands whole at the front of a stream, or is bad there, stays so
/// however the stream goes on.
pub proof fn law_front_stable(s: Seq<u8>, more: Seq<u8>)
    requires
        !(front(s) is Short),
    ensures
        front(s + more) == front(s),
{
    let t = s + more;
    assert(t.subrange(1, 9) =~= s.subrange(1, 9));
    assert(t.subrange(9, 17) =~= s.subrange(9, 17));
    assert(t.subrange(17, 21) =~= s.subrange(17, 21));
    let len = value(s.subrange(17, 21));
    if len <= MAX_FEED_PAYLOAD && byte_kind(s[0]) is Some {
        crate::kernel::le::lemma_value_bound(s.subrange(17, 21));
        assert(t.subrange(21, 21 + len) =~= s.subrange(21, 21 + len));
    }
}

/// All frames of a stream up to the first that is not whole or is bad.
pub open spec fn frames(s: Seq<u8>) -> Seq<Frame>
    decreases s.len(),
{
    match front(s) {
        Front::Whole(f, n) => if 0 < n <= s.len() {
            seq![f] + frames(s.skip(n))
        } else {
            seq![]
        },
        _ => seq![],
    }
}

/// What is left of a stream once its frames are taken.
pub open spec fn leftover(s: Seq<u8>) -> Seq<u8>
    decreases s.len(),
{
    match front(s) {
        Front::Whole(_, n) => if 0 < n <= s.len() {
            leftover(s.skip(n))
        } else {
            s
        },
        _ => s,
    }
}

/// The views of frames.
pub open spec fn frame_views(s: Seq<FeedFrame>) -> Seq<Frame> {
    s.map_values(|f: FeedFrame| f@)
}

/// However a stream is cut into pieces, it holds the same frames, as long as
/// none of them is bad.
pub proof fn law_stream_in_pieces(a: Seq<u8>, b: Seq<u8>)
    requires
        !(front(leftover(a)) is Bad),
    ensures
        frames(a + b) == frames(a) + frames(leftover(a) + b),
        leftover(a + b) == leftover(leftover(a) + b),
    decreases a.len(),
{
    match front(a) {
        Front::Whole(f, n) => {
            if 0 < n <= a.len() {
                law_front_stable(a, b);
                let rest = a.skip(n);
                law_stream_in_pieces(rest, b);
                assert((a + b).skip(n) =~= rest + b);
                assert(seq![f] + (frames(rest) + frames(leftover(rest) + b)) =~= (seq![f] + frames(
                    rest,
                )) + frames(leftover(rest) + b));
            } else {
                crate::kernel::le::lemma_value_bound(a.subrange(17, 21));
                assert(false);
            }
        },
        _ => {
            assert(frames(a) + frames(a + b) =~= frames(a + b));
        },
    }
}

/// Once a frame of a stream is bad, nothing that follows is decoded.
pub proof fn law_bad_stream_ends(a: Seq<u8>, b: Seq<u8>)
    requires
        front(leftover(a)) is Bad,
    ensures
        frames(a + b) == frames(a),
        front(leftover(a + b)) == front(leftover(a)),
    decreases a.len(),
{
    match front(a) {
        Front::Whole(f, n) => {
            if 0 < n <= a.len() {
                law_front_stable(a, b);
                law_bad_stream_ends(a.skip(n), b);
                assert((a + b).skip(n) =~= a.skip(n) + b);
            } else {
                crate::kernel::le::lemma_value_bound(a.subrange(17, 21));
                assert(false);
            }
        },
        _ => {
            law_front_stable(a, b);
        },
    }
}

/// The bytes of a list of frames, one behind the other.
pub open spec fn encoded_all(fs: Seq<Frame>) -> Seq<u8>
    decreases fs.len(),
{
    if fs.len() == 0 {
        seq![]
    } else {
        encoded(fs[0]) + encoded_all(fs.skip(1))
    }
}

/// A stream of encoded frames decodes to these frames.
pub proof fn law_decode_all(fs: Seq<Frame>)
    requires
        forall|i: int| 0 <= i < fs.len() ==> (#[trigger] fs[i]).payload.len() <= MAX_FEED_PAYLOAD,
    ensures
        frames(encoded_all(fs)) == fs,
    decreases fs.len(),
{
    if fs.len() == 0 {
        assert(frames(encoded_all(fs)) =~= fs);
    } else {
        let rest = encoded_all(fs.skip(1));
        law_decode_encoded(fs[0], rest);
        law_decode_all(fs.skip(1));
        assert((encoded(fs[0]) + rest).skip(encoded(fs[0]).len() as int) =~= rest);
        assert(seq![fs[0]] + fs.skip(1) =~= fs);
    }
}

proof fn lemma_nothing_left(fs: Seq<Frame>)
    requires
        forall|i: int| 0 <= i < fs.len() ==> (#[trigger] fs[i]).payload.len() <= MAX_FEED_PAYLOAD,
    ensures
        leftover(encoded_all(fs)) == Seq::<u8>::empty(),
    decreases fs.len(),
{
    if fs.len() > 0 {
        let rest = encoded_all(fs.skip(1));
        law_decode_encoded(fs[0], rest);
        lemma_nothing_left(fs.skip(1));
        assert((encoded(fs[0]) + rest).skip(encoded(fs[0]).len() as int) =~= rest);
    }
}

/// What is done with a decoder: a piece of the stream is pushed, or the next
/// frame is asked for.
pub ghost enum Call {
    Push(Seq<u8>),
    Next,
}

/// What a decoder has not decoded yet, and the frames that it has given.
pub ghost struct Decoding {
    pub unread: Seq<u8>,
    pub given: Seq<Frame>,
}

/// A decoder after the first `n` calls.
pub open spec fn decoding(calls: Seq<Call>, n: int) -> Decoding
    decreases n,
{
    if n <= 0 {
        Decoding { unread: seq![], given: seq![] }
    } else {
        let d = decoding(calls, n - 1);
        match calls[n - 1] {
            Call::Push(bytes) => Decoding { unread: d.unread + bytes, ..d },
            Call::Next => match front(d.unread) {
                Front::Whole(f, k) => Decoding { unread: d.unread.skip(k), given: d.given.push(f) },
                _ => d,
            },
        }
    }
}

/// All that the first `n` calls have pushed.
pub open spec fn pushed(calls: Seq<Call>, n: int) -> Seq<u8>
    decreases n,
{
    if n <= 0 {
        seq![]
    } else {
        match calls[n - 1] {
            Call::Push(bytes) => pushed(calls, n - 1) + bytes,
            Call::Next => pushed(calls, n - 1),
        }
    }
}

proof fn lemma_decoding(calls: Seq<Call>, n: int, more: Seq<u8>)
    ensures
        ({
            let d = decoding(calls, n);
            &&& frames(pushed(calls, n) + more) == d.given + frames(d.unread + more)
            &&& leftover(pushed(calls, n) + more) == leftover(d.unread + more)
        }),
    decreases n,
{
    let d = decoding(calls, n);
    let p = pushed(calls, n);
    if n <= 0 {
        assert(p + more =~= d.unread + more);
        assert(d.given + frames(more) =~= frames(more));
        assert(d.unread + more =~= more);
    } else {
        let before = decoding(calls, n - 1);
        let q = pushed(calls, n - 1);
        match calls[n - 1] {
            Call::Push(bytes) => {
                lemma_decoding(calls, n - 1, bytes + more);
                assert(q + (bytes + more) =~= p + more);
                assert(before.unread + (bytes + more) =~= d.unread + more);
            },
            Call::Next => {
                lemma_decoding(calls, n - 1, more);
                if let Front::Whole(f, k) = front(before.unread) {
                    law_front_stable(before.unread, more);
                    crate::kernel::le::lemma_value_bound(before.unread.subrange(17, 21));
                    assert((before.unread + more).skip(k) =~= d.unread + more);
                    assert(before.given + (seq![f] + frames(d.unread + more)) =~= d.given + frames(
                        d.unread + more,
                    ));
                }
            },
        }
    }
}

/// The frames that a decoder gives depend on nothing but the bytes that were
/// pushed, however they were cut and whenever it was asked: those given and
/// those still in it are the frames of the stream.
pub proof fn law_calls_in_any_order(calls: Seq<Call>, n: int)
    ensures
        ({
            let d = decoding(calls, n);
            &&& d.given + frames(d.unread) == frames(pushed(calls, n))
            &&& leftover(d.unread) == leftover(pushed(calls, n))
        }),
{
    lemma_decoding(calls, n, seq![]);
    assert(pushed(calls, n) + seq![] =~= pushed(calls, n));
    assert(decoding(calls, n).unread + seq![] =~= decoding(calls, n).unread);
}

/// Of a stream of encoded frames a decoder gives these frames, in order, and
/// once it has given all of them it waits for more; a frame is never bad.
pub proof fn law_frames_come_out(fs: Seq<Frame>, calls: Seq<Call>, n: int)
    requires
        forall|i: int| 0 <= i < fs.len() ==> (#[trigger] fs[i]).payload.len() <= MAX_FEED_PAYLOAD,
        pushed(calls, n) == encoded_all(fs),
    ensures
        ({
            let d = decoding(calls, n);
            &&& d.given.len() <= fs.len() && d.given == fs.take(d.given.len() as int)
            &&& !(front(d.unread) is Bad)
            &&& front(d.unread) is Short <==> d.given == fs
        }),
{
    let d = decoding(calls, n);
    law_decode_all(fs);
    lemma_nothing_left(fs);
    law_calls_in_any_order(calls, n);
    assert(d.given =~= fs.take(d.given.len() as int));
    match front(d.unread) {
        Front::Whole(f, k) => {
            crate::kernel::le::lemma_value_bound(d.unread.subrange(17, 21));
            assert(frames(d.unread).len() > 0);
        },
        Front::Short => {
            assert(frames(d.unread).len() == 0);
            assert(d.given =~= fs);
        },
        Front::Bad(_) => {
            assert(leftover(d.unread) == d.unread);
            assert(d.unread.len() == 0);
        },
    }
}

/// Appends a frame to `buf`.
pub fn encode_into(buf: &mut Vec<u8>, kind: FrameKind, ws_id: u64, tab_id: u64, payload: &[u8])
    requires
        payload@.len() <= MAX_FEED_PAYLOAD,
    ensures
        final(buf)@ == old(buf)@ + encoded(Frame { kind, ws_id, tab_id, payload: payload@ }),
{
    buf.push(kind.to_u8());
    put_le(buf, ws_id, 8);
    put_le(buf, tab_id, 8);
    put_le(buf, payload.len() as u64, 4);
    buf.extend_from_slice(payload);
    assert(buf@ =~= old(buf)@ + encoded(Frame { kind, ws_id, tab_id, payload: payload@ }));
}

impl FeedFrame {
    /// The bytes of the frame.
    pub fn encode(&self) -> (r: Vec<u8>)
        requires
            self.payload@.len() <= MAX_FEED_PAYLOAD,
        ensures
            r@ == encoded(self@),
    {
        let mut out: Vec<u8> = Vec::with_capacity(FEED_HEADER_LEN + self.payload.len());
        encode_into(&mut out, self.kind, self.ws_id, self.tab_id, self.payload.as_slice());
        assert(Seq::<u8>::empty() + encoded(self@) =~= encoded(self@));
        out
    }
}

impl FeedError {
    /// The error in words.
    pub open spec fn text(&self) -> Seq<char> {
        match self {
            FeedError::InvalidKind(v) => "未知喂料帧 kind 字节: "@ + decimal(*v as nat),
            FeedError::PayloadTooLarge(n) => "喂料帧 payload 长度 "@ + decimal(*n as nat)
                + " 超上限 16777216"@,
        }
    }

    /// The error in words.
    pub fn to_string(&self) -> (r: String)
        ensures
            r@ == self.text(),
    {
        match self {
            FeedError::InvalidKind(v) => {
                let mut out: String = "未知喂料帧 kind 字节: ".to_owned();
                push_decimal(&mut out, *v as u64);
                out
            },
            FeedError::PayloadTooLarge(n) => {
                let mut out: String = "喂料帧 payload 长度 ".to_owned();
                push_decimal(&mut out, *n as u64);
                out.append(" 超上限 16777216");
                out
            },
        }
    }
}

/// Decodes a stream of frames that arrives in pieces.
#[derive(Debug)]
pub struct FeedDecoder {
    buf: Vec<u8>,
    consumed: usize,
}

impl FeedDecoder {
    /// What every decoder keeps: it has decoded no more than it holds.
    pub closed spec fn inv(&self) -> bool {
        self.consumed <= self.buf@.len()
    }

    /// The bytes that have been pushed and not been decoded.
    pub closed spec fn unread(&self) -> Seq<u8> {
        self.buf@.skip(self.consumed as int)
    }

    /// The number of bytes that the decoder holds.
    pub closed spec fn held(&self) -> nat {
        self.buf@.len()
    }

    pub fn new() -> (r: Self)
        ensures
            r.inv(),
            r.unread() == Seq::<u8>::empty(),
            r.held() == 0,
    {
        let r = FeedDecoder { buf: Vec::new(), consumed: 0 };
        assert(r.unread() =~= Seq::<u8>::empty());
        r
    }

    /// The number of bytes that the decoder holds, decoded ones that it has
    /// not let go yet among them.
    pub fn buffered(&self) -> (n: usize)
        ensures
            n == self.held(),
    {
        self.buf.len()
    }

    /// Adds the next piece of the stream. Decoded bytes are let go first, all
    /// of them or as soon as there are `COMPACT_AT`.
    pub fn push(&mut self, bytes: &[u8])
        requires
            old(self).inv(),
        ensures
            final(self).inv(),
            final(self).unread() == old(self).unread() + bytes@,
            final(self).held() < final(self).unread().len() + COMPACT_AT,
            old(self).unread().len() == 0 ==> final(self).held() == bytes@.len(),
    {
        let n: usize = self.buf.len();
        if self.consumed == n {
            self.buf.clear();
            self.consumed = 0;
        } else if self.consumed >= COMPACT_AT {
            let rest: Vec<u8> = self.buf.split_off(self.consumed);
            assert(rest@ =~= self.unread() + rest@);
            self.buf = rest;
            self.consumed = 0;
        }
        assert(self.unread() =~= old(self).unread());
        self.buf.extend_from_slice(bytes);
        assert(self.unread() =~= old(self).unread() + bytes@);
    }

    /// Takes the next frame off the stream: none where it is not whole yet.
    pub fn next_frame(&mut self) -> (r: Result<Option<FeedFrame>, FeedError>)
        requires
            old(self).inv(),
        ensures
            final(self).inv(),
            final(self).held() == old(self).held(),
            match front(old(self).unread()) {
                Front::Short => r == Ok::<Option<FeedFrame>, FeedError>(None)
                    && final(self).unread() == old(self).unread(),
                Front::Bad(e) => r == Err::<Option<FeedFrame>, FeedError>(e)
                    && final(self).unread() == old(self).unread(),
                Front::Whole(f, n) => (r matches Ok(Some(got)) && got@ == f)
                    && final(self).unread() == old(self).unread().skip(n),
            },
    {
        let avail: &[u8] = slice_subrange(self.buf.as_slice(), self.consumed, self.buf.len());
        assert(avail@ =~= self.unread());
        if avail.len() < FEED_HEADER_LEN {
            return Ok(None);
        }
        let b: u8 = avail[0];
        let kind: FrameKind = match FrameKind::from_u8(b) {
            Some(kind) => {
                proof {
                    law_kind_bytes_differ(kind, kind);
                }
                kind
            },
            None => {
                proof {
                    if 1 <= b <= 8 {
                        lemma_byte_has_kind(b);
                    }
                }
                return Err(FeedError::InvalidKind(b));
            },
        };
        proof {
            lemma_pow256();
        }
        let ws_id: u64 = get_le(avail, 1, 8);
        let tab_id: u64 = get_le(avail, 9, 8);
        let len: usize = get_le(avail, 17, 4) as usize;
        if len > MAX_FEED_PAYLOAD {
            return Err(FeedError::PayloadTooLarge(len));
        }
        if avail.len() - FEED_HEADER_LEN < len {
            return Ok(None);
        }
        let total: usize = FEED_HEADER_LEN + len;
        let mut payload: Vec<u8> = Vec::with_capacity(len);
        payload.extend_from_slice(slice_subrange(avail, FEED_HEADER_LEN, total));
        assert(payload@ =~= avail@.subrange(21, 21 + len));
        self.consumed = self.consumed + total;
        assert(self.unread() =~= old(self).unread().skip(total as int));
        Ok(Some(FeedFrame { kind, ws_id, tab_id, payload }))
    }
}

impl FeedDecoder {
    /// Adds the next piece of the stream and takes all frames that are whole
    /// by then, with the error where the next one is bad.
    pub fn drain(&mut self, bytes: &[u8]) -> (r: (Vec<FeedFrame>, Option<FeedError>))
        requires
            old(self).inv(),
        ensures
            final(self).inv(),
            frame_views(r.0@) == frames(old(self).unread() + bytes@),
            final(self).unread() == leftover(old(self).unread() + bytes@),
            r.1 == (match front(final(self).unread()) {
                Front::Bad(e) => Some(e),
                _ => None,
            }),
    {
        let ghost whole = old(self).unread() + bytes@;
        self.push(bytes);
        let mut out: Vec<FeedFrame> = Vec::new();
        assert(frame_views(out@) + frames(self.unread()) =~= frames(whole));
        loop
            invariant
                self.inv(),
                whole == old(self).unread() + bytes@,
                frame_views(out@) + frames(self.unread()) == frames(whole),
                leftover(self.unread()) == leftover(whole),
            decreases self.unread().len(),
        {
            let ghost before = self.unread();
            let ghost held = frame_views(out@);
            match self.next_frame() {
                Ok(Some(f)) => {
                    proof {
                        let n = front(before)->Whole_1;
                        crate::kernel::le::lemma_value_bound(before.subrange(17, 21));
                        assert(0 < n <= before.len());
                        assert(frame_views(out@.push(f)) =~= held.push(f@));
                        assert(held.push(f@) + frames(before.skip(n)) =~= held + (seq![f@] + frames(
                            before.skip(n),
                        )));
                    }
                    out.push(f);
                },
                Ok(None) => {
                    assert(held + seq![] =~= held);
                    return (out, None);
                },
                Err(e) => {
                    assert(held + seq![] =~= held);
                    return (out, Some(e));
                },
            }
        }
    }
}

impl Default for FeedDecoder {
    fn default() -> (r: Self)
        ensures
            r.inv(),
            r.unread() == Seq::<u8>::empty(),
            r.held() == 0,
    {
        FeedDecoder::new()
    }
}

proof fn lemma_byte_has_kind(b: u8)
    requires
        1 <= b <= 8,
    ensures
        exists|kind: FrameKind| kind_byte(kind) == b,
{
    assert(kind_byte(FrameKind::PtyOutput) == 1);
    assert(kind_byte(FrameKind::Input) == 2);
    assert(kind_byte(FrameKind::FocusChange) == 3);
    assert(kind_byte(FrameKind::WorkspaceAdd) == 4);
    assert(kind_byte(FrameKind::WorkspaceRemove) == 5);
    assert(kind_byte(FrameKind::Dims) == 6);
    assert(kind_byte(FrameKind::TabList) == 7);
    assert(kind_byte(FrameKind::TabOp) == 8);
}

/// The payload of a `Dims` frame.
pub open spec fn dims_payload(cols: u16, rows: u16) -> Seq<u8> {
    le(cols as int, 2) + le(rows as int, 2)
}

/// The payload of a `Dims` frame.
pub fn encode_dims(cols: u16, rows: u16) -> (r: [u8; 4])
    ensures
        r@ == dims_payload(cols, rows),
{
    let r: [u8; 4] = [
        (cols % 256) as u8,
        (cols / 256) as u8,
        (rows % 256) as u8,
        (rows / 256) as u8,
    ];
    proof {
        reveal_with_fuel(le, 3);
        assert(r@ =~= dims_payload(cols, rows));
    }
    r
}

/// The size that a payload tells; none unless it has exactly four bytes.
pub open spec fn dims(payload: Seq<u8>) -> Option<(u16, u16)> {
    if payload.len() == DIMS_PAYLOAD_LEN {
        Some((value(payload.subrange(0, 2)) as u16, value(payload.subrange(2, 4)) as u16))
    } else {
        None
    }
}

/// The size that the payload of a `Dims` frame tells.
pub fn decode_dims(payload: &[u8]) -> (r: Option<(u16, u16)>)
    ensures
        r == dims(payload@),
{
    if payload.len() != DIMS_PAYLOAD_LEN {
        return None;
    }
    let cols: u64 = get_le(payload, 0, 2);
    let rows: u64 = get_le(payload, 2, 2);
    proof {
        lemma_pow256();
    }
    Some((cols as u16, rows as u16))
}

/// A size that was encoded is decoded.
pub proof fn law_dims_roundtrip(cols: u16, rows: u16)
    ensures
        dims(dims_payload(cols, rows)) == Some((cols, rows)),
{
    lemma_pow256();
    lemma_value_le(cols as int, 2);
    lemma_value_le(rows as int, 2);
    assert(dims_payload(cols, rows).subrange(0, 2) =~= le(cols as int, 2));
    assert(dims_payload(cols, rows).subrange(2, 4) =~= le(rows as int, 2));
}

/// A tab in a list: its number, and its title's bytes.
pub ghost struct TabEntry {
    pub id: u64,
    pub title: Seq<u8>,
}

/// The bytes of one tab in a list.
pub open spec fn tab_bytes(t: TabEntry) -> Seq<u8> {
    le(t.id as int, 8) + le(t.title.len() as int, 4) + t.title
}

/// The bytes of the tabs in a list.
pub open spec fn tabs_bytes(tabs: Seq<TabEntry>) -> Seq<u8>
    decreases tabs.len(),
{
    if tabs.len() == 0 {
        seq![]
    } else {
        tab_bytes(tabs[0]) + tabs_bytes(tabs.skip(1))
    }
}

/// The payload of a `TabList` frame. Only the lowest four bytes of a length or
/// an index are written.
pub open spec fn tab_list_payload(active: int, tabs: Seq<TabEntry>) -> Seq<u8> {
    le(active, 4) + le(tabs.len() as int, 4) + tabs_bytes(tabs)
}

/// The tabs as entries.
pub open spec fn entries(tabs: Seq<(u64, &str)>) -> Seq<TabEntry> {
    tabs.map_values(|t: (u64, &str)| TabEntry { id: t.0, title: encode_utf8(t.1@) })
}

proof fn lemma_tabs_bytes_push(tabs: Seq<TabEntry>, t: TabEntry)
    ensures
        tabs_bytes(tabs.push(t)) == tabs_bytes(tabs) + tab_bytes(t),
    decreases tabs.len(),
{
    if tabs.len() == 0 {
        assert(tabs.push(t).skip(1) =~= Seq::<TabEntry>::empty());
        assert(tabs_bytes(tabs.push(t)) == tab_bytes(t) + tabs_bytes(Seq::<TabEntry>::empty()));
        assert(tab_bytes(t) + Seq::<u8>::empty() =~= Seq::<u8>::empty() + tab_bytes(t));
    } else {
        lemma_tabs_bytes_push(tabs.skip(1), t);
        assert(tabs.push(t).skip(1) =~= tabs.skip(1).push(t));
        assert(tabs_bytes(tabs.push(t)) =~= tabs_bytes(tabs) + tab_bytes(t));
    }
}

/// The payload of a `TabList` frame.
pub fn encode_tab_list(active_idx: usize, tabs: &[(u64, &str)]) -> (r: Vec<u8>)
    ensures
        r@ == tab_list_payload(active_idx as int, entries(tabs@)),
{
    let mut out: Vec<u8> = Vec::new();
    put_le(&mut out, active_idx as u64, 4);
    put_le(&mut out, tabs.len() as u64, 4);
    let ghost head = out@;
    let ghost all = entries(tabs@);
    let mut i: usize = 0;
    assert(all.take(0) =~= Seq::<TabEntry>::empty());
    assert(out@ =~= head + tabs_bytes(all.take(0)));
    while i < tabs.len()
        invariant
            i <= tabs@.len(),
            all == entries(tabs@),
            out@ == head + tabs_bytes(all.take(i as int)),
        decreases tabs@.len() - i,
    {
        let ghost before = out@;
        let title: &[u8] = tabs[i].1.as_bytes();
        put_le(&mut out, tabs[i].0, 8);
        put_le(&mut out, title.len() as u64, 4);
        out.extend_from_slice(title);
        proof {
            let t = all[i as int];
            assert(out@ =~= before + tab_bytes(t));
            lemma_tabs_bytes_push(all.take(i as int), t);
            assert(all.take(i as int).push(t) =~= all.take(i + 1));
            assert(head + (tabs_bytes(all.take(i as int)) + tab_bytes(t)) =~= before + tab_bytes(t));
        }
        i = i + 1;
    }
    assert(all.take(all.len() as int) =~= all);
    assert(head =~= le(active_idx as int, 4) + le(tabs@.len() as int, 4));
    out
}

/// Reads `n` tabs off the front of `s`; none where it is too short. What is
/// behind them is ignored.
pub open spec fn read_tabs(s: Seq<u8>, n: int) -> Option<Seq<TabEntry>>
    decreases n,
{
    if n <= 0 {
        Some(seq![])
    } else if s.len() < 12 {
        None
    } else {
        let len = value(s.subrange(8, 12));
        if s.len() < 12 + len {
            None
        } else {
            match read_tabs(s.skip(12 + len), n - 1) {
                Some(rest) => Some(
                    seq![
                        TabEntry {
                            id: value(s.subrange(0, 8)) as u64,
                            title: s.subrange(12, 12 + len),
                        },
                    ] + rest,
                ),
                None => None,
            }
        }
    }
}

/// The index and the tabs that the payload of a `TabList` frame tells.
pub open spec fn tab_list(payload: Seq<u8>) -> Option<(int, Seq<TabEntry>)> {
    if payload.len() < 8 {
        None
    } else {
        match read_tabs(payload.skip(8), value(payload.subrange(4, 8))) {
            Some(tabs) => Some((value(payload.subrange(0, 4)), tabs)),
            None => None,
        }
    }
}

/// The tabs are the entries, their titles read as text.
pub open spec fn titled(tabs: Seq<(u64, String)>, es: Seq<TabEntry>) -> bool {
    &&& tabs.len() == es.len()
    &&& forall|i: int|
        0 <= i < tabs.len() ==> {
            &&& (#[trigger] tabs[i]).0 == es[i].id
            &&& tabs[i].1@ == lossy_text(es[i].title)
            &&& valid_utf8(es[i].title) ==> tabs[i].1@ == decode_utf8(es[i].title)
        }
}

/// The index and the tabs that the payload of a `TabList` frame tells; none
/// where it is cut short.
pub fn decode_tab_list(payload: &[u8]) -> (r: Option<(usize, Vec<(u64, String)>)>)
    ensures
        match r {
            Some((active, tabs)) => tab_list(payload@) matches Some((a, es)) && active == a
                && titled(tabs@, es),
            None => tab_list(payload@) is None,
        },
{
    if payload.len() < 8 {
        return None;
    }
    proof {
        lemma_pow256();
    }
    let active: usize = get_le(payload, 0, 4) as usize;
    let count: usize = get_le(payload, 4, 4) as usize;
    let mut tabs: Vec<(u64, String)> = Vec::new();
    let ghost mut done: Seq<TabEntry> = seq![];
    let ghost whole = read_tabs(payload@.skip(8), count as int);
    let mut at: usize = 8;
    let mut k: usize = 0;
    while k < count
        invariant
            8 <= at <= payload@.len(),
            k <= count,
            count == value(payload@.subrange(4, 8)),
            active == value(payload@.subrange(0, 4)),
            whole == read_tabs(payload@.skip(8), count as int),
            titled(tabs@, done),
            match read_tabs(payload@.skip(at as int), count - k) {
                Some(rest) => whole == Some(done + rest),
                None => whole is None,
            },
        decreases count - k,
    {
        let ghost s = payload@.skip(at as int);
        if payload.len() - at < 12 {
            return None;
        }
        let id: u64 = get_le(payload, at, 8);
        let len64: u64 = get_le(payload, at + 8, 4);
        proof {
            lemma_pow256();
            assert(payload@.subrange(at as int, at + 8) =~= s.subrange(0, 8));
            assert(payload@.subrange(at + 8, at + 12) =~= s.subrange(8, 12));
        }
        let len: usize = len64 as usize;
        if payload.len() - at - 12 < len {
            return None;
        }
        let bytes: &[u8] = slice_subrange(payload, at + 12, at + 12 + len);
        let title: String = lossy(bytes);
        proof {
            assert(bytes@ =~= s.subrange(12, 12 + len));
            assert(s.skip(12 + len) =~= payload@.skip(at + 12 + len));
            let e = TabEntry { id, title: bytes@ };
            match read_tabs(s.skip(12 + len), count - k - 1) {
                Some(rest) => {
                    assert(done + (seq![e] + rest) =~= done.push(e) + rest);
                },
                None => {},
            }
            done = done.push(e);
        }
        tabs.push((id, title));
        at = at + 12 + len;
        k = k + 1;
    }
    assert(done + Seq::<TabEntry>::empty() =~= done);
    Some((active, tabs))
}

proof fn lemma_read_tabs_bytes(tabs: Seq<TabEntry>)
    requires
        forall|i: int| 0 <= i < tabs.len() ==> (#[trigger] tabs[i]).title.len() <= u32::MAX,
    ensures
        read_tabs(tabs_bytes(tabs), tabs.len() as int) == Some(tabs),
    decreases tabs.len(),
{
    if tabs.len() == 0 {
        assert(tabs =~= seq![]);
    } else {
        let t = tabs[0];
        let s = tabs_bytes(tabs);
        lemma_pow256();
        lemma_value_le(t.id as int, 8);
        lemma_value_le(t.title.len() as int, 4);
        assert(s.subrange(0, 8) =~= le(t.id as int, 8));
        assert(s.subrange(8, 12) =~= le(t.title.len() as int, 4));
        assert(s.subrange(12, 12 + t.title.len() as int) =~= t.title);
        assert(s.skip(12 + t.title.len() as int) =~= tabs_bytes(tabs.skip(1)));
        lemma_read_tabs_bytes(tabs.skip(1));
        assert(seq![t] + tabs.skip(1) =~= tabs);
    }
}

/// A list of tabs that was encoded is decoded.
pub proof fn law_tab_list_roundtrip(active: int, tabs: Seq<TabEntry>)
    requires
        0 <= active <= u32::MAX,
        tabs.len() <= u32::MAX,
        forall|i: int| 0 <= i < tabs.len() ==> (#[trigger] tabs[i]).title.len() <= u32::MAX,
    ensures
        tab_list(tab_list_payload(active, tabs)) == Some((active, tabs)),
{
    let p = tab_list_payload(active, tabs);
    lemma_pow256();
    lemma_value_le(active, 4);
    lemma_value_le(tabs.len() as int, 4);
    assert(p.subrange(0, 4) =~= le(active, 4));
    assert(p.subrange(4, 8) =~= le(tabs.len() as int, 4));
    assert(p.skip(8) =~= tabs_bytes(tabs));
    lemma_read_tabs_bytes(tabs);
}

/// A list of tabs that was encoded is decoded, titles and all.
pub proof fn law_tabs_roundtrip(
    active: int,
    tabs: Seq<(u64, &str)>,
    decoded: (usize, Vec<(u64, String)>),
)
    requires
        0 <= active <= u32::MAX,
        tabs.len() <= u32::MAX,
        forall|i: int| 0 <= i < tabs.len() ==> encode_utf8((#[trigger] tabs[i]).1@).len() <= u32::MAX,
        tab_list(tab_list_payload(active, entries(tabs))) matches Some((a, es)) && decoded.0 == a
            && titled(decoded.1@, es),
    ensures
        decoded.0 == active,
        decoded.1@.len() == tabs.len(),
        forall|i: int|
            0 <= i < tabs.len() ==> (#[trigger] decoded.1@[i]).0 == tabs[i].0 && decoded.1@[i].1@
                == tabs[i].1@,
{
    let es = entries(tabs);
    assert forall|i: int| 0 <= i < es.len() implies (#[trigger] es[i]).title.len() <= u32::MAX by {
        assert(encode_utf8(tabs[i].1@).len() <= u32::MAX);
    }
    law_tab_list_roundtrip(active, es);
    assert forall|i: int| 0 <= i < tabs.len() implies (#[trigger] decoded.1@[i]).0 == tabs[i].0
        && decoded.1@[i].1@ == tabs[i].1@ by {
        vstd::utf8::encode_utf8_valid_utf8(tabs[i].1@);
        vstd::utf8::encode_utf8_decode_utf8(tabs[i].1@);
        assert(es[i].title == encode_utf8(tabs[i].1@));
    }
}

proof fn lemma_read_tabs_stable(s: Seq<u8>, more: Seq<u8>, n: int)
    requires
        read_tabs(s, n) is Some,
    ensures
        read_tabs(s + more, n) == read_tabs(s, n),
    decreases n,
{
    if n > 0 {
        let t = s + more;
        let len = value(s.subrange(8, 12));
        crate::kernel::le::lemma_value_bound(s.subrange(8, 12));
        assert(t.subrange(0, 8) =~= s.subrange(0, 8));
        assert(t.subrange(8, 12) =~= s.subrange(8, 12));
        assert(t.subrange(12, 12 + len) =~= s.subrange(12, 12 + len));
        assert(t.skip(12 + len) =~= s.skip(12 + len) + more);
        lemma_read_tabs_stable(s.skip(12 + len), more, n - 1);
    }
}

proof fn lemma_read_tabs_cut(tabs: Seq<TabEntry>, k: int)
    requires
        forall|i: int| 0 <= i < tabs.len() ==> (#[trigger] tabs[i]).title.len() <= u32::MAX,
        0 <= k < tabs_bytes(tabs).len(),
    ensures
        read_tabs(tabs_bytes(tabs).take(k), tabs.len() as int) is None,
    decreases tabs.len(),
{
    let t = tabs[0];
    let s = tabs_bytes(tabs);
    let cut = s.take(k);
    let rest = tabs.skip(1);
    let n = tab_bytes(t).len() as int;
    lemma_pow256();
    lemma_value_le(t.id as int, 8);
    lemma_value_le(t.title.len() as int, 4);
    assert(n == 12 + t.title.len());
    if k >= 12 {
        assert(cut.subrange(8, 12) =~= le(t.title.len() as int, 4));
        if k >= n {
            assert(cut.skip(n) =~= tabs_bytes(rest).take(k - n));
            lemma_read_tabs_cut(rest, k - n);
        }
    }
}

/// A list of tabs that is cut short is none, and what stands behind a whole one
/// is ignored.
pub proof fn law_tab_list_is_whole(active: int, tabs: Seq<TabEntry>, k: int, more: Seq<u8>)
    requires
        0 <= active <= u32::MAX,
        tabs.len() <= u32::MAX,
        forall|i: int| 0 <= i < tabs.len() ==> (#[trigger] tabs[i]).title.len() <= u32::MAX,
        0 <= k < tab_list_payload(active, tabs).len(),
    ensures
        tab_list(tab_list_payload(active, tabs).take(k)) is None,
        tab_list(tab_list_payload(active, tabs) + more) == Some((active, tabs)),
{
    let p = tab_list_payload(active, tabs);
    lemma_pow256();
    lemma_value_le(active, 4);
    lemma_value_le(tabs.len() as int, 4);
    if k >= 8 {
        assert(p.take(k).subrange(4, 8) =~= le(tabs.len() as int, 4));
        assert(p.take(k).skip(8) =~= tabs_bytes(tabs).take(k - 8));
        lemma_read_tabs_cut(tabs, k - 8);
    }
    let q = p + more;
    assert(q.subrange(0, 4) =~= le(active, 4));
    assert(q.subrange(4, 8) =~= le(tabs.len() as int, 4));
    assert(q.skip(8) =~= tabs_bytes(tabs) + more);
    lemma_read_tabs_bytes(tabs);
    lemma_read_tabs_stable(tabs_bytes(tabs), more, tabs.len() as int);
}

/// An operation on tabs that the window process is asked for.
#[derive(Debug, Clone, Copy, PartialEq, Eq, Structural)]
pub enum FeedTabOp {
    New,
    Close { tab_id: u64 },
    Reorder { origin: u32, target: u32 },
}

/// The payload of a `TabOp` frame.
pub open spec fn tab_op_payload(op: FeedTabOp) -> Seq<u8> {
    match op {
        FeedTabOp::New => seq![1u8],
        FeedTabOp::Close { tab_id } => seq![2u8] + le(tab_id as int, 8),
        FeedTabOp::Reorder { origin, target } => seq![3u8] + le(origin as int, 4) + le(
            target as int,
            4,
        ),
    }
}

/// The payload of a `TabOp` frame.
pub fn encode_tab_op(op: FeedTabOp) -> (r: Vec<u8>)
    ensures
        r@ == tab_op_payload(op),
{
    let mut out: Vec<u8> = Vec::new();
    match op {
        FeedTabOp::New => {
            out.push(1);
        },
        FeedTabOp::Close { tab_id } => {
            out.push(2);
            put_le(&mut out, tab_id, 8);
        },
        FeedTabOp::Reorder { origin, target } => {
            out.push(3);
            put_le(&mut out, origin as u64, 4);
            put_le(&mut out, target as u64, 4);
        },
    }
    assert(out@ =~= tab_op_payload(op));
    out
}

} // verus!
