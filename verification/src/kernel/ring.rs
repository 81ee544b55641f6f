//! The bounded memory of a tab's output, and the queues of what is to be sent.

use std::collections::VecDeque;
use vstd::prelude::*;

verus! {

/// Keeps the last bytes of a stream, up to a limit.
pub struct ByteRing {
    buf: Vec<u8>,
    cap: usize,
}

/// The last `n` elements of `s`, or all of it.
pub open spec fn last_n<A>(s: Seq<A>, n: nat) -> Seq<A> {
    if s.len() <= n {
        s
    } else {
        s.skip(s.len() - n)
    }
}

impl View for ByteRing {
    type V = Seq<u8>;

    closed spec fn view(&self) -> Seq<u8> {
        self.buf@
    }
}

impl ByteRing {
    /// The most bytes that are kept.
    pub closed spec fn limit(&self) -> nat {
        self.cap as nat
    }

    pub fn new(cap: usize) -> (r: Self)
        ensures
            r@ == Seq::<u8>::empty(),
            r.limit() == cap,
    {
        ByteRing { buf: Vec::new(), cap }
    }

    /// Adds bytes; the oldest go where there are too many.
    pub fn push(&mut self, bytes: &[u8])
        ensures
            final(self)@ == last_n(old(self)@ + bytes@, old(self).limit()),
            final(self).limit() == old(self).limit(),
    {
        self.buf.extend_from_slice(bytes);
        assert(self.buf@ =~= old(self)@ + bytes@);
        let n: usize = self.buf.len();
        if n > self.cap {
            let keep: Vec<u8> = self.buf.split_off(n - self.cap);
            self.buf = keep;
            assert(self.buf@ =~= last_n(old(self)@ + bytes@, old(self).limit()));
        }
    }

    /// The bytes that are kept, oldest first.
    pub fn snapshot(&self) -> (r: Vec<u8>)
        ensures
            r@ == self@,
    {
        let mut out: Vec<u8> = Vec::with_capacity(self.buf.len());
        out.extend_from_slice(self.buf.as_slice());
        assert(out@ =~= self@);
        out
    }
}

/// Adding bytes piece by piece keeps what adding them at once keeps.
pub proof fn law_ring_pieces(s: Seq<u8>, a: Seq<u8>, b: Seq<u8>, cap: nat)
    ensures
        last_n(last_n(s + a, cap) + b, cap) == last_n(s + (a + b), cap),
{
    assert(last_n(last_n(s + a, cap) + b, cap) =~= last_n(s + (a + b), cap));
}

/// No more than the limit is kept, and what is kept is the end of the stream.
pub proof fn law_ring_keeps_recent(s: Seq<u8>, cap: nat)
    ensures
        last_n(s, cap).len() <= cap,
        exists|gone: Seq<u8>| #[trigger] (gone + last_n(s, cap)) == s,
{
    if s.len() <= cap {
        assert(Seq::<u8>::empty() + s =~= s);
    } else {
        assert(s.take(s.len() - cap) + last_n(s, cap) =~= s);
    }
}

/// A frame for a client: bytes of a tab, or a message.
#[derive(Debug, Clone, PartialEq, Eq)]
pub enum OutFrame {
    Bytes(Vec<u8>),
    Text(String),
}

/// A frame as plain values.
#[verifier::ext_equal]
pub ghost enum Parcel {
    Bytes(Seq<u8>),
    Text(Seq<char>),
}

impl Parcel {
    /// The number of its bytes.
    pub open spec fn size(self) -> nat {
        match self {
            Parcel::Bytes(b) => b.len(),
            Parcel::Text(s) => crate::text::width(s),
        }
    }
}

impl View for OutFrame {
    type V = Parcel;

    open spec fn view(&self) -> Parcel {
        match self {
            OutFrame::Bytes(b) => Parcel::Bytes(b@),
            OutFrame::Text(s) => Parcel::Text(s@),
        }
    }
}

impl OutFrame {
    /// The number of its bytes.
    pub fn len(&self) -> (n: usize)
        ensures
            n == self@.size(),
    {
        match self {
            OutFrame::Bytes(b) => b.len(),
            OutFrame::Text(s) => s.as_str().as_bytes().len(),
        }
    }
}

/// The views of frames.
pub open spec fn parcels(frames: Seq<OutFrame>) -> Seq<Parcel> {
    frames.map_values(|f: OutFrame| f@)
}

/// The number of bytes in a list of frames.
pub open spec fn total_size(frames: Seq<Parcel>) -> nat
    decreases frames.len(),
{
    if frames.len() == 0 {
        0
    } else {
        frames[0].size() + total_size(frames.skip(1))
    }
}

proof fn lemma_total_size_push(frames: Seq<Parcel>, f: Parcel)
    ensures
        total_size(frames.push(f)) == total_size(frames) + f.size(),
    decreases frames.len(),
{
    if frames.len() == 0 {
        assert(frames.push(f).skip(1) =~= Seq::<Parcel>::empty());
        assert(total_size(frames.push(f)) == f.size() + total_size(Seq::<Parcel>::empty()));
    } else {
        lemma_total_size_push(frames.skip(1), f);
        assert(frames.push(f).skip(1) =~= frames.skip(1).push(f));
    }
}

proof fn lemma_total_size_bound(frames: Seq<Parcel>)
    requires
        forall|i: int| 0 <= i < frames.len() ==> (#[trigger] frames[i]).size() <= usize::MAX,
    ensures
        total_size(frames) <= frames.len() * usize::MAX,
    decreases frames.len(),
{
    if frames.len() > 0 {
        let rest = frames.skip(1);
        assert forall|i: int| 0 <= i < rest.len() implies (#[trigger] rest[i]).size()
            <= usize::MAX by {
            assert(rest[i] == frames[i + 1]);
        }
        lemma_total_size_bound(rest);
        assert(frames.len() * usize::MAX == (frames.len() - 1) * usize::MAX + usize::MAX)
            by (nonlinear_arith);
    }
}

/// The frames that a client is still to be sent, and how many bytes they have.
pub struct Outbox {
    frames: VecDeque<OutFrame>,
    bytes: u128,
}

impl View for Outbox {
    type V = Seq<Parcel>;

    closed spec fn view(&self) -> Seq<Parcel> {
        parcels(self.frames@)
    }
}

impl Outbox {
    /// What every queue keeps: the count is that of its frames. It is kept in
    /// 128 bits and cannot overflow.
    pub closed spec fn inv(&self) -> bool {
        &&& self.bytes == total_size(self@)
        &&& forall|i: int| 0 <= i < self@.len() ==> (#[trigger] self@[i]).size() <= usize::MAX
    }

    pub fn new() -> (r: Self)
        ensures
            r.inv(),
            r@ == Seq::<Parcel>::empty(),
    {
        let r = Outbox { frames: VecDeque::new(), bytes: 0 };
        assert(r@ =~= Seq::<Parcel>::empty());
        r
    }

    /// Whether more than `cap` bytes wait.
    pub fn exceeds(&self, cap: usize) -> (b: bool)
        requires
            self.inv(),
        ensures
            b == (total_size(self@) > cap),
    {
        self.bytes > cap as u128
    }

    pub fn is_empty(&self) -> (b: bool)
        ensures
            b == (self@.len() == 0),
    {
        self.frames.len() == 0
    }

    /// Queues a frame.
    pub fn push(&mut self, frame: OutFrame)
        requires
            old(self).inv(),
        ensures
            final(self).inv(),
            final(self)@ == old(self)@.push(frame@),
    {
        let count: usize = self.frames.len();
        let size: usize = frame.len();
        proof {
            lemma_total_size_push(self@, frame@);
            lemma_total_size_bound(self@);
            assert(count * usize::MAX + usize::MAX <= u128::MAX) by (nonlinear_arith)
                requires
                    count <= usize::MAX,
                    usize::MAX <= 0xffff_ffff_ffff_ffff,
            ;
        }
        self.bytes = self.bytes + size as u128;
        self.frames.push_back(frame);
        proof {
            assert(self@ =~= old(self)@.push(frame@));
            assert forall|i: int| 0 <= i < self@.len() implies (#[trigger] self@[i]).size()
                <= usize::MAX by {
                if i < old(self)@.len() {
                    assert(self@[i] == old(self)@[i]);
                }
            }
        }
    }

    /// Takes the next frame off the queue.
    pub fn pop(&mut self) -> (r: Option<OutFrame>)
        requires
            old(self).inv(),
        ensures
            final(self).inv(),
            match r {
                Some(f) => old(self)@.len() > 0 && f@ == old(self)@[0] && final(self)@
                    == old(self)@.skip(1),
                None => old(self)@.len() == 0 && final(self)@ == old(self)@,
            },
    {
        match self.frames.pop_front() {
            Some(f) => {
                let size: usize = f.len();
                proof {
                    assert(old(self)@[0] == f@);
                    assert(self@ =~= old(self)@.skip(1));
                }
                self.bytes = self.bytes - size as u128;
                proof {
                    assert forall|i: int| 0 <= i < self@.len() implies (#[trigger] self@[i]).size()
                        <= usize::MAX by {
                        assert(self@[i] == old(self)@[i + 1]);
                    }
                }
                Some(f)
            },
            None => None,
        }
    }
}

} // verus!
