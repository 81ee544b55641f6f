//! How long frames take: one summary for each window of frames.

use crate::clock::{elapsed, elapsed_since};
use vstd::prelude::*;

verus! {

/// The number of frames in a window.
pub const FRAME_WINDOW: usize = 60;

/// The summary of a window. Times are in nanoseconds.
#[derive(Debug, Clone, Copy, PartialEq, Eq, Structural)]
pub struct Snapshot {
    /// How many intervals there were.
    pub frames: usize,
    /// How long they were together.
    pub elapsed: u128,
    pub avg: u64,
    pub min: u64,
    pub max: u64,
}

/// Takes the time of each frame.
#[derive(Debug)]
pub struct FrameStats {
    last_present: Option<u64>,
    intervals: Vec<u64>,
}

/// The time of the last frame, and the intervals of the window.
#[verifier::ext_equal]
pub ghost struct Window {
    pub last: Option<u64>,
    pub intervals: Seq<u64>,
}

/// The sum of the intervals.
pub open spec fn total(s: Seq<u64>) -> nat
    decreases s.len(),
{
    if s.len() == 0 {
        0
    } else {
        total(s.drop_last()) + s.last() as nat
    }
}

/// `m` is the least of the values.
pub open spec fn is_least(m: u64, s: Seq<u64>) -> bool {
    s.contains(m) && forall|i: int| 0 <= i < s.len() ==> m <= #[trigger] s[i]
}

/// `m` is the greatest of the values.
pub open spec fn is_greatest(m: u64, s: Seq<u64>) -> bool {
    s.contains(m) && forall|i: int| 0 <= i < s.len() ==> #[trigger] s[i] <= m
}

/// The snapshot is that of the intervals.
pub open spec fn sums_up(snap: Snapshot, s: Seq<u64>) -> bool {
    &&& snap.frames == s.len()
    &&& snap.elapsed == total(s)
    &&& if s.len() == 0 {
        snap.avg == 0 && snap.min == 0 && snap.max == 0
    } else {
        &&& snap.avg == total(s) as int / s.len() as int
        &&& is_least(snap.min, s)
        &&& is_greatest(snap.max, s)
    }
}

proof fn lemma_total(s: Seq<u64>, m: nat)
    requires
        forall|i: int| 0 <= i < s.len() ==> #[trigger] s[i] <= m,
    ensures
        total(s) <= m * s.len(),
    decreases s.len(),
{
    if s.len() > 0 {
        let rest = s.drop_last();
        assert forall|i: int| 0 <= i < rest.len() implies #[trigger] rest[i] <= m by {
            assert(rest[i] == s[i]);
        }
        lemma_total(rest, m);
        assert(s.last() <= m);
        assert(m * rest.len() + m == m * s.len()) by (nonlinear_arith)
            requires
                s.len() == rest.len() + 1,
        ;
    }
}

/// Sums the intervals up.
pub fn aggregate(intervals: &Vec<u64>) -> (r: Snapshot)
    ensures
        sums_up(r, intervals@),
{
    let n: usize = intervals.len();
    if n == 0 {
        return Snapshot { frames: 0, elapsed: 0, avg: 0, min: 0, max: 0 };
    }
    let ghost s = intervals@;
    let mut sum: u128 = 0;
    let mut min: u64 = intervals[0];
    let mut max: u64 = intervals[0];
    let mut i: usize = 0;
    assert(s[0] == min);
    while i < n
        invariant
            s == intervals@,
            n == s.len(),
            0 < n,
            i <= n,
            sum == total(s.take(i as int)),
            sum <= i * u64::MAX,
            s.contains(min),
            s.contains(max),
            forall|j: int| 0 <= j < i ==> min <= #[trigger] s[j] <= max,
        decreases n - i,
    {
        let d: u64 = intervals[i];
        assert(s.take(i + 1).drop_last() =~= s.take(i as int));
        assert(s.contains(d));
        sum = sum + d as u128;
        if d < min {
            min = d;
        }
        if d > max {
            max = d;
        }
        i = i + 1;
    }
    assert(s.take(n as int) =~= s);
    proof {
        lemma_total(s, max as nat);
        assert(total(s) as int / n as int <= max) by (nonlinear_arith)
            requires
                total(s) <= max * n,
                n > 0,
        ;
    }
    let avg: u128 = sum / n as u128;
    Snapshot { frames: n, elapsed: sum, avg: avg as u64, min, max }
}

/// The window after a frame at `now`: the first frame only sets the time, and
/// a full window begins anew.
pub open spec fn presented(w: Window, now: u64) -> Window {
    Window {
        last: Some(now),
        intervals: match w.last {
            None => w.intervals,
            Some(at) => if w.intervals.len() + 1 >= FRAME_WINDOW {
                seq![]
            } else {
                w.intervals.push(elapsed(at, now) as u64)
            },
        },
    }
}

impl View for FrameStats {
    type V = Window;

    closed spec fn view(&self) -> Window {
        Window { last: self.last_present, intervals: self.intervals@ }
    }
}

impl FrameStats {
    /// A window is never full.
    pub closed spec fn inv(&self) -> bool {
        self.intervals@.len() < FRAME_WINDOW
    }

    pub fn new() -> (r: Self)
        ensures
            r.inv(),
            r@ == (Window { last: None, intervals: seq![] }),
    {
        let r = FrameStats { last_present: None, intervals: Vec::new() };
        assert(r@ =~= Window { last: None, intervals: seq![] });
        r
    }

    /// Takes a frame. Returns the summary of the window where this frame fills
    /// it.
    pub fn record_present(&mut self, now: u64) -> (r: Option<Snapshot>)
        requires
            old(self).inv(),
        ensures
            final(self).inv(),
            final(self)@ == presented(old(self)@, now),
            match old(self)@.last {
                Some(at) if old(self)@.intervals.len() + 1 >= FRAME_WINDOW => r is Some && sums_up(
                    r->0,
                    old(self)@.intervals.push(elapsed(at, now) as u64),
                ),
                _ => r is None,
            },
    {
        match self.last_present {
            None => {
                self.last_present = Some(now);
                None
            },
            Some(at) => {
                self.last_present = Some(now);
                self.intervals.push(elapsed_since(at, now));
                if self.intervals.len() >= FRAME_WINDOW {
                    let snap: Snapshot = aggregate(&self.intervals);
                    self.intervals = Vec::new();
                    assert(self@ =~= presented(old(self)@, now));
                    Some(snap)
                } else {
                    None
                }
            },
        }
    }
}

impl Default for FrameStats {
    fn default() -> (r: Self)
        ensures
            r.inv(),
            r@ == (Window { last: None, intervals: seq![] }),
    {
        FrameStats::new()
    }
}

/// The window after frames at these times.
pub open spec fn presented_all(w: Window, times: Seq<u64>) -> Window
    decreases times.len(),
{
    if times.len() == 0 {
        w
    } else {
        presented(presented_all(w, times.drop_last()), times.last())
    }
}

/// The intervals between times.
pub open spec fn gaps(first: u64, times: Seq<u64>) -> Seq<u64> {
    Seq::new(
        times.len(),
        |i: int|
            elapsed(
                if i == 0 {
                    first
                } else {
                    times[i - 1]
                },
                times[i],
            ) as u64,
    )
}

/// A window holds the intervals between its own frames and no others: after a
/// frame at `first` that began it, fewer than fill it leave exactly their
/// intervals, and as many as fill it leave none.
pub proof fn law_window_holds_its_own(first: u64, times: Seq<u64>)
    requires
        times.len() <= FRAME_WINDOW,
    ensures
        presented_all(Window { last: Some(first), intervals: seq![] }, times) == (Window {
            last: Some(
                if times.len() == 0 {
                    first
                } else {
                    times.last()
                },
            ),
            intervals: if times.len() == FRAME_WINDOW {
                seq![]
            } else {
                gaps(first, times)
            },
        }),
    decreases times.len(),
{
    let w = Window { last: Some(first), intervals: seq![] };
    if times.len() == 0 {
        assert(gaps(first, times) =~= seq![]);
    } else {
        let rest = times.drop_last();
        law_window_holds_its_own(first, rest);
        let before = presented_all(w, rest);
        if times.len() < FRAME_WINDOW {
            assert(gaps(first, times) =~= gaps(first, rest).push(
                elapsed(before.last->0, times.last()) as u64,
            ));
        }
    }
}

/// Where time does not run backwards, the intervals between frames are
/// together as long as it is from the first to the last.
pub proof fn law_elapsed_spans_the_window(first: u64, times: Seq<u64>)
    requires
        times.len() > 0,
        first <= times[0],
        forall|i: int, j: int| 0 <= i <= j < times.len() ==> #[trigger] times[i] <= #[trigger] times[j],
    ensures
        total(gaps(first, times)) == times.last() - first,
    decreases times.len(),
{
    let rest = times.drop_last();
    let g = gaps(first, times);
    assert(g.drop_last() =~= gaps(first, rest));
    if rest.len() == 0 {
        assert(total(g.drop_last()) == 0);
    } else {
        assert forall|i: int, j: int| 0 <= i <= j < rest.len() implies #[trigger] rest[i]
            <= #[trigger] rest[j] by {
            assert(rest[i] == times[i] && rest[j] == times[j]);
        }
        law_elapsed_spans_the_window(first, rest);
        assert(times[times.len() - 2] <= times[times.len() - 1]);
    }
}

/// The interval in front of frame `j`, the first being frame 0.
pub open spec fn gap(times: Seq<u64>, j: int) -> u64 {
    elapsed(times[j - 1], times[j]) as u64
}

proof fn lemma_window_after(times: Seq<u64>, m: int)
    requires
        0 <= m <= times.len(),
    ensures
        presented_all(Window { last: None, intervals: seq![] }, times.take(m)) == (if m == 0 {
            Window { last: None, intervals: seq![] }
        } else {
            let n = (m - 1) % (FRAME_WINDOW as int);
            Window {
                last: Some(times[m - 1]),
                intervals: Seq::new(n as nat, |i: int| gap(times, m - n + i)),
            }
        }),
    decreases m,
{
    let none = Window { last: None, intervals: seq![] };
    if m > 0 {
        lemma_window_after(times, m - 1);
        assert(times.take(m).drop_last() =~= times.take(m - 1));
        let w = presented_all(none, times.take(m - 1));
        let n = (m - 1) % (FRAME_WINDOW as int);
        let next = Seq::new(n as nat, |i: int| gap(times, m - n + i));
        if m > 1 {
            let before = (m - 2) % (FRAME_WINDOW as int);
            assert(w.intervals.len() == before);
            if before + 1 >= FRAME_WINDOW {
                assert(n == 0);
                assert(next =~= seq![]);
            } else {
                assert(n == before + 1);
                assert(next =~= w.intervals.push(gap(times, m - 1)));
            }
        } else {
            assert(next =~= seq![]);
        }
    }
}

/// Of the calls since the start each one that fills a window gives a summary,
/// and no other does: it is that of the last intervals, as many as a window
/// has, so that none counts twice.
pub proof fn law_every_window_is_summed_up(times: Seq<u64>, k: int)
    requires
        1 <= k <= times.len(),
    ensures
        ({
            let w = presented_all(Window { last: None, intervals: seq![] }, times.take(k - 1));
            let full = w.last is Some && w.intervals.len() + 1 >= FRAME_WINDOW;
            &&& full <==> k > 1 && (k - 1) % (FRAME_WINDOW as int) == 0
            &&& full ==> w.intervals.push(elapsed(w.last->0, times[k - 1]) as u64) == Seq::new(
                FRAME_WINDOW as nat,
                |i: int| gap(times, k - FRAME_WINDOW + i),
            )
        }),
{
    lemma_window_after(times, k - 1);
    let w = presented_all(Window { last: None, intervals: seq![] }, times.take(k - 1));
    if k > 1 && (k - 1) % (FRAME_WINDOW as int) == 0 {
        assert((k - 2) % (FRAME_WINDOW as int) == FRAME_WINDOW - 1);
        assert(w.intervals.push(elapsed(w.last->0, times[k - 1]) as u64) =~= Seq::new(
            FRAME_WINDOW as nat,
            |i: int| gap(times, k - FRAME_WINDOW + i),
        ));
    }
}

proof fn lemma_total_least(s: Seq<u64>, m: nat)
    requires
        forall|i: int| 0 <= i < s.len() ==> m <= #[trigger] s[i],
    ensures
        m * s.len() <= total(s),
    decreases s.len(),
{
    if s.len() > 0 {
        let rest = s.drop_last();
        assert forall|i: int| 0 <= i < rest.len() implies m <= #[trigger] rest[i] by {
            assert(rest[i] == s[i]);
        }
        lemma_total_least(rest, m);
        assert(m <= s.last());
        assert(m * rest.len() + m == m * s.len()) by (nonlinear_arith)
            requires
                s.len() == rest.len() + 1,
        ;
    }
}

/// The average of a summary lies between its least and its greatest interval.
pub proof fn law_average_lies_between(snap: Snapshot, s: Seq<u64>)
    requires
        sums_up(snap, s),
        s.len() > 0,
    ensures
        snap.min <= snap.avg <= snap.max,
{
    let n = s.len() as int;
    lemma_total(s, snap.max as nat);
    lemma_total_least(s, snap.min as nat);
    let t = total(s) as int;
    let (min, max) = (snap.min as int, snap.max as int);
    assert(min <= t / n <= max) by (nonlinear_arith)
        requires
            min * n <= t <= max * n,
            n > 0,
    ;
}

/// A summary comes with every sixtieth interval. Where time does not run
/// backwards it spans all of the window, from the frame before its first to its
/// last; its average is a sixtieth of that, and its least and greatest are those
/// of the times between two frames.
pub proof fn law_summary_of_a_window(first: u64, times: Seq<u64>, snap: Snapshot)
    requires
        times.len() == FRAME_WINDOW,
        first <= times[0],
        forall|i: int, j: int| 0 <= i <= j < times.len() ==> #[trigger] times[i] <= #[trigger] times[j],
        sums_up(snap, gaps(first, times)),
    ensures
        FRAME_WINDOW == 60,
        snap.frames == 60,
        snap.elapsed == times[59] - first,
        snap.avg == (times[59] - first) / 60,
        snap.min <= times[0] - first <= snap.max,
        forall|i: int| 0 < i < 60 ==> snap.min <= #[trigger] times[i] - times[i - 1] <= snap.max,
        snap.min == times[0] - first || exists|i: int|
            0 < i < 60 && snap.min == #[trigger] times[i] - times[i - 1],
        snap.max == times[0] - first || exists|i: int|
            0 < i < 60 && snap.max == #[trigger] times[i] - times[i - 1],
{
    let g = gaps(first, times);
    law_elapsed_spans_the_window(first, times);
    assert(times.last() == times[59]);
    assert(g[0] == times[0] - first);
    assert forall|i: int| 0 < i < 60 implies snap.min <= #[trigger] times[i] - times[i - 1]
        <= snap.max by {
        assert(times[i - 1] <= times[i]);
        assert(g[i] == times[i] - times[i - 1]);
    }
    let a = choose|i: int| 0 <= i < g.len() && g[i] == snap.min;
    let b = choose|i: int| 0 <= i < g.len() && g[i] == snap.max;
    if a > 0 {
        assert(times[a - 1] <= times[a]);
    }
    if b > 0 {
        assert(times[b - 1] <= times[b]);
    }
}

/// The first frame gives no interval. Each later one gives one, until the window
/// is full.
pub proof fn law_frames_give_intervals(w: Window, now: u64, at: u64)
    ensures
        presented(w, now).last == Some(now),
        w.last is None ==> presented(w, now).intervals == w.intervals,
        w.last == Some(at) && at <= now && w.intervals.len() < 59 ==> {
            let next = presented(w, now).intervals;
            &&& next.len() == w.intervals.len() + 1 && next.last() == now - at
            &&& forall|i: int| 0 <= i < w.intervals.len() ==> #[trigger] next[i] == w.intervals[i]
        },
        w.last == Some(at) && w.intervals.len() >= 59 ==> presented(w, now).intervals.len() == 0,
{
}

} // verus!
