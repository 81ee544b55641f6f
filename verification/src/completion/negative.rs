//! Remembers for a time which programs had no answer.

use crate::clock::{elapsed, elapsed_since};
use crate::seqs::{first_where, lemma_first_where, lemma_first_where_is};
use crate::paths::{place, same_place, Place};
use vstd::prelude::*;

verus! {

struct Mark {
    path: Vec<u8>,
    at: u64,
}

/// The programs that had no answer, and when they were asked.
pub struct NegativeCache {
    marks: Vec<Mark>,
}

spec fn has_path(path: Place) -> spec_fn(Mark) -> bool {
    |m: Mark| place(m.path@) == path
}

spec fn distinct_paths(s: Seq<Mark>) -> bool {
    forall|i: int, j: int|
        0 <= i < j < s.len() ==> place((#[trigger] s[i]).path@) != place((#[trigger] s[j]).path@)
}

spec fn mark_map(s: Seq<Mark>) -> Map<Place, u64> {
    Map::new(
        |p: Place| first_where(s, has_path(p)) is Some,
        |p: Place| s[first_where(s, has_path(p))->0].at,
    )
}

impl View for NegativeCache {
    type V = Map<Place, u64>;

    closed spec fn view(&self) -> Map<Place, u64> {
        mark_map(self.marks@)
    }
}

impl NegativeCache {
    /// No program is held twice.
    pub closed spec fn inv(&self) -> bool {
        distinct_paths(self.marks@)
    }

    pub fn new() -> (r: Self)
        ensures
            r.inv(),
            r@ == Map::<Place, u64>::empty(),
    {
        let r = NegativeCache { marks: Vec::new() };
        assert(r@ =~= Map::<Place, u64>::empty());
        r
    }

    fn find(&self, path: &[u8]) -> (r: Option<usize>)
        ensures
            match r {
                Some(i) => first_where(self.marks@, has_path(place(path@))) == Some(i as int) && i
                    < self.marks@.len() && place(self.marks@[i as int].path@) == place(path@),
                None => first_where(self.marks@, has_path(place(path@))) is None,
            },
    {
        let ghost p = has_path(place(path@));
        let mut i: usize = 0;
        while i < self.marks.len()
            invariant
                i <= self.marks@.len(),
                p == has_path(place(path@)),
                forall|j: int| 0 <= j < i ==> !p(#[trigger] self.marks@[j]),
            decreases self.marks@.len() - i,
        {
            if same_place(self.marks[i].path.as_slice(), path) {
                proof {
                    lemma_first_where(self.marks@, p, i as int);
                }
                return Some(i);
            }
            i = i + 1;
        }
        proof {
            lemma_first_where(self.marks@, p, i as int);
        }
        None
    }

    /// Whether a program had no answer less than `ttl` ago. One that had none
    /// longer ago is forgotten.
    pub fn is_negative_cached(&mut self, path: &[u8], now: u64, ttl: u64) -> (b: bool)
        requires
            old(self).inv(),
        ensures
            final(self).inv(),
            b == (old(self)@.contains_key(place(path@)) && elapsed(old(self)@[place(path@)], now) < ttl),
            final(self)@ == (if b {
                old(self)@
            } else {
                old(self)@.remove(place(path@))
            }),
    {
        match self.find(path) {
            Some(i) => {
                if elapsed_since(self.marks[i].at, now) < ttl {
                    true
                } else {
                    let _ = self.marks.remove(i);
                    proof {
                        lemma_mark_removed(old(self).marks@, i as int, place(path@));
                    }
                    false
                }
            },
            None => {
                assert(self@ =~= self@.remove(place(path@)));
                false
            },
        }
    }

    /// Notes that a program had no answer.
    pub fn mark_negative(&mut self, path: &[u8], now: u64)
        requires
            old(self).inv(),
        ensures
            final(self).inv(),
            final(self)@ == old(self)@.insert(place(path@), now),
    {
        match self.find(path) {
            Some(i) => {
                let _ = self.marks.remove(i);
                proof {
                    lemma_mark_removed(old(self).marks@, i as int, place(path@));
                }
            },
            None => {
                assert(self@ =~= self@.remove(place(path@)));
            },
        }
        assert(self@ == old(self)@.remove(place(path@)));
        let ghost before = self.marks@;
        let mut bytes: Vec<u8> = Vec::new();
        bytes.extend_from_slice(path);
        assert(bytes@ =~= path@);
        let ghost mark = Mark { path: bytes, at: now };
        self.marks.push(Mark { path: bytes, at: now });
        proof {
            assert(!mark_map(before).contains_key(place(path@)));
            lemma_mark_added(before, mark);
            assert(self@ =~= old(self)@.insert(place(path@), now));
        }
    }
}

proof fn lemma_mark_removed(s: Seq<Mark>, i: int, path: Place)
    requires
        distinct_paths(s),
        0 <= i < s.len(),
        place(s[i].path@) == path,
    ensures
        distinct_paths(s.remove(i)),
        mark_map(s.remove(i)) == mark_map(s).remove(path),
{
    let t = s.remove(i);
    let from = |k: int| if k < i {
        k
    } else {
        k + 1
    };
    assert forall|k: int| 0 <= k < t.len() implies #[trigger] t[k] == s[from(k)] by {}
    assert forall|a: int, b: int| 0 <= a < b < t.len() implies place((#[trigger] t[a]).path@)
        != place((#[trigger] t[b]).path@) by {
        assert(t[a] == s[from(a)] && t[b] == s[from(b)]);
    }
    assert forall|p: Place|
        #![trigger mark_map(t).contains_key(p)]
        mark_map(t).contains_key(p) == mark_map(s).remove(path).contains_key(p) && (mark_map(
            t,
        ).contains_key(p) ==> mark_map(t)[p] == mark_map(s).remove(path)[p]) by {
        lemma_first_where_is(s, has_path(p));
        lemma_first_where_is(t, has_path(p));
        if p == path {
            if let Some(k) = first_where(t, has_path(p)) {
                assert(has_path(p)(t[k]));
                let j = from(k);
                assert(t[k] == s[j]);
                if j < i {
                    assert(place(s[j].path@) != place(s[i].path@));
                } else {
                    assert(place(s[i].path@) != place(s[j].path@));
                }
            }
        } else {
            match first_where(s, has_path(p)) {
                Some(j) => {
                    assert(has_path(p)(s[j]));
                    let k = if j < i {
                        j
                    } else {
                        j - 1
                    };
                    assert(t[k] == s[j]);
                    assert(has_path(p)(t[k]));
                    let k2 = first_where(t, has_path(p))->0;
                    assert(has_path(p)(t[k2]));
                    let j2 = from(k2);
                    assert(t[k2] == s[j2]);
                    if j2 < j {
                        assert(place(s[j2].path@) != place(s[j].path@));
                    }
                    if j < j2 {
                        assert(place(s[j].path@) != place(s[j2].path@));
                    }
                },
                None => {
                    if let Some(k) = first_where(t, has_path(p)) {
                        assert(has_path(p)(t[k]));
                        assert(t[k] == s[from(k)]);
                        assert(!has_path(p)(s[from(k)]));
                    }
                },
            }
        }
    }
    assert(mark_map(t) =~= mark_map(s).remove(path));
}

proof fn lemma_mark_added(s: Seq<Mark>, m: Mark)
    requires
        distinct_paths(s),
        first_where(s, has_path(place(m.path@))) is None,
    ensures
        distinct_paths(s.push(m)),
        mark_map(s.push(m)) == mark_map(s).insert(place(m.path@), m.at),
{
    let t = s.push(m);
    lemma_first_where_is(s, has_path(place(m.path@)));
    assert forall|a: int, b: int| 0 <= a < b < t.len() implies place((#[trigger] t[a]).path@)
        != place((#[trigger] t[b]).path@) by {
        if b == s.len() {
            assert(!has_path(place(m.path@))(s[a]));
        }
    }
    assert forall|p: Place|
        #![trigger mark_map(t).contains_key(p)]
        mark_map(t).contains_key(p) == mark_map(s).insert(place(m.path@), m.at).contains_key(p) && (
        mark_map(t).contains_key(p) ==> mark_map(t)[p] == mark_map(s).insert(place(m.path@), m.at)[p]) by {
        lemma_first_where_is(s, has_path(p));
        match first_where(s, has_path(p)) {
            Some(j) => {
                assert forall|k: int| 0 <= k < j implies !has_path(p)(#[trigger] t[k]) by {
                    assert(t[k] == s[k]);
                }
                assert(t[j] == s[j]);
                lemma_first_where(t, has_path(p), j);
            },
            None => {
                assert forall|k: int| 0 <= k < s.len() implies !has_path(p)(#[trigger] t[k]) by {
                    assert(t[k] == s[k]);
                }
                if p == place(m.path@) {
                    lemma_first_where(t, has_path(p), s.len() as int);
                } else {
                    lemma_first_where(t, has_path(p), t.len() as int);
                }
            },
        }
    }
    assert(mark_map(t) =~= mark_map(s).insert(place(m.path@), m.at));
}

/// A program that had no answer is not asked again before its time is up, and
/// is asked once it is.
pub proof fn law_negative_for_a_time(m: Map<Place, u64>, path: Place, at: u64, now: u64, ttl: u64)
    requires
        at <= now,
    ensures
        ({
            let t = m.insert(path, at);
            (t.contains_key(path) && elapsed(t[path], now) < ttl) == (now < at + ttl)
        }),
{
}

} // verus!
