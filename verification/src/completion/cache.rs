//! Remembers the suggestions of programs, the most recently used ones in
//! memory, and says how they are kept on disk.

use crate::completion::Suggestion;
use crate::hash::{
    fnv, fnv1a64, hex, hex_encode, hex_padded, law_hex_injective, push_hex, FNV_OFFSET,
};
use crate::kernel::le::{le, put_le};
use crate::kernel::ring::last_n;
use crate::paths::{place, same_place, Place};
use crate::text::{join_path, joined};
use vstd::prelude::*;
use vstd::string::StringExecFns;
use vstd::utf8::encode_utf8;

verus! {

/// The number of entries that are kept where nothing else is asked for.
pub const DEFAULT_CAP: usize = 100;

/// The version of the form on disk.
pub const FORMAT_VERSION: u8 = 1;

/// A point in time: seconds since 1970, and nanoseconds, below one thousand
/// million.
#[derive(Debug, Clone, Copy, PartialEq, Eq, Hash, Structural)]
pub struct Timestamp {
    pub secs: i64,
    pub nanos: u32,
}

impl Timestamp {
    /// Seconds and nanoseconds as they are written: a time before 1970 is
    /// written as 1970.
    pub open spec fn parts(self) -> (u64, u32) {
        if self.secs < 0 {
            (0, 0)
        } else {
            (self.secs as u64, self.nanos)
        }
    }
}

/// Seconds and nanoseconds as they are written.
pub fn system_time_parts(time: Timestamp) -> (r: (u64, u32))
    ensures
        r == time.parts(),
{
    if time.secs < 0 {
        (0, 0)
    } else {
        (time.secs as u64, time.nanos)
    }
}

/// The time that was written. Too many nanoseconds count as one short of a
/// second.
pub fn system_time_from_parts(secs: u64, nanos: u32) -> (r: Timestamp)
    requires
        secs <= i64::MAX,
    ensures
        r.secs == secs,
        r.nanos == (if nanos < 999_999_999 {
            nanos
        } else {
            999_999_999
        }),
{
    Timestamp {
        secs: secs as i64,
        nanos: if nanos < 999_999_999 {
            nanos
        } else {
            999_999_999
        },
    }
}

/// What suggestions are remembered for: a program, when it was last changed,
/// and what was asked.
#[derive(Debug)]
pub struct CacheKey {
    /// The bytes of the program's path.
    pub binary_path: Vec<u8>,
    pub binary_mtime: Timestamp,
    pub query_signature: String,
}

impl Clone for CacheKey {
    fn clone(&self) -> (r: Self)
        ensures
            r@ == self@,
    {
        let mut path: Vec<u8> = Vec::new();
        path.extend_from_slice(self.binary_path.as_slice());
        assert(path@ =~= self.binary_path@);
        CacheKey {
            binary_path: path,
            binary_mtime: self.binary_mtime,
            query_signature: self.query_signature.clone(),
        }
    }
}

/// A key as plain values.
#[verifier::ext_equal]
pub ghost struct Key {
    pub path: Seq<u8>,
    pub mtime: Timestamp,
    pub signature: Seq<char>,
}

/// A key as it is looked up: paths that name the same are the same.
#[verifier::ext_equal]
pub ghost struct Ident {
    pub path: Place,
    pub mtime: Timestamp,
    pub signature: Seq<char>,
}

impl Key {
    /// The key as it is looked up.
    pub open spec fn ident(self) -> Ident {
        Ident { path: place(self.path), mtime: self.mtime, signature: self.signature }
    }
}

impl View for CacheKey {
    type V = Key;

    open spec fn view(&self) -> Key {
        Key {
            path: self.binary_path@,
            mtime: self.binary_mtime,
            signature: self.query_signature@,
        }
    }
}

/// Suggestions, and when they were found.
#[derive(Debug, Clone)]
pub struct CacheEntry {
    pub suggestions: Vec<Suggestion>,
    pub stored_at: Timestamp,
}

struct Slot {
    key: CacheKey,
    entry: CacheEntry,
}

/// Remembers entries; the least recently used go first where there are too
/// many.
pub struct CompletionCache {
    slots: Vec<Slot>,
    cap: usize,
    base_dir: String,
}

/// An entry and its key, as plain values.
pub ghost struct Item {
    pub key: Ident,
    pub suggestions: Seq<Suggestion>,
    pub stored_at: Timestamp,
}

/// The position of the entry with this key.
pub open spec fn item_at(s: Seq<Item>, key: Ident) -> Option<int> {
    crate::seqs::first_where(s, |i: Item| i.key == key)
}

/// `s` with the entry at `i` moved to the end: it is the most recently used.
pub open spec fn used(s: Seq<Item>, i: int) -> Seq<Item> {
    s.remove(i).push(s[i])
}

/// `s` without the entry with this key.
pub open spec fn removed(s: Seq<Item>, key: Ident) -> Seq<Item> {
    match item_at(s, key) {
        Some(i) => s.remove(i),
        None => s,
    }
}

/// `s` with one more entry at its end, in place of one with the same key; at
/// most the last `cap` entries are kept.
pub open spec fn stored(s: Seq<Item>, item: Item, cap: nat) -> Seq<Item> {
    last_n(removed(s, item.key).push(item), cap)
}

/// No two entries have the same key.
pub open spec fn distinct_keys(s: Seq<Item>) -> bool {
    forall|i: int, j: int|
        0 <= i < j < s.len() ==> (#[trigger] s[i]).key != (#[trigger] s[j]).key
}

impl View for Slot {
    type V = Item;

    closed spec fn view(&self) -> Item {
        Item {
            key: self.key@.ident(),
            suggestions: self.entry.suggestions@,
            stored_at: self.entry.stored_at,
        }
    }
}

spec fn slot_views(s: Seq<Slot>) -> Seq<Item> {
    s.map_values(|x: Slot| x@)
}

impl View for CompletionCache {
    type V = Seq<Item>;

    /// The entries, the least recently used first.
    closed spec fn view(&self) -> Seq<Item> {
        slot_views(self.slots@)
    }
}

/// Whether two keys are the same where they are looked up.
pub fn same_key(a: &CacheKey, b: &CacheKey) -> (r: bool)
    ensures
        r == (a@.ident() == b@.ident()),
{
    let r: bool = same_place(a.binary_path.as_slice(), b.binary_path.as_slice()) && a.binary_mtime
        == b.binary_mtime && a.query_signature == b.query_signature;
    assert(r ==> a@.ident() =~= b@.ident());
    r
}

impl CompletionCache {
    /// The most entries that are kept.
    pub closed spec fn limit(&self) -> nat {
        self.cap as nat
    }

    /// The directory of the files.
    pub closed spec fn dir(&self) -> Seq<char> {
        self.base_dir@
    }

    /// What every cache keeps: no key twice, no more entries than allowed.
    pub closed spec fn inv(&self) -> bool {
        distinct_keys(self@) && self@.len() <= self.cap && self.cap >= 1
    }

    /// An empty cache. A limit of 0 stands for the default.
    pub fn new(base_dir: String, cap: usize) -> (r: Self)
        ensures
            r.inv(),
            r@ == Seq::<Item>::empty(),
            r.dir() == base_dir@,
            r.limit() == (if cap == 0 {
                DEFAULT_CAP
            } else {
                cap
            }),
    {
        let r = CompletionCache {
            slots: Vec::new(),
            cap: if cap == 0 {
                DEFAULT_CAP
            } else {
                cap
            },
            base_dir,
        };
        assert(r@ =~= Seq::<Item>::empty());
        r
    }

    fn find(&self, key: &CacheKey) -> (r: Option<usize>)
        ensures
            match r {
                Some(i) => item_at(self@, key@.ident()) == Some(i as int) && i < self.slots@.len(),
                None => item_at(self@, key@.ident()) is None,
            },
    {
        let ghost p = |i: Item| i.key == key@.ident();
        let mut i: usize = 0;
        while i < self.slots.len()
            invariant
                i <= self.slots@.len() == self@.len(),
                p == (|i: Item| i.key == key@.ident()),
                forall|j: int| 0 <= j < i ==> !p(#[trigger] self@[j]),
            decreases self.slots@.len() - i,
        {
            assert(self@[i as int] == self.slots@[i as int]@);
            if same_key(&self.slots[i].key, key) {
                proof {
                    crate::seqs::lemma_first_where(self@, p, i as int);
                }
                return Some(i);
            }
            i = i + 1;
        }
        proof {
            crate::seqs::lemma_first_where(self@, p, i as int);
        }
        None
    }

    /// The suggestions that are remembered for a key, which thereby is the
    /// most recently used.
    pub fn get(&mut self, key: &CacheKey) -> (r: Option<Vec<Suggestion>>)
        requires
            old(self).inv(),
        ensures
            final(self).inv(),
            final(self).limit() == old(self).limit(),
            final(self).dir() == old(self).dir(),
            match item_at(old(self)@, key@.ident()) {
                Some(i) => r is Some && r->0@ == old(self)@[i].suggestions && final(self)@ == used(
                    old(self)@,
                    i,
                ),
                None => r is None && final(self)@ == old(self)@,
            },
    {
        match self.find(key) {
            None => None,
            Some(i) => {
                let slot: Slot = self.slots.remove(i);
                let suggestions: Vec<Suggestion> = slot.entry.suggestions.clone();
                assert(suggestions@ =~= slot.entry.suggestions@);
                self.slots.push(slot);
                proof {
                    assert(slot@ == old(self)@[i as int]);
                    assert(self@ =~= used(old(self)@, i as int));
                    lemma_used_distinct(old(self)@, i as int);
                }
                Some(suggestions)
            },
        }
    }

    /// Remembers suggestions for a key.
    pub fn put(&mut self, key: CacheKey, suggestions: Vec<Suggestion>, now: Timestamp)
        requires
            old(self).inv(),
        ensures
            final(self).inv(),
            final(self).limit() == old(self).limit(),
            final(self).dir() == old(self).dir(),
            final(self)@ == stored(
                old(self)@,
                Item { key: key@.ident(), suggestions: suggestions@, stored_at: now },
                old(self).limit(),
            ),
    {
        self.put_entry(key, CacheEntry { suggestions, stored_at: now });
    }

    /// Remembers an entry for a key.
    pub fn put_entry(&mut self, key: CacheKey, entry: CacheEntry)
        requires
            old(self).inv(),
        ensures
            final(self).inv(),
            final(self).limit() == old(self).limit(),
            final(self).dir() == old(self).dir(),
            final(self)@ == stored(
                old(self)@,
                Item {
                    key: key@.ident(),
                    suggestions: entry.suggestions@,
                    stored_at: entry.stored_at,
                },
                old(self).limit(),
            ),
    {
        let ghost item = Item {
            key: key@.ident(),
            suggestions: entry.suggestions@,
            stored_at: entry.stored_at,
        };
        if let Some(i) = self.find(&key) {
            let _ = self.slots.remove(i);
            assert(self@ =~= old(self)@.remove(i as int));
        }
        assert(self@ == removed(old(self)@, key@.ident()));
        let ghost before = self@;
        self.slots.push(Slot { key, entry });
        assert(self@ =~= before.push(item));
        proof {
            lemma_stored_distinct(old(self)@, item);
        }
        if self.slots.len() > self.cap {
            let _ = self.slots.remove(0);
            assert(self@ =~= before.push(item).remove(0));
            assert(self@ =~= stored(old(self)@, item, old(self).limit()));
            assert(before.len() <= old(self)@.len());
            assert forall|i: int, j: int| 0 <= i < j < self@.len() implies (#[trigger] self@[i]).key
                != (#[trigger] self@[j]).key by {
                assert(self@[i] == before.push(item)[i + 1]);
                assert(self@[j] == before.push(item)[j + 1]);
            }
        }
    }
}

proof fn lemma_used_distinct(s: Seq<Item>, i: int)
    requires
        distinct_keys(s),
        0 <= i < s.len(),
    ensures
        distinct_keys(used(s, i)),
{
    let t = used(s, i);
    let from = |k: int| if k == t.len() - 1 {
        i
    } else if k < i {
        k
    } else {
        k + 1
    };
    assert forall|k: int| 0 <= k < t.len() implies #[trigger] t[k] == s[from(k)] by {}
    assert forall|a: int, b: int| 0 <= a < b < t.len() implies (#[trigger] t[a]).key != (
    #[trigger] t[b]).key by {
        let x = from(a);
        let y = from(b);
        if x < y {
            assert(s[x].key != s[y].key);
        } else {
            assert(s[y].key != s[x].key);
        }
    }
}

proof fn lemma_stored_distinct(s: Seq<Item>, item: Item)
    requires
        distinct_keys(s),
    ensures
        distinct_keys(removed(s, item.key).push(item)),
        removed(s, item.key).len() <= s.len(),
        forall|k: int|
            0 <= k < removed(s, item.key).len() ==> (#[trigger] removed(s, item.key)[k]).key
                != item.key,
{
    let p = |i: Item| i.key == item.key;
    crate::seqs::lemma_first_where_is(s, p);
    let r = removed(s, item.key);
    match item_at(s, item.key) {
        Some(i) => {
            assert forall|k: int| 0 <= k < r.len() implies (#[trigger] r[k]).key != item.key by {
                if k < i {
                    assert(r[k] == s[k]);
                    assert(s[k].key != s[i].key);
                } else {
                    assert(r[k] == s[k + 1]);
                    assert(s[i].key != s[k + 1].key);
                }
            }
            assert forall|a: int, b: int| 0 <= a < b < r.len() implies (#[trigger] r[a]).key != (
            #[trigger] r[b]).key by {
                let x = if a < i {
                    a
                } else {
                    a + 1
                };
                let y = if b < i {
                    b
                } else {
                    b + 1
                };
                assert(r[a] == s[x] && r[b] == s[y]);
            }
        },
        None => {
            assert forall|k: int| 0 <= k < r.len() implies (#[trigger] r[k]).key != item.key by {
                assert(!p(s[k]));
            }
        },
    }
}

/// What was remembered last is found: with any limit that allows an entry at
/// all.
pub proof fn law_get_after_put(s: Seq<Item>, item: Item, cap: nat)
    requires
        distinct_keys(s),
        cap >= 1,
    ensures
        ({
            let t = stored(s, item, cap);
            item_at(t, item.key) is Some && t[item_at(t, item.key)->0] == item
        }),
{
    let whole = removed(s, item.key).push(item);
    let t = stored(s, item, cap);
    lemma_stored_distinct(s, item);
    assert(t.last() == item);
    let p = |i: Item| i.key == item.key;
    crate::seqs::lemma_first_where_is(t, p);
    let n = t.len() as int;
    assert forall|k: int| 0 <= k < n - 1 implies !p(#[trigger] t[k]) by {
        let j = k + (whole.len() - n);
        assert(t[k] == whole[j]);
        assert(removed(s, item.key)[j].key != item.key);
    }
    assert(p(t[n - 1]));
    crate::seqs::lemma_first_where(t, p, n - 1);
}

/// An entry that has just been used is not the next to go: another one can be
/// added to a full cache of two or more and it is still there.
pub proof fn law_recently_used_survives(s: Seq<Item>, i: int, item: Item, cap: nat)
    requires
        distinct_keys(s),
        0 <= i < s.len(),
        s.len() <= cap,
        cap >= 2,
        item.key != s[i].key,
    ensures
        item_at(stored(used(s, i), item, cap), s[i].key) is Some,
{
    let u = used(s, i);
    lemma_used_distinct(s, i);
    let whole = removed(u, item.key).push(item);
    let t = stored(u, item, cap);
    lemma_stored_distinct(u, item);
    crate::seqs::lemma_first_where_is(u, |x: Item| x.key == item.key);
    assert(u.last() == s[i]);
    let r = removed(u, item.key);
    assert(r.last() == s[i]);
    assert(whole[whole.len() - 2] == s[i]);
    assert(t[t.len() - 2] == s[i]);
    let p = |x: Item| x.key == s[i].key;
    crate::seqs::lemma_first_where_is(t, p);
    assert(p(t[t.len() - 2]));
}

/// What a cache keeps can be relied on: no key is there twice, and no more
/// entries than the limit, which allows one at least.
pub proof fn law_cache_is_valid(c: &CompletionCache)
    requires
        c.inv(),
    ensures
        distinct_keys(c@),
        c@.len() <= c.limit(),
        c.limit() >= 1,
{
}

/// What is remembered is what a lookup gives back, and little else goes: of
/// the other entries only the least recently used one, and that only where the
/// key is new and the cache is full.
pub proof fn law_put_drops_the_oldest(s: Seq<Item>, item: Item, cap: nat, key: Ident)
    requires
        distinct_keys(s),
        s.len() <= cap,
        cap >= 1,
        key != item.key,
    ensures
        ({
            let t = stored(s, item, cap);
            let goes = item_at(s, item.key) is None && s.len() == cap && s[0].key == key;
            &&& distinct_keys(t)
            &&& t.len() <= cap
            &&& item_at(t, key) is Some == (item_at(s, key) is Some && !goes)
            &&& item_at(t, key) is Some ==> t[item_at(t, key)->0] == s[item_at(s, key)->0]
        }),
{
    let r = removed(s, item.key);
    let whole = r.push(item);
    let t = stored(s, item, cap);
    let p = |i: Item| i.key == key;
    lemma_stored_distinct(s, item);
    crate::seqs::lemma_first_where_is(s, |i: Item| i.key == item.key);
    crate::seqs::lemma_first_where_is(s, p);
    crate::seqs::lemma_first_where_is(t, p);
    let cut = whole.len() - t.len();
    assert(cut == 0 || cut == 1);
    assert forall|k: int| 0 <= k < t.len() implies #[trigger] t[k] == whole[k + cut] by {}
    assert forall|a: int, b: int| 0 <= a < b < t.len() implies (#[trigger] t[a]).key != (
    #[trigger] t[b]).key by {
        assert(whole[a + cut].key != whole[b + cut].key);
    }
    let gone = item_at(s, item.key);
    let from = |k: int| if gone is Some && k >= gone->0 {
        k + 1
    } else {
        k
    };
    assert forall|k: int| 0 <= k < r.len() implies #[trigger] r[k] == s[from(k)] by {}
    match item_at(s, key) {
        Some(i) => {
            assert(p(s[i]));
            let k = if gone is Some && i > gone->0 {
                i - 1
            } else {
                i
            };
            assert(gone is Some ==> gone->0 != i);
            assert(r[k] == s[i]);
            assert(whole[k] == s[i]);
            if k >= cut {
                assert(t[k - cut] == s[i]);
                assert(p(t[k - cut]));
                let m = item_at(t, key)->0;
                assert(p(t[m]));
                if m < k - cut {
                    assert(t[m].key != t[k - cut].key);
                } else if m > k - cut {
                    assert(t[k - cut].key != t[m].key);
                }
            } else {
                assert(gone is None && i == 0 && s.len() == cap);
                if let Some(m) = item_at(t, key) {
                    assert(t[m] == whole[m + 1]);
                    assert(whole[0].key != whole[m + 1].key);
                }
            }
        },
        None => {
            if let Some(m) = item_at(t, key) {
                assert(p(t[m]));
                assert(t[m] == whole[m + cut]);
                if m + cut < r.len() {
                    assert(r[m + cut] == s[from(m + cut)]);
                    assert(!p(s[from(m + cut)]));
                }
            }
        },
    }
}

/// The first `n` of the entries remembered one behind the other.
pub open spec fn all_stored(items: Seq<Item>, n: int, cap: nat) -> Seq<Item>
    decreases n,
{
    if n <= 0 {
        seq![]
    } else {
        stored(all_stored(items, n - 1, cap), items[n - 1], cap)
    }
}

/// Of entries with different keys the last ones are kept, as many as the limit
/// allows, and no others.
pub proof fn law_the_last_are_kept(items: Seq<Item>, n: int, cap: nat)
    requires
        distinct_keys(items),
        0 <= n <= items.len(),
        cap >= 1,
    ensures
        all_stored(items, n, cap) == last_n(items.take(n), cap),
        forall|i: int|
            0 <= i < n ==> (item_at(all_stored(items, n, cap), (#[trigger] items[i]).key) is Some)
                == (i >= n - cap),
    decreases n,
{
    let t = all_stored(items, n, cap);
    if n > 0 {
        law_the_last_are_kept(items, n - 1, cap);
        let prev = all_stored(items, n - 1, cap);
        let item = items[n - 1];
        let p = |i: Item| i.key == item.key;
        let front = items.take(n - 1);
        let before = front.len() - prev.len();
        assert forall|k: int| 0 <= k < prev.len() implies !p(#[trigger] prev[k]) by {
            assert(prev[k] == items[k + before]);
            assert(items[k + before].key != items[n - 1].key);
        }
        crate::seqs::lemma_first_where(prev, p, prev.len() as int);
        assert(items.take(n) =~= front.push(item));
        assert(last_n(prev.push(item), cap) =~= last_n(items.take(n), cap));
    } else {
        assert(items.take(0) =~= seq![]);
    }
    let cut = n - t.len();
    assert forall|i: int| 0 <= i < n implies (item_at(t, (#[trigger] items[i]).key) is Some) == (i
        >= n - cap) by {
        let p = |x: Item| x.key == items[i].key;
        crate::seqs::lemma_first_where_is(t, p);
        if i >= cut {
            assert(t[i - cut] == items[i]);
            assert(p(t[i - cut]));
        } else if let Some(k) = item_at(t, items[i].key) {
            assert(p(t[k]));
            assert(t[k] == items[k + cut]);
            assert(items[i].key != items[k + cut].key);
        }
    }
}

/// One of the last `n` entries has this key.
pub open spec fn among_last(s: Seq<Item>, key: Ident, n: int) -> bool {
    exists|i: int| 0 <= i < s.len() && s.len() - n <= i && (#[trigger] s[i]).key == key
}

/// What is among the last entries is found.
pub proof fn lemma_among_last_found(s: Seq<Item>, key: Ident, n: int)
    requires
        among_last(s, key, n),
    ensures
        item_at(s, key) is Some,
{
    let p = |i: Item| i.key == key;
    let i = choose|i: int| 0 <= i < s.len() && s.len() - n <= i && (#[trigger] s[i]).key == key;
    crate::seqs::lemma_first_where_is(s, p);
    assert(p(s[i]));
}

/// Where an entry is used, it is the last, and another one is so much further
/// from the end.
pub proof fn lemma_used_among_last(s: Seq<Item>, at: int, key: Ident, n: int)
    requires
        0 <= at < s.len(),
    ensures
        among_last(used(s, at), s[at].key, 1),
        among_last(s, key, n) ==> among_last(used(s, at), key, n + 1),
{
    let t = used(s, at);
    assert(t.last() == s[at]);
    assert(t[t.len() - 1].key == s[at].key);
    if among_last(s, key, n) {
        let i = choose|i: int| 0 <= i < s.len() && s.len() - n <= i && (#[trigger] s[i]).key == key;
        let j = if i == at {
            t.len() - 1
        } else if i < at {
            i
        } else {
            i - 1
        };
        assert(t[j] == s[i]);
        assert(n >= 1);
        assert(t[j].key == key);
    }
}

/// Where an entry is remembered, it is the last, and another one is so much
/// further from the end, as long as the limit reaches there.
pub proof fn lemma_stored_among_last(s: Seq<Item>, item: Item, cap: nat, key: Ident, n: int)
    requires
        cap >= 1,
        n < cap,
    ensures
        among_last(stored(s, item, cap), item.key, 1),
        among_last(s, key, n) ==> among_last(stored(s, item, cap), key, n + 1),
{
    let r = removed(s, item.key);
    let whole = r.push(item);
    let t = stored(s, item, cap);
    let cut = whole.len() - t.len();
    crate::seqs::lemma_first_where_is(s, |i: Item| i.key == item.key);
    assert(t[t.len() - 1] == whole[whole.len() - 1]);
    assert(t[t.len() - 1].key == item.key);
    if among_last(s, key, n) {
        let i = choose|i: int| 0 <= i < s.len() && s.len() - n <= i && (#[trigger] s[i]).key == key;
        assert(n >= 1);
        if key != item.key {
            let j = match item_at(s, item.key) {
                Some(gone) => if i < gone {
                    i
                } else {
                    i - 1
                },
                None => i,
            };
            assert(whole[j] == s[i]);
            assert(t[j - cut] == whole[j]);
            assert(t[j - cut].key == key);
        }
    }
}

/// The bytes that a key is hashed by.
pub open spec fn key_bytes(key: Key) -> Seq<u8> {
    let (secs, nanos) = key.mtime.parts();
    key.path + seq![0xffu8] + le(secs as int, 8) + le(nanos as int, 4) + seq![0xfeu8] + encode_utf8(
        key.signature,
    )
}

/// The hash of a key.
pub fn stable_key_hash(key: &CacheKey) -> (r: u64)
    ensures
        r == fnv(FNV_OFFSET, key_bytes(key@)),
{
    let (secs, nanos) = system_time_parts(key.binary_mtime);
    let mut bytes: Vec<u8> = Vec::new();
    bytes.extend_from_slice(key.binary_path.as_slice());
    bytes.push(0xff);
    put_le(&mut bytes, secs, 8);
    put_le(&mut bytes, nanos as u64, 4);
    bytes.push(0xfe);
    bytes.extend_from_slice(key.query_signature.as_str().as_bytes());
    assert(bytes@ =~= key_bytes(key@));
    fnv1a64(FNV_OFFSET, bytes.as_slice())
}

/// The name of the file of a key.
pub fn cache_file_name(key: &CacheKey) -> (r: String)
    ensures
        r@ == hex_padded(fnv(FNV_OFFSET, key_bytes(key@)) as int, 16) + ".json"@,
{
    let mut out: String = String::new();
    push_hex(&mut out, stable_key_hash(key), 16);
    assert(Seq::<char>::empty() + hex_padded(fnv(FNV_OFFSET, key_bytes(key@)) as int, 16)
        =~= hex_padded(fnv(FNV_OFFSET, key_bytes(key@)) as int, 16));
    out.append(".json");
    out
}

/// A key in its form on disk.
#[derive(Debug, Clone, PartialEq, Eq)]
pub struct DiskCacheKey {
    pub binary_path_hex: String,
    pub binary_mtime_secs: u64,
    pub binary_mtime_nanos: u32,
    pub query_signature: String,
}

/// An entry in its form on disk.
#[derive(Debug, Clone)]
pub struct DiskCacheEntry {
    pub format_version: u8,
    pub key: DiskCacheKey,
    pub suggestions: Vec<Suggestion>,
    pub stored_at_secs: u64,
    pub stored_at_nanos: u32,
}

/// The form on disk is that of the key.
pub open spec fn stands_for(d: DiskCacheKey, key: Key) -> bool {
    &&& d.binary_path_hex@ == hex(key.path)
    &&& (d.binary_mtime_secs, d.binary_mtime_nanos) == key.mtime.parts()
    &&& d.query_signature@ == key.signature
}

impl DiskCacheKey {
    pub fn from_cache_key(key: &CacheKey) -> (r: Self)
        ensures
            stands_for(r, key@),
    {
        let (secs, nanos) = system_time_parts(key.binary_mtime);
        DiskCacheKey {
            binary_path_hex: hex_encode(key.binary_path.as_slice()),
            binary_mtime_secs: secs,
            binary_mtime_nanos: nanos,
            query_signature: key.query_signature.clone(),
        }
    }

    /// Whether this is the form of the key.
    pub fn matches(&self, key: &CacheKey) -> (b: bool)
        ensures
            b == stands_for(*self, key@),
    {
        let expected: DiskCacheKey = DiskCacheKey::from_cache_key(key);
        self.binary_path_hex == expected.binary_path_hex && self.binary_mtime_secs
            == expected.binary_mtime_secs && self.binary_mtime_nanos == expected.binary_mtime_nanos
            && self.query_signature == expected.query_signature
    }
}

/// Two keys with the same form on disk are equal, times before 1970 aside.
pub proof fn law_disk_key_injective(d: DiskCacheKey, a: Key, b: Key)
    requires
        stands_for(d, a),
        stands_for(d, b),
        a.mtime.secs >= 0,
        b.mtime.secs >= 0,
    ensures
        a == b,
{
    law_hex_injective(a.path, b.path);
    assert(a =~= b);
}

impl CompletionCache {
    /// The entry of a key in its form on disk; none where it is not
    /// remembered.
    pub fn to_disk(&self, key: &CacheKey) -> (r: Option<DiskCacheEntry>)
        ensures
            match item_at(self@, key@.ident()) {
                Some(i) => r is Some && r->0.format_version == FORMAT_VERSION && stands_for(
                    r->0.key,
                    key@,
                ) && r->0.suggestions@ == self@[i].suggestions && (
                    r->0.stored_at_secs,
                    r->0.stored_at_nanos,
                ) == self@[i].stored_at.parts(),
                None => r is None,
            },
    {
        match self.find(key) {
            None => None,
            Some(i) => {
                let entry: &CacheEntry = &self.slots[i].entry;
                assert(self@[i as int] == self.slots@[i as int]@);
                let (secs, nanos) = system_time_parts(entry.stored_at);
                let suggestions: Vec<Suggestion> = entry.suggestions.clone();
                assert(suggestions@ =~= entry.suggestions@);
                Some(
                    DiskCacheEntry {
                        format_version: FORMAT_VERSION,
                        key: DiskCacheKey::from_cache_key(key),
                        suggestions,
                        stored_at_secs: secs,
                        stored_at_nanos: nanos,
                    },
                )
            },
        }
    }

    /// Takes an entry from disk, unless it is of another version or another
    /// key. Returns its suggestions.
    pub fn take_from_disk(&mut self, key: &CacheKey, disk: DiskCacheEntry) -> (r: Option<
        Vec<Suggestion>,
    >)
        requires
            old(self).inv(),
            disk.stored_at_secs <= i64::MAX,
        ensures
            final(self).inv(),
            final(self).limit() == old(self).limit(),
            final(self).dir() == old(self).dir(),
            if disk.format_version == FORMAT_VERSION && stands_for(disk.key, key@) {
                r is Some && r->0@ == disk.suggestions@ && final(self)@ == stored(
                    old(self)@,
                    Item {
                        key: key@.ident(),
                        suggestions: disk.suggestions@,
                        stored_at: Timestamp {
                            secs: disk.stored_at_secs as i64,
                            nanos: if disk.stored_at_nanos < 999_999_999 {
                                disk.stored_at_nanos
                            } else {
                                999_999_999
                            },
                        },
                    },
                    old(self).limit(),
                )
            } else {
                r is None && final(self)@ == old(self)@
            },
    {
        if disk.format_version != FORMAT_VERSION || !disk.key.matches(key) {
            return None;
        }
        let suggestions: Vec<Suggestion> = disk.suggestions.clone();
        assert(suggestions@ =~= disk.suggestions@);
        let stored_at: Timestamp = system_time_from_parts(
            disk.stored_at_secs,
            disk.stored_at_nanos,
        );
        self.put_entry(key.clone(), CacheEntry { suggestions: disk.suggestions, stored_at });
        Some(suggestions)
    }

    /// The path of the file of a key.
    pub fn cache_path(&self, key: &CacheKey) -> (r: String)
        ensures
            r@ == joined(
                self.dir(),
                hex_padded(fnv(FNV_OFFSET, key_bytes(key@)) as int, 16) + ".json"@,
            ),
    {
        join_path(self.base_dir.as_str(), cache_file_name(key).as_str())
    }
}

/// The directory of the files, from the environment.
pub fn default_base_dir(cache_home: Option<&str>, home: Option<&str>) -> (r: String)
    ensures
        r@ == match (cache_home, home) {
            (Some(c), _) => joined(c@, "quill/completions"@),
            (None, Some(h)) => joined(h@, ".cache/quill/completions"@),
            (None, None) => ".cache/quill/completions"@,
        },
{
    match (cache_home, home) {
        (Some(c), _) => join_path(c, "quill/completions"),
        (None, Some(h)) => join_path(h, ".cache/quill/completions"),
        (None, None) => ".cache/quill/completions".to_owned(),
    }
}

/// Keys are the same where the paths name the same program, and the time of its
/// last change and what was asked are equal: a program that has changed is
/// another key.
pub proof fn law_keys_are_told_apart(a: Key, b: Key)
    ensures
        a.ident() == b.ident() <==> place(a.path) == place(b.path) && a.mtime.secs == b.mtime.secs
            && a.mtime.nanos == b.mtime.nanos && a.signature == b.signature,
{
    if place(a.path) == place(b.path) && a.mtime.secs == b.mtime.secs && a.mtime.nanos
        == b.mtime.nanos && a.signature == b.signature {
        assert(a.mtime == b.mtime);
        assert(a.ident() =~= b.ident());
    }
}

/// An entry is found by its key wherever it stands, and nothing by a key that no
/// entry has.
pub proof fn law_entry_is_found(s: Seq<Item>, key: Ident, k: int)
    requires
        distinct_keys(s),
    ensures
        0 <= k < s.len() && s[k].key == key ==> item_at(s, key) == Some(k),
        (forall|j: int| 0 <= j < s.len() ==> (#[trigger] s[j]).key != key) ==> item_at(s, key)
            is None,
{
    let p = |i: Item| i.key == key;
    crate::seqs::lemma_first_where_is(s, p);
    if 0 <= k < s.len() && s[k].key == key {
        assert(p(s[k]));
        let m = item_at(s, key)->0;
        assert(p(s[m]));
        if m < k {
            assert(s[m].key != s[k].key);
        }
    }
    if forall|j: int| 0 <= j < s.len() ==> (#[trigger] s[j]).key != key {
        if let Some(m) = item_at(s, key) {
            assert(p(s[m]));
        }
    }
}

/// To look an entry up loses none and changes none: it only becomes the last to
/// go, and the others keep their order.
pub proof fn law_use_loses_nothing(s: Seq<Item>, i: int)
    requires
        0 <= i < s.len(),
    ensures
        used(s, i).len() == s.len(),
        used(s, i).last() == s[i],
        forall|k: int| 0 <= k < i ==> #[trigger] used(s, i)[k] == s[k],
        forall|k: int| i < k < s.len() ==> used(s, i)[k - 1] == #[trigger] s[k],
{
}

/// What is remembered under a key takes the place of what was remembered under
/// it: as many entries stay as there is room for, in their order, the new one
/// last.
pub proof fn law_put_replaces(s: Seq<Item>, item: Item, cap: nat, k: int)
    requires
        distinct_keys(s),
        s.len() <= cap,
        0 <= k < s.len(),
        s[k].key == item.key,
    ensures
        stored(s, item, cap).len() == s.len(),
        stored(s, item, cap).last() == item,
        forall|j: int| 0 <= j < k ==> #[trigger] stored(s, item, cap)[j] == s[j],
        forall|j: int| k < j < s.len() ==> stored(s, item, cap)[j - 1] == #[trigger] s[j],
{
    law_entry_is_found(s, item.key, k);
}

/// A time is written in seconds and nanoseconds as it is, one before 1970 as
/// 1970. A key's form on disk tells its path, its time and what was asked.
pub proof fn law_form_on_disk(time: Timestamp, d: DiskCacheKey, key: Key)
    ensures
        time.secs >= 0 ==> time.parts().0 == time.secs && time.parts().1 == time.nanos,
        time.secs < 0 ==> time.parts().0 == 0 && time.parts().1 == 0,
        stands_for(d, key) ==> d.binary_path_hex@ == hex(key.path) && d.query_signature@
            == key.signature,
        stands_for(d, key) && key.mtime.secs >= 0 ==> d.binary_mtime_secs == key.mtime.secs
            && d.binary_mtime_nanos == key.mtime.nanos,
{
}

/// The bytes by which a key is hashed hold all of it: keys whose paths are as
/// long and that differ have different bytes.
pub proof fn law_key_bytes_hold_the_key(a: Key, b: Key)
    requires
        a.path.len() == b.path.len(),
        a.mtime.secs >= 0,
        b.mtime.secs >= 0,
        key_bytes(a) == key_bytes(b),
    ensures
        a == b,
{
    let (x, y) = (key_bytes(a), key_bytes(b));
    let n = a.path.len() as int;
    let (p, q) = (a.mtime.parts(), b.mtime.parts());
    crate::kernel::le::lemma_pow256();
    crate::kernel::le::lemma_value_le(p.0 as int, 8);
    crate::kernel::le::lemma_value_le(q.0 as int, 8);
    crate::kernel::le::lemma_value_le(p.1 as int, 4);
    crate::kernel::le::lemma_value_le(q.1 as int, 4);
    assert(x.take(n) =~= a.path && y.take(n) =~= b.path);
    assert(x.subrange(n + 1, n + 9) =~= le(p.0 as int, 8));
    assert(y.subrange(n + 1, n + 9) =~= le(q.0 as int, 8));
    assert(x.subrange(n + 9, n + 13) =~= le(p.1 as int, 4));
    assert(y.subrange(n + 9, n + 13) =~= le(q.1 as int, 4));
    assert(x.skip(n + 14) =~= encode_utf8(a.signature));
    assert(y.skip(n + 14) =~= encode_utf8(b.signature));
    crate::text::lemma_encode_injective(a.signature, b.signature);
    assert(a.mtime == b.mtime);
    assert(a =~= b);
}

} // verus!
