//! What a directory holds, as far as it is offered.

use crate::text::{lemma_text_lt_total, lemma_text_lt_transitive, str_precedes, text_lt};
use vstd::prelude::*;

verus! {

/// A name in a directory.
#[derive(Debug)]
pub struct DirEntry {
    pub name: String,
    pub is_dir: bool,
}

/// A name in a directory, as plain values.
#[verifier::ext_equal]
pub ghost struct Entry {
    pub name: Seq<char>,
    pub is_dir: bool,
}

impl View for DirEntry {
    type V = Entry;

    open spec fn view(&self) -> Entry {
        Entry { name: self.name@, is_dir: self.is_dir }
    }
}

/// The views of what a directory holds.
pub open spec fn entry_views(s: Seq<DirEntry>) -> Seq<Entry> {
    s.map_values(|e: DirEntry| e@)
}

/// Whether `a` is listed before `b`: directories come first, and else the name
/// decides.
pub open spec fn goes_before(a: Entry, b: Entry) -> bool {
    if a.is_dir == b.is_dir {
        text_lt(a.name, b.name)
    } else {
        a.is_dir
    }
}

/// How many of the entries, from the front, are not listed after `e`.
pub open spec fn place(s: Seq<Entry>, e: Entry) -> int
    decreases s.len(),
{
    if s.len() == 0 {
        0
    } else if goes_before(e, s.last()) {
        place(s.drop_last(), e)
    } else {
        s.len() as int
    }
}

/// The entries in the order in which they are listed.
pub open spec fn arranged(s: Seq<Entry>) -> Seq<Entry>
    decreases s.len(),
{
    if s.len() == 0 {
        seq![]
    } else {
        let rest = arranged(s.drop_last());
        rest.insert(place(rest, s.last()), s.last())
    }
}

/// Whether no entry stands behind one that it is listed before.
pub open spec fn in_listing_order(s: Seq<Entry>) -> bool {
    forall|i: int, j: int| 0 <= i < j < s.len() ==> !goes_before(#[trigger] s[j], #[trigger] s[i])
}

proof fn lemma_place(s: Seq<Entry>, e: Entry)
    ensures
        0 <= place(s, e) <= s.len(),
        forall|i: int| place(s, e) <= i < s.len() ==> goes_before(e, #[trigger] s[i]),
        place(s, e) > 0 ==> !goes_before(e, s[place(s, e) - 1]),
    decreases s.len(),
{
    if s.len() > 0 && goes_before(e, s.last()) {
        let rest = s.drop_last();
        lemma_place(rest, e);
        assert forall|i: int| place(s, e) <= i < s.len() implies goes_before(
            e,
            #[trigger] s[i],
        ) by {
            if i < rest.len() {
                assert(rest[i] == s[i]);
            }
        }
        if place(s, e) > 0 {
            assert(rest[place(s, e) - 1] == s[place(s, e) - 1]);
        }
    }
}

proof fn lemma_goes_before(a: Entry, b: Entry, c: Entry)
    ensures
        !(goes_before(a, b) && goes_before(b, a)),
        goes_before(a, b) && goes_before(b, c) ==> goes_before(a, c),
        goes_before(a, c) ==> goes_before(a, b) || goes_before(b, c),
{
    lemma_text_lt_total(a.name, b.name);
    lemma_text_lt_total(b.name, c.name);
    lemma_text_lt_total(a.name, c.name);
    if text_lt(a.name, b.name) && text_lt(b.name, c.name) {
        lemma_text_lt_transitive(a.name, b.name, c.name);
    }
    if text_lt(c.name, b.name) && text_lt(b.name, a.name) {
        lemma_text_lt_transitive(c.name, b.name, a.name);
    }
}

/// The entries are listed in order, and each as often as it is there.
pub proof fn law_arranged(s: Seq<Entry>)
    ensures
        in_listing_order(arranged(s)),
        arranged(s).to_multiset() == s.to_multiset(),
        arranged(s).len() == s.len(),
    decreases s.len(),
{
    if s.len() > 0 {
        let e = s.last();
        let rest = arranged(s.drop_last());
        law_arranged(s.drop_last());
        lemma_place(rest, e);
        let k = place(rest, e);
        let all = arranged(s);
        assert forall|i: int, j: int| 0 <= i < j < all.len() implies !goes_before(
            #[trigger] all[j],
            #[trigger] all[i],
        ) by {
            if j == k {
                assert(all[i] == rest[i]);
                lemma_goes_before(e, rest[i], rest[k - 1]);
                if i < k - 1 {
                    assert(!goes_before(rest[k - 1], rest[i]));
                    lemma_goes_before(e, rest[k - 1], rest[i]);
                }
            } else if i == k {
                assert(all[j] == rest[j - 1]);
                lemma_goes_before(e, rest[j - 1], e);
            } else {
                let x = if i < k {
                    i
                } else {
                    i - 1
                };
                let y = if j < k {
                    j
                } else {
                    j - 1
                };
                assert(all[i] == rest[x] && all[j] == rest[y]);
            }
        }
        vstd::seq_lib::to_multiset_insert(rest, k, e);
        s.drop_last().to_multiset_ensures();
        assert(s.drop_last().push(e) =~= s);
    } else {
        assert(arranged(s) =~= s);
    }
}

fn listed_before(a: &DirEntry, b: &DirEntry) -> (r: bool)
    ensures
        r == goes_before(a@, b@),
{
    if a.is_dir == b.is_dir {
        str_precedes(a.name.as_str(), b.name.as_str())
    } else {
        a.is_dir
    }
}

/// Adds an entry where it is listed.
pub(crate) fn insert_entry(entries: &mut Vec<DirEntry>, e: DirEntry)
    ensures
        entry_views(final(entries)@) == entry_views(old(entries)@).insert(
            place(entry_views(old(entries)@), e@),
            e@,
        ),
{
    let ghost all = entry_views(entries@);
    let mut k: usize = entries.len();
    assert(all.take(k as int) =~= all);
    while k > 0 && listed_before(&e, &entries[k - 1])
        invariant
            *entries == *old(entries),
            all == entry_views(entries@),
            k <= entries@.len() == all.len(),
            place(all.take(k as int), e@) == place(all, e@),
        decreases k,
    {
        assert(all.take(k as int).last() == entries@[k - 1]@);
        assert(all.take(k as int).drop_last() =~= all.take(k - 1));
        k = k - 1;
    }
    if k > 0 {
        assert(all.take(k as int).last() == entries@[k - 1]@);
    }
    assert(place(all, e@) == k);
    let ghost v = e@;
    entries.insert(k, e);
    assert(entry_views(entries@) =~= all.insert(k as int, v));
}

} // verus!
