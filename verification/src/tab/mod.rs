//! Tabs: their numbers, and the list of tabs of a workspace.

use crate::term::grid::{MAX_COLUMNS, MAX_LINES};
use crate::term::{Screen, TermState};
use vstd::prelude::*;

verus! {

/// The number of a tab.
#[derive(Debug, Clone, Copy, PartialEq, Eq, Hash, PartialOrd, Ord, Structural)]
pub struct TabId(u64);

impl TabId {
    pub closed spec fn number(self) -> u64 {
        self.0
    }

    pub fn raw(self) -> (r: u64)
        ensures
            r == self.number(),
    {
        self.0
    }
}

/// Hands out the numbers of tabs, from 1 on, none twice.
pub struct TabRegistry {
    next: u64,
}

impl TabRegistry {
    /// The number that is handed out next.
    pub closed spec fn upcoming(&self) -> u64 {
        self.next
    }

    pub fn new() -> (r: Self)
        ensures
            r.upcoming() == 1,
    {
        TabRegistry { next: 1 }
    }

    /// The next number. Behind the largest comes 0.
    pub fn next_id(&mut self) -> (r: TabId)
        ensures
            r.number() == old(self).upcoming(),
            final(self).upcoming() == (old(self).upcoming() + 1) % 0x1_0000_0000_0000_0000,
    {
        let id: u64 = self.next;
        self.next = self.next.wrapping_add(1);
        TabId(id)
    }
}

impl Default for TabRegistry {
    fn default() -> (r: Self)
        ensures
            r.upcoming() == 1,
    {
        TabRegistry::new()
    }
}

/// The number that is handed out after `n` others.
pub open spec fn nth_number(n: nat) -> int {
    (1 + n as int) % 0x1_0000_0000_0000_0000
}

/// As many numbers as there are can be handed out before one comes twice; the
/// first is 1, each is one more than the one before, and greater than all
/// before it until they run out.
pub proof fn law_numbers_differ(a: nat, b: nat)
    requires
        a < b < a + 0x1_0000_0000_0000_0000,
    ensures
        nth_number(a) != nth_number(b),
        b < 0xffff_ffff_ffff_ffff ==> nth_number(a) < nth_number(b),
        nth_number(a + 1) == (nth_number(a) + 1) % 0x1_0000_0000_0000_0000,
        nth_number(0) == 1,
{
}

/// A tab: its terminal, its title, and whether it is to be redrawn.
pub struct TabInstance {
    term: TermState,
    title: String,
    dirty: bool,
    id: TabId,
}

/// A tab as plain values.
pub ghost struct Tab {
    pub id: u64,
    pub title: Seq<char>,
    pub dirty: bool,
    pub screen: Screen,
}

impl View for TabInstance {
    type V = Tab;

    closed spec fn view(&self) -> Tab {
        Tab { id: self.id.number(), title: self.title@, dirty: self.dirty, screen: self.term@ }
    }
}

impl TabInstance {
    /// What every tab keeps: its terminal is valid and not empty.
    pub closed spec fn inv(&self) -> bool {
        self.term.inv() && self@.screen.facts.columns >= 1 && self@.screen.facts.lines >= 1
    }

    /// A new tab with a blank terminal of this size.
    pub fn new(id: TabId, cols: u16, rows: u16) -> (r: Self)
        requires
            cols >= 1 && rows >= 1,
        ensures
            r.inv(),
            r@.id == id.number(),
            r@.title == "shell"@,
            r@.dirty,
            r@.screen.is_new(cols as int, rows as int),
    {
        TabInstance {
            term: TermState::new(cols, rows),
            title: "shell".to_owned(),
            dirty: true,
            id,
        }
    }

    pub fn id(&self) -> (r: TabId)
        ensures
            r.number() == self@.id,
    {
        self.id
    }

    pub fn title(&self) -> (r: &str)
        ensures
            r@ == self@.title,
    {
        self.title.as_str()
    }

    pub fn set_title(&mut self, title: String)
        requires
            old(self).inv(),
        ensures
            final(self).inv(),
            final(self)@ == (Tab { title: title@, ..old(self)@ }),
    {
        self.title = title;
    }

    pub fn term(&self) -> (r: &TermState)
        requires
            self.inv(),
        ensures
            r.inv(),
            r@ == self@.screen,
    {
        &self.term
    }

    pub fn term_mut(&mut self) -> (r: &mut TermState)
        requires
            old(self).inv(),
        ensures
            r.inv(),
            r@ == old(self)@.screen,
            final(self)@ == (Tab { screen: final(r)@, ..old(self)@ }),
            final(r).inv() && final(r)@.facts.columns >= 1 && final(r)@.facts.lines >= 1
                ==> final(self).inv(),
    {
        &mut self.term
    }

    /// Takes output of the tab's program.
    pub fn advance(&mut self, bytes: &[u8])
        requires
            old(self).inv(),
            old(self)@.screen.takes_output(bytes@),
        ensures
            final(self).inv(),
            final(self)@ == (Tab { screen: final(self)@.screen, ..old(self)@ }),
            old(self)@.screen.after_output(bytes@, final(self)@.screen),
    {
        self.term.advance(bytes);
    }

    /// Changes the size of the tab's terminal.
    pub fn resize(&mut self, cols: usize, rows: usize)
        requires
            old(self).inv(),
            old(self)@.screen.takes_width(cols as int),
            cols <= MAX_COLUMNS,
            rows <= MAX_LINES,
        ensures
            final(self).inv(),
            final(self)@ == (Tab { screen: final(self)@.screen, ..old(self)@ }),
            old(self)@.screen.after_resize(cols as int, rows as int, final(self)@.screen),
    {
        self.term.resize(cols, rows);
    }

    pub fn dirty(&self) -> (b: bool)
        ensures
            b == self@.dirty,
    {
        self.dirty
    }

    pub fn mark_dirty(&mut self)
        requires
            old(self).inv(),
        ensures
            final(self).inv(),
            final(self)@ == (Tab { dirty: true, ..old(self)@ }),
    {
        self.dirty = true;
    }

    pub fn clear_dirty(&mut self)
        requires
            old(self).inv(),
        ensures
            final(self).inv(),
            final(self)@ == (Tab { dirty: false, ..old(self)@ }),
    {
        self.dirty = false;
    }
}

/// The tab that becomes active when one is closed: the same tab where another
/// is closed, else the one to its left, or the first. `active` and `closed` are
/// positions among `len` tabs.
pub open spec fn next_active(active: int, closed: int, len: int) -> int {
    let moved = if closed < active || (closed == active && active > 0) {
        active - 1
    } else {
        active
    };
    if len <= 1 {
        0
    } else if moved < len - 1 {
        moved
    } else {
        len - 2
    }
}

/// The position of the active tab once one is closed.
pub fn neighbor_active_after_close(prev_active: usize, closed_idx: usize, prev_len: usize) -> (r: usize)
    requires
        prev_len >= 1,
    ensures
        r == next_active(prev_active as int, closed_idx as int, prev_len as int),
        prev_len > 1 ==> r < prev_len - 1,
{
    let new_len: usize = prev_len - 1;
    if new_len == 0 {
        return 0;
    }
    let moved: usize = if closed_idx < prev_active || (closed_idx == prev_active && prev_active
        > 0) {
        prev_active - 1
    } else {
        prev_active
    };
    if moved < new_len {
        moved
    } else {
        new_len - 1
    }
}

/// The tabs of a workspace, one of them active.
pub struct TabList {
    tabs: Vec<TabInstance>,
    active: usize,
}

/// A list of tabs as plain values.
pub ghost struct Tabs {
    pub tabs: Seq<Tab>,
    pub active: int,
}

impl Tabs {
    /// Whether the emulation of every tab can be made this wide.
    pub open spec fn take_width(self, cols: int) -> bool {
        forall|i: int| 0 <= i < self.tabs.len() ==> (#[trigger] self.tabs[i]).screen.takes_width(cols)
    }

    /// The active tab is one of the list, unless that is empty; no two tabs
    /// have the same number.
    pub open spec fn wf(self) -> bool {
        &&& 0 <= self.active
        &&& self.tabs.len() > 0 ==> self.active < self.tabs.len()
        &&& self.tabs.len() == 0 ==> self.active == 0
        &&& distinct_ids(self.tabs)
    }

    /// The list without the tab at `i`.
    pub open spec fn without(self, i: int) -> Tabs {
        Tabs {
            tabs: self.tabs.remove(i),
            active: next_active(self.active, i, self.tabs.len() as int),
        }
    }

    /// The list with the tabs at `i` and `j` exchanged; the active tab stays
    /// active.
    pub open spec fn exchanged(self, i: int, j: int) -> Tabs {
        Tabs {
            tabs: self.tabs.update(i, self.tabs[j]).update(j, self.tabs[i]),
            active: if self.active == i {
                j
            } else if self.active == j {
                i
            } else {
                self.active
            },
        }
    }
}

/// No two tabs have the same number.
pub open spec fn distinct_ids(tabs: Seq<Tab>) -> bool {
    forall|i: int, j: int|
        0 <= i < j < tabs.len() ==> (#[trigger] tabs[i]).id != (#[trigger] tabs[j]).id
}

/// The position of the tab with this number.
pub open spec fn position(tabs: Seq<Tab>, id: u64) -> Option<int>
    decreases tabs.len(),
{
    if tabs.len() == 0 {
        None
    } else if tabs[0].id == id {
        Some(0)
    } else {
        match position(tabs.skip(1), id) {
            Some(i) => Some(i + 1),
            None => None,
        }
    }
}

pub proof fn lemma_position(tabs: Seq<Tab>, id: u64, i: int)
    requires
        0 <= i <= tabs.len(),
        forall|j: int| 0 <= j < i ==> (#[trigger] tabs[j]).id != id,
        i < tabs.len() ==> tabs[i].id == id,
    ensures
        position(tabs, id) == (if i < tabs.len() {
            Some(i)
        } else {
            None
        }),
    decreases i,
{
    if i > 0 {
        assert(tabs[0].id != id);
        assert forall|j: int| 0 <= j < i - 1 implies (#[trigger] tabs.skip(1)[j]).id != id by {
            assert(tabs.skip(1)[j] == tabs[j + 1]);
        }
        lemma_position(tabs.skip(1), id, i - 1);
    }
}

pub proof fn lemma_position_is(tabs: Seq<Tab>, id: u64)
    ensures
        match position(tabs, id) {
            Some(i) => 0 <= i < tabs.len() && tabs[i].id == id && forall|j: int|
                0 <= j < i ==> (#[trigger] tabs[j]).id != id,
            None => forall|j: int| 0 <= j < tabs.len() ==> (#[trigger] tabs[j]).id != id,
        },
    decreases tabs.len(),
{
    if tabs.len() > 0 && tabs[0].id != id {
        let rest = tabs.skip(1);
        lemma_position_is(rest, id);
        assert forall|j: int| 0 < j < tabs.len() implies #[trigger] tabs[j] == rest[j - 1] by {}
    }
}

proof fn lemma_exchanged_distinct(t: Tabs, i: int, j: int)
    requires
        distinct_ids(t.tabs),
        0 <= i < t.tabs.len(),
        0 <= j < t.tabs.len(),
    ensures
        distinct_ids(t.exchanged(i, j).tabs),
{
    let after = t.exchanged(i, j).tabs;
    let from = |k: int| if k == i {
        j
    } else if k == j {
        i
    } else {
        k
    };
    assert forall|k: int| 0 <= k < after.len() implies #[trigger] after[k] == t.tabs[from(k)] by {}
    assert forall|a: int, b: int| 0 <= a < b < after.len() implies (#[trigger] after[a]).id != (
    #[trigger] after[b]).id by {
        let x = from(a);
        let y = from(b);
        if x < y {
            assert(t.tabs[x].id != t.tabs[y].id);
        } else {
            assert(t.tabs[y].id != t.tabs[x].id);
        }
    }
}

/// The views of tabs.
pub open spec fn tab_views(tabs: Seq<TabInstance>) -> Seq<Tab> {
    tabs.map_values(|t: TabInstance| t@)
}

impl View for TabList {
    type V = Tabs;

    closed spec fn view(&self) -> Tabs {
        Tabs { tabs: tab_views(self.tabs@), active: self.active as int }
    }
}

impl TabList {
    /// What every list keeps.
    pub closed spec fn inv(&self) -> bool {
        self@.wf() && forall|i: int| 0 <= i < self.tabs@.len() ==> (#[trigger] self.tabs@[i]).inv()
    }

    pub fn new(initial: TabInstance) -> (r: Self)
        requires
            initial.inv(),
        ensures
            r.inv(),
            r@.tabs == seq![initial@],
            r@.active == 0,
    {
        let mut tabs: Vec<TabInstance> = Vec::new();
        tabs.push(initial);
        let r = TabList { tabs, active: 0 };
        assert(r@.tabs =~= seq![initial@]);
        r
    }

    pub fn len(&self) -> (n: usize)
        ensures
            n == self@.tabs.len(),
    {
        self.tabs.len()
    }

    pub fn is_empty(&self) -> (b: bool)
        ensures
            b == (self@.tabs.len() == 0),
    {
        self.tabs.len() == 0
    }

    pub fn active_idx(&self) -> (r: usize)
        ensures
            r == self@.active,
    {
        self.active
    }

    /// Makes the tab at `idx` active; tells whether there is one.
    pub fn set_active(&mut self, idx: usize) -> (b: bool)
        requires
            old(self).inv(),
        ensures
            final(self).inv(),
            b == (idx < old(self)@.tabs.len()),
            final(self)@ == (if b {
                Tabs { active: idx as int, ..old(self)@ }
            } else {
                old(self)@
            }),
    {
        if idx >= self.tabs.len() {
            return false;
        }
        self.active = idx;
        true
    }

    pub fn active(&self) -> (r: &TabInstance)
        requires
            self.inv(),
            self@.tabs.len() > 0,
        ensures
            r.inv(),
            r@ == self@.tabs[self@.active],
    {
        &self.tabs[self.active]
    }

    pub fn active_mut(&mut self) -> (r: &mut TabInstance)
        requires
            old(self).inv(),
            old(self)@.tabs.len() > 0,
        ensures
            r.inv(),
            r@ == old(self)@.tabs[old(self)@.active],
            final(self)@.tabs == old(self)@.tabs.update(old(self)@.active, final(r)@),
            final(self)@.active == old(self)@.active,
            final(r).inv() && final(r)@.id == r@.id ==> final(self).inv(),
    {
        let at: usize = self.active;
        self.tab_mut(at)
    }

    fn tab_mut(&mut self, at: usize) -> (r: &mut TabInstance)
        requires
            old(self).inv(),
            at < old(self)@.tabs.len(),
        ensures
            r.inv(),
            r@ == old(self)@.tabs[at as int],
            final(self)@.tabs == old(self)@.tabs.update(at as int, final(r)@),
            final(self)@.active == old(self)@.active,
            final(r).inv() && final(r)@.id == r@.id ==> final(self).inv(),
    {
        proof {
            let before = self@.tabs;
            assert forall|t: Tab| t.id == before[at as int].id implies distinct_ids(
                #[trigger] before.update(at as int, t),
            ) by {}
            assert forall|x: TabInstance|
                tab_views(#[trigger] self.tabs@.update(at as int, x)) == before.update(
                    at as int,
                    x@,
                ) by {
                assert(tab_views(self.tabs@.update(at as int, x)) =~= before.update(at as int, x@));
            }
        }
        &mut self.tabs[at]
    }

    /// Takes output of the program of the tab at `at`.
    pub fn advance_at(&mut self, at: usize, bytes: &[u8])
        requires
            old(self).inv(),
            at < old(self)@.tabs.len(),
            old(self)@.tabs[at as int].screen.takes_output(bytes@),
        ensures
            final(self).inv(),
            final(self)@ == (Tabs {
                tabs: old(self)@.tabs.update(at as int, final(self)@.tabs[at as int]),
                ..old(self)@
            }),
            final(self)@.tabs[at as int] == (Tab {
                screen: final(self)@.tabs[at as int].screen,
                ..old(self)@.tabs[at as int]
            }),
            old(self)@.tabs[at as int].screen.after_output(
                bytes@,
                final(self)@.tabs[at as int].screen,
            ),
    {
        let tab = self.tab_mut(at);
        tab.advance(bytes);
    }

    /// Notes that the tab at `at` has been drawn.
    pub fn clear_term_dirty_at(&mut self, at: usize)
        requires
            old(self).inv(),
            at < old(self)@.tabs.len(),
        ensures
            final(self).inv(),
            final(self)@ == (Tabs {
                tabs: old(self)@.tabs.update(
                    at as int,
                    Tab {
                        screen: Screen { dirty: false, ..old(self)@.tabs[at as int].screen },
                        ..old(self)@.tabs[at as int]
                    },
                ),
                ..old(self)@
            }),
    {
        let tab = self.tab_mut(at);
        tab.term.clear_dirty();
    }

    /// Renames the tab at `at`.
    pub fn set_title_at(&mut self, at: usize, title: String)
        requires
            old(self).inv(),
            at < old(self)@.tabs.len(),
        ensures
            final(self).inv(),
            final(self)@ == (Tabs {
                tabs: old(self)@.tabs.update(
                    at as int,
                    Tab { title: title@, ..old(self)@.tabs[at as int] },
                ),
                ..old(self)@
            }),
    {
        let tab = self.tab_mut(at);
        tab.set_title(title);
    }

    /// Whether every tab's terminal can be made this wide.
    pub fn take_width(&self, cols: usize) -> (b: bool)
        requires
            self.inv(),
        ensures
            b == self@.take_width(cols as int),
    {
        let mut k: usize = 0;
        while k < self.tabs.len()
            invariant
                self.inv(),
                k <= self.tabs@.len() == self@.tabs.len(),
                forall|i: int|
                    0 <= i < k ==> (#[trigger] self@.tabs[i]).screen.takes_width(cols as int),
            decreases self.tabs@.len() - k,
        {
            assert(self@.tabs[k as int] == self.tabs@[k as int]@);
            if !self.tabs[k].term.takes_width(cols) {
                assert(!self@.tabs[k as int].screen.takes_width(cols as int));
                return false;
            }
            k = k + 1;
        }
        true
    }

    /// Changes the size of every tab's terminal.
    pub fn resize_all(&mut self, cols: usize, rows: usize)
        requires
            old(self).inv(),
            old(self)@.take_width(cols as int),
            cols <= MAX_COLUMNS,
            rows <= MAX_LINES,
        ensures
            final(self).inv(),
            final(self)@.active == old(self)@.active,
            final(self)@.tabs.len() == old(self)@.tabs.len(),
            forall|i: int|
                0 <= i < old(self)@.tabs.len() ==> {
                    &&& #[trigger] final(self)@.tabs[i] == (Tab {
                        screen: final(self)@.tabs[i].screen,
                        ..old(self)@.tabs[i]
                    })
                    &&& old(self)@.tabs[i].screen.after_resize(
                        cols as int,
                        rows as int,
                        final(self)@.tabs[i].screen,
                    )
                },
    {
        let n: usize = self.tabs.len();
        let mut k: usize = 0;
        while k < n
            invariant
                self.inv(),
                old(self)@.take_width(cols as int),
                cols <= MAX_COLUMNS,
                rows <= MAX_LINES,
                k <= n == self@.tabs.len() == old(self)@.tabs.len(),
                self@.active == old(self)@.active,
                forall|i: int|
                    0 <= i < k ==> {
                        &&& #[trigger] self@.tabs[i] == (Tab {
                            screen: self@.tabs[i].screen,
                            ..old(self)@.tabs[i]
                        })
                        &&& old(self)@.tabs[i].screen.after_resize(
                            cols as int,
                            rows as int,
                            self@.tabs[i].screen,
                        )
                    },
                forall|i: int| k <= i < n ==> #[trigger] self@.tabs[i] == old(self)@.tabs[i],
            decreases n - k,
        {
            assert(self@.tabs[k as int].screen.takes_width(cols as int));
            let tab = self.tab_mut(k);
            tab.resize(cols, rows);
            k = k + 1;
        }
    }

    pub fn get(&self, idx: usize) -> (r: Option<&TabInstance>)
        requires
            self.inv(),
        ensures
            match r {
                Some(tab) => idx < self@.tabs.len() && tab.inv() && tab@ == self@.tabs[idx as int],
                None => idx >= self@.tabs.len(),
            },
    {
        if idx < self.tabs.len() {
            Some(&self.tabs[idx])
        } else {
            None
        }
    }

    pub fn get_mut(&mut self, idx: usize) -> (r: Option<&mut TabInstance>)
        requires
            old(self).inv(),
        ensures
            match r {
                Some(tab) => idx < old(self)@.tabs.len() && tab.inv() && tab@
                    == old(self)@.tabs[idx as int] && final(self)@.tabs
                    == old(self)@.tabs.update(idx as int, final(tab)@) && final(self)@.active
                    == old(self)@.active && (final(tab).inv() && final(tab)@.id == tab@.id
                    ==> final(self).inv()),
                None => idx >= old(self)@.tabs.len() && final(self)@ == old(self)@
                    && final(self).inv(),
            },
    {
        if idx < self.tabs.len() {
            Some(self.tab_mut(idx))
        } else {
            None
        }
    }

    /// The position of the tab with the number `raw`.
    pub fn position_of(&self, raw: u64) -> (r: Option<usize>)
        ensures
            match r {
                Some(i) => position(self@.tabs, raw) == Some(i as int) && i < self@.tabs.len(),
                None => position(self@.tabs, raw) is None,
            },
    {
        let mut i: usize = 0;
        while i < self.tabs.len()
            invariant
                i <= self.tabs@.len() == self@.tabs.len(),
                forall|j: int| 0 <= j < i ==> (#[trigger] self@.tabs[j]).id != raw,
            decreases self.tabs@.len() - i,
        {
            assert(self@.tabs[i as int] == self.tabs@[i as int]@);
            if self.tabs[i].id.0 == raw {
                proof {
                    lemma_position(self@.tabs, raw, i as int);
                }
                return Some(i);
            }
            i = i + 1;
        }
        proof {
            lemma_position(self@.tabs, raw, i as int);
        }
        None
    }

    /// The position of a tab.
    pub fn idx_of(&self, id: TabId) -> (r: Option<usize>)
        ensures
            match r {
                Some(i) => position(self@.tabs, id.number()) == Some(i as int),
                None => position(self@.tabs, id.number()) is None,
            },
    {
        self.position_of(id.0)
    }

    /// Appends a tab whose number no tab of the list has. Returns its position
    /// and number.
    pub fn push(&mut self, tab: TabInstance) -> (r: (usize, TabId))
        requires
            old(self).inv(),
            tab.inv(),
            forall|j: int| 0 <= j < old(self)@.tabs.len() ==> (#[trigger] old(self)@.tabs[j]).id
                != tab@.id,
        ensures
            final(self).inv(),
            final(self)@.tabs == old(self)@.tabs.push(tab@),
            final(self)@.active == old(self)@.active,
            r.0 == old(self)@.tabs.len(),
            r.1.number() == tab@.id,
    {
        let id: TabId = tab.id;
        self.tabs.push(tab);
        assert(self@.tabs =~= old(self)@.tabs.push(tab@));
        (self.tabs.len() - 1, id)
    }

    /// Takes the tab at `idx` out; none where there is none.
    pub fn remove(&mut self, idx: usize) -> (r: Option<TabInstance>)
        requires
            old(self).inv(),
        ensures
            final(self).inv(),
            match r {
                Some(tab) => idx < old(self)@.tabs.len() && tab@ == old(self)@.tabs[idx as int]
                    && final(self)@ == old(self)@.without(idx as int),
                None => idx >= old(self)@.tabs.len() && final(self)@ == old(self)@,
            },
    {
        if idx >= self.tabs.len() {
            return None;
        }
        let len: usize = self.tabs.len();
        let removed: TabInstance = self.tabs.remove(idx);
        self.active = neighbor_active_after_close(self.active, idx, len);
        assert(self@.tabs =~= old(self)@.tabs.remove(idx as int));
        Some(removed)
    }

    /// Exchanges two tabs; the active tab stays active. Tells whether they are
    /// two tabs of the list.
    pub fn swap_reorder(&mut self, origin_idx: usize, target_idx: usize) -> (b: bool)
        requires
            old(self).inv(),
        ensures
            final(self).inv(),
            b == (origin_idx < old(self)@.tabs.len() && target_idx < old(self)@.tabs.len()
                && origin_idx != target_idx),
            final(self)@ == (if b {
                old(self)@.exchanged(origin_idx as int, target_idx as int)
            } else {
                old(self)@
            }),
    {
        let n: usize = self.tabs.len();
        if origin_idx >= n || target_idx >= n || origin_idx == target_idx {
            return false;
        }
        let (low, high): (usize, usize) = if origin_idx < target_idx {
            (origin_idx, target_idx)
        } else {
            (target_idx, origin_idx)
        };
        let ghost before = self.tabs@;
        let upper: TabInstance = self.tabs.remove(high);
        let lower: TabInstance = self.tabs.remove(low);
        self.tabs.insert(low, upper);
        self.tabs.insert(high, lower);
        proof {
            let i = origin_idx as int;
            let j = target_idx as int;
            assert(self.tabs@ =~= before.update(i, before[j]).update(j, before[i]));
            assert(tab_views(self.tabs@) =~= old(self)@.exchanged(i, j).tabs);
            lemma_exchanged_distinct(old(self)@, i, j);
        }
        if self.active == origin_idx {
            self.active = target_idx;
        } else if self.active == target_idx {
            self.active = origin_idx;
        }
        true
    }
}

/// A valid list's model is valid.
pub proof fn lemma_tab_list_wf(t: TabList)
    requires
        t.inv(),
    ensures
        t@.wf(),
{
}

/// Closing a tab that is not active keeps the active tab active.
pub proof fn law_close_keeps_active(t: Tabs, i: int)
    requires
        t.wf(),
        0 <= i < t.tabs.len(),
        i != t.active,
    ensures
        t.without(i).tabs[t.without(i).active] == t.tabs[t.active],
{
}

/// Exchanging two tabs keeps the active tab active.
pub proof fn law_exchange_keeps_active(t: Tabs, i: int, j: int)
    requires
        t.wf(),
        0 <= i < t.tabs.len(),
        0 <= j < t.tabs.len(),
    ensures
        t.exchanged(i, j).tabs[t.exchanged(i, j).active] == t.tabs[t.active],
{
}

/// Exchanging the same two tabs again restores the list.
pub proof fn law_exchange_twice(t: Tabs, i: int, j: int)
    requires
        t.wf(),
        0 <= i < t.tabs.len(),
        0 <= j < t.tabs.len(),
        i != j,
    ensures
        t.exchanged(i, j).exchanged(i, j) == t,
{
    assert(t.exchanged(i, j).exchanged(i, j).tabs =~= t.tabs);
}

/// Closing takes that tab out and no other, and the others keep their order.
/// When the active tab is closed the one to its left is active, or, where it was
/// the first, the one that was to its right.
pub proof fn law_close_takes_one(t: Tabs, i: int)
    requires
        t.wf(),
        0 <= i < t.tabs.len(),
    ensures
        t.without(i).tabs.len() == t.tabs.len() - 1,
        forall|k: int| 0 <= k < i ==> #[trigger] t.without(i).tabs[k] == t.tabs[k],
        forall|k: int| i < k < t.tabs.len() ==> t.without(i).tabs[k - 1] == #[trigger] t.tabs[k],
        i == t.active && i > 0 ==> t.without(i).tabs[t.without(i).active] == t.tabs[i - 1],
        i == t.active && i == 0 && t.tabs.len() > 1 ==> t.without(i).tabs[t.without(i).active]
            == t.tabs[1],
        t.tabs.len() == 1 ==> t.without(i).active == 0,
{
}

/// The position that is active after a close, for any positions: one less where
/// a tab to the left goes or the tab itself, the same where one to the right
/// does, but never behind the last that is left.
pub proof fn law_active_position(active: int, closed: int, len: int)
    requires
        0 <= active,
        0 <= closed,
        1 <= len,
    ensures
        0 <= next_active(active, closed, len),
        len > 1 ==> next_active(active, closed, len) <= len - 2,
        len == 1 ==> next_active(active, closed, len) == 0,
        active < len && closed < active ==> next_active(active, closed, len) == active - 1,
        active < closed < len ==> next_active(active, closed, len) == active,
        0 < active == closed < len ==> next_active(active, closed, len) == active - 1,
        0 == active == closed ==> next_active(active, closed, len) == 0,
        active >= len > 1 ==> next_active(active, closed, len) == len - 2 || next_active(
            active,
            closed,
            len,
        ) == active - 1,
{
}

/// Exchanging moves the two tabs and no other.
pub proof fn law_exchange_moves_two(t: Tabs, i: int, j: int)
    requires
        0 <= i < t.tabs.len(),
        0 <= j < t.tabs.len(),
    ensures
        t.exchanged(i, j).tabs.len() == t.tabs.len(),
        t.exchanged(i, j).tabs[i] == t.tabs[j],
        t.exchanged(i, j).tabs[j] == t.tabs[i],
        forall|k: int|
            0 <= k < t.tabs.len() && k != i && k != j ==> #[trigger] t.exchanged(i, j).tabs[k]
                == t.tabs[k],
{
}

/// A tab is found by its number wherever it stands, and nothing is found by a
/// number that no tab has.
pub proof fn law_tab_is_found(t: Tabs, raw: u64, k: int)
    requires
        t.wf(),
    ensures
        0 <= k < t.tabs.len() && t.tabs[k].id == raw ==> position(t.tabs, raw) == Some(k),
        (forall|j: int| 0 <= j < t.tabs.len() ==> (#[trigger] t.tabs[j]).id != raw) ==> position(
            t.tabs,
            raw,
        ) is None,
{
    lemma_position_is(t.tabs, raw);
}

} // verus!
