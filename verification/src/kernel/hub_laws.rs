//! What holds of the daemon's state whatever happens to it.

use crate::kernel::feed::{encoded, tab_list, FeedTabOp, Frame, FrameKind};
use crate::kernel::hub::{
    chosen, client_at, feeder_at, feeder_for_ws, first_new, follows, input_frames, listed, oldest,
    ring_at, sees, stranded, tab_at, watches, Act, BYTE_RING_CAP, ClientModel, FED_INPUT_CHUNK,
    FeederModel, HubModel, MAX_WS_CONNS, RingModel, TabItem,
};
use crate::kernel::proto::{ClientMsg, TabOp};
use crate::kernel::ring::{last_n, law_ring_pieces, Parcel};
use crate::seqs::{lemma_first_where, lemma_first_where_is};
use vstd::prelude::*;

verus! {

/// No two clients have the same number.
pub open spec fn distinct_clients(s: Seq<ClientModel>) -> bool {
    forall|i: int, j: int| 0 <= i < j < s.len() ==> (#[trigger] s[i]).id != (#[trigger] s[j]).id
}

/// No two windows have the same number.
pub open spec fn distinct_feeders(s: Seq<FeederModel>) -> bool {
    forall|i: int, j: int| 0 <= i < j < s.len() ==> (#[trigger] s[i]).id != (#[trigger] s[j]).id
}

/// What a daemon that windows feed keeps: numbers are not used twice, the
/// anchor is one of the windows as long as there are any, and each client
/// watches one of them, or none.
pub open spec fn consistent(h: HubModel) -> bool {
    &&& distinct_clients(h.clients)
    &&& distinct_feeders(h.feeders)
    &&& match h.anchor {
        Some(a) => feeder_at(h.feeders, a) is Some,
        None => h.feeders.len() == 0,
    }
    &&& forall|i: int|
        0 <= i < h.clients.len() ==> match (#[trigger] h.clients[i]).feeder {
            Some(f) => feeder_at(h.feeders, f) is Some,
            None => true,
        }
}

/// What the position of a client is.
pub proof fn lemma_client_at(s: Seq<ClientModel>, id: u64)
    requires
        distinct_clients(s),
    ensures
        match client_at(s, id) {
            Some(i) => 0 <= i < s.len() && s[i].id == id && forall|j: int|
                0 <= j < s.len() && j != i ==> (#[trigger] s[j]).id != id,
            None => forall|j: int| 0 <= j < s.len() ==> (#[trigger] s[j]).id != id,
        },
{
    let p = |c: ClientModel| c.id == id;
    lemma_first_where_is(s, p);
    match client_at(s, id) {
        Some(i) => {
            assert(p(s[i]));
            assert forall|j: int| 0 <= j < s.len() && j != i implies (#[trigger] s[j]).id != id by {
                if j < i {
                    assert(s[j].id != s[i].id);
                } else {
                    assert(s[i].id != s[j].id);
                }
            }
        },
        None => {
            assert forall|j: int| 0 <= j < s.len() implies (#[trigger] s[j]).id != id by {
                assert(!p(s[j]));
            }
        },
    }
}

/// What the position of a window is.
pub proof fn lemma_feeder_at(s: Seq<FeederModel>, id: u64)
    ensures
        match feeder_at(s, id) {
            Some(i) => 0 <= i < s.len() && s[i].id == id,
            None => forall|j: int| 0 <= j < s.len() ==> (#[trigger] s[j]).id != id,
        },
{
    let p = |f: FeederModel| f.id == id;
    lemma_first_where_is(s, p);
    match feeder_at(s, id) {
        Some(i) => {
            assert(p(s[i]));
        },
        None => {
            assert forall|j: int| 0 <= j < s.len() implies (#[trigger] s[j]).id != id by {
                assert(!p(s[j]));
            }
        },
    }
}

proof fn lemma_has_feeder(s: Seq<FeederModel>, i: int)
    requires
        0 <= i < s.len(),
    ensures
        feeder_at(s, s[i].id) is Some,
{
    lemma_feeder_at(s, s[i].id);
}

/// The client after it has been shown another tab.
pub open spec fn shown(c: ClientModel, ws: u64, tab: u64, follow: bool) -> ClientModel {
    if c.live {
        ClientModel { viewed: (ws, tab), follow, ..c }
    } else {
        c
    }
}

/// What becomes of the clients when one is shown another tab.
pub proof fn lemma_pointed(h: HubModel, id: u64, ws: u64, tab: u64, follow: bool)
    requires
        distinct_clients(h.clients),
    ensures
        ({
            let r = h.pointed(id, ws, tab, follow).hub;
            &&& r == (HubModel { clients: r.clients, ..h })
            &&& r.clients.len() == h.clients.len()
            &&& forall|j: int|
                0 <= j < h.clients.len() ==> #[trigger] r.clients[j] == (if h.clients[j].id == id {
                    shown(h.clients[j], ws, tab, follow)
                } else {
                    h.clients[j]
                })
            &&& distinct_clients(r.clients)
        }),
{
    lemma_client_at(h.clients, id);
    let r = h.pointed(id, ws, tab, follow).hub;
    assert forall|j: int| 0 <= j < h.clients.len() implies #[trigger] r.clients[j] == (
    if h.clients[j].id == id {
        shown(h.clients[j], ws, tab, follow)
    } else {
        h.clients[j]
    }) by {}
    assert forall|i: int, j: int| 0 <= i < j < r.clients.len() implies (#[trigger] r.clients[i]).id
        != (#[trigger] r.clients[j]).id by {
        assert(h.clients[i].id != h.clients[j].id);
    }
}

/// What becomes of the clients when several are shown another tab.
pub proof fn lemma_pointed_all(h: HubModel, ids: Seq<u64>, n: int, ws: u64, tab: u64)
    requires
        distinct_clients(h.clients),
        0 <= n <= ids.len(),
    ensures
        ({
            let r = h.pointed_all(ids, n, ws, tab).hub;
            &&& r == (HubModel { clients: r.clients, ..h })
            &&& r.clients.len() == h.clients.len()
            &&& forall|j: int|
                0 <= j < h.clients.len() ==> #[trigger] r.clients[j] == (if ids.take(n).contains(
                    h.clients[j].id,
                ) {
                    shown(h.clients[j], ws, tab, true)
                } else {
                    h.clients[j]
                })
            &&& distinct_clients(r.clients)
        }),
    decreases n,
{
    if n > 0 {
        lemma_pointed_all(h, ids, n - 1, ws, tab);
        let prev = h.pointed_all(ids, n - 1, ws, tab).hub;
        lemma_pointed(prev, ids[n - 1], ws, tab, true);
        let r = h.pointed_all(ids, n, ws, tab).hub;
        assert(ids.take(n) =~= ids.take(n - 1).push(ids[n - 1]));
        assert forall|j: int| 0 <= j < h.clients.len() implies #[trigger] r.clients[j] == (
        if ids.take(n).contains(h.clients[j].id) {
            shown(h.clients[j], ws, tab, true)
        } else {
            h.clients[j]
        }) by {
            let id = h.clients[j].id;
            assert(prev.clients[j].id == id);
            if ids.take(n - 1).contains(id) {
                let k = choose|k: int| 0 <= k < n - 1 && #[trigger] ids.take(n - 1)[k] == id;
                assert(ids.take(n)[k] == id);
            }
            if ids[n - 1] == id {
                assert(ids.take(n)[n - 1] == id);
            }
            if ids.take(n).contains(id) {
                let k = choose|k: int| 0 <= k < n && #[trigger] ids.take(n)[k] == id;
                if k < n - 1 {
                    assert(ids.take(n - 1)[k] == id);
                }
            }
        }
    } else {
        assert(ids.take(n) =~= seq![]);
    }
}

/// The numbers of those that satisfy `p` are those of the clients that do.
pub proof fn lemma_chosen(s: Seq<ClientModel>, p: spec_fn(ClientModel) -> bool)
    requires
        distinct_clients(s),
    ensures
        forall|j: int|
            0 <= j < s.len() ==> chosen(s, p).contains((#[trigger] s[j]).id) == p(s[j]),
    decreases s.len(),
{
    reveal(Seq::filter);
    if s.len() > 0 {
        let rest = s.drop_last();
        lemma_chosen(rest, p);
        let a = chosen(rest, p);
        let b = chosen(s, p);
        if p(s.last()) {
            assert(b =~= a.push(s.last().id));
        } else {
            assert(b =~= a);
        }
        assert forall|j: int| 0 <= j < s.len() implies b.contains((#[trigger] s[j]).id) == p(s[j]) by {
            if j < rest.len() {
                assert(rest[j] == s[j]);
                assert(s[j].id != s[s.len() - 1].id);
                if a.contains(s[j].id) {
                    let k = choose|k: int| 0 <= k < a.len() && a[k] == s[j].id;
                    assert(b[k] == s[j].id);
                }
                if b.contains(s[j].id) {
                    let k = choose|k: int| 0 <= k < b.len() && b[k] == s[j].id;
                    assert(k < a.len());
                    assert(a[k] == s[j].id);
                }
            } else {
                if p(s[j]) {
                    assert(b[a.len() as int] == s[j].id);
                }
                if b.contains(s[j].id) && !p(s[j]) {
                    lemma_chosen_from(rest, p, s[j].id);
                    let k = choose|k: int| 0 <= k < rest.len() && (#[trigger] rest[k]).id == s[j].id;
                    assert(s[k].id != s[j].id);
                }
            }
        }
    }
}

/// Each of those numbers is that of a client.
pub proof fn lemma_chosen_from(s: Seq<ClientModel>, p: spec_fn(ClientModel) -> bool, id: u64)
    requires
        chosen(s, p).contains(id),
    ensures
        exists|k: int| 0 <= k < s.len() && (#[trigger] s[k]).id == id && p(s[k]),
    decreases s.len(),
{
    reveal(Seq::filter);
    if s.len() > 0 {
        let rest = s.drop_last();
        let a = chosen(rest, p);
        let b = chosen(s, p);
        if p(s.last()) {
            assert(b =~= a.push(s.last().id));
        } else {
            assert(b =~= a);
        }
        let i = choose|i: int| 0 <= i < b.len() && b[i] == id;
        if i < a.len() {
            assert(a[i] == id);
            lemma_chosen_from(rest, p, id);
            let k = choose|k: int| 0 <= k < rest.len() && (#[trigger] rest[k]).id == id && p(rest[k]);
            assert(s[k] == rest[k]);
        } else {
            assert(s[s.len() - 1].id == id);
        }
    } else {
        assert(chosen(s, p) =~= seq![]);
    }
}

/// To select a tab concerns one client alone: no window and no other client
/// changes, and nobody else is told or sent anything.
pub proof fn law_select_concerns_one_client(h: HubModel, client: u64, ws: u64, idx: usize)
    requires
        distinct_clients(h.clients),
    ensures
        ({
            let r = h.tab_op(client, ws, TabOp::Select { idx });
            &&& r.hub.feeders == h.feeders
            &&& r.hub.rings == h.rings
            &&& r.hub.clients.len() == h.clients.len()
            &&& forall|j: int|
                0 <= j < h.clients.len() && h.clients[j].id != client ==> #[trigger] r.hub.clients[j]
                    == h.clients[j]
            &&& forall|k: int|
                0 <= k < r.acts.len() ==> match #[trigger] r.acts[k] {
                    Act::Tell { client: c, .. } => c == client,
                    Act::Replay { client: c, .. } => c == client,
                    _ => false,
                }
        }),
{
    lemma_client_at(h.clients, client);
    if h.feeders.len() > 0 {
        if let Some(k) = feeder_for_ws(h.feeders, ws) {
            let f = h.feeders[k];
            if idx < f.tabs.len() {
                let m = h.moved_to(client, f.id);
                lemma_moved(h, client, f.id);
                lemma_pointed(m, client, f.ws, f.tabs[idx as int].id, false);
            }
        }
    }
}

/// What becomes of the clients when one watches another window.
pub proof fn lemma_moved(h: HubModel, client: u64, feeder: u64)
    requires
        distinct_clients(h.clients),
    ensures
        ({
            let m = h.moved_to(client, feeder);
            &&& m == (HubModel { clients: m.clients, ..h })
            &&& m.clients.len() == h.clients.len()
            &&& forall|j: int|
                0 <= j < h.clients.len() ==> #[trigger] m.clients[j] == (if h.clients[j].id
                    == client {
                    ClientModel { feeder: Some(feeder), ..h.clients[j] }
                } else {
                    h.clients[j]
                })
            &&& distinct_clients(m.clients)
        }),
{
    lemma_client_at(h.clients, client);
    let m = h.moved_to(client, feeder);
    assert forall|i: int, j: int| 0 <= i < j < m.clients.len() implies (#[trigger] m.clients[i]).id
        != (#[trigger] m.clients[j]).id by {
        assert(h.clients[i].id != h.clients[j].id);
    }
}

/// A client that has selected a tab is shown it until it says otherwise: the
/// selection takes effect where the tab is there, and the focus of the window
/// moving does not move the client.
pub proof fn law_selected_tab_stays(
    h: HubModel,
    client: u64,
    ws: u64,
    idx: usize,
    feeder: u64,
    focus_ws: u64,
    focus: u64,
    j: int,
)
    requires
        distinct_clients(h.clients),
        0 <= j < h.clients.len(),
        h.clients[j].id == client,
        h.clients[j].live,
        feeder_for_ws(h.feeders, ws) is Some,
        idx < h.feeders[feeder_for_ws(h.feeders, ws)->0].tabs.len(),
    ensures
        ({
            let f = h.feeders[feeder_for_ws(h.feeders, ws)->0];
            let selected = h.tab_op(client, ws, TabOp::Select { idx }).hub;
            let moved = selected.focus_moved(feeder, focus_ws, focus).hub;
            &&& selected.clients[j].viewed == (f.ws, f.tabs[idx as int].id)
            &&& selected.clients[j].feeder == Some(f.id)
            &&& moved.clients[j] == selected.clients[j]
        }),
{
    let k = feeder_for_ws(h.feeders, ws)->0;
    lemma_first_where_is(h.feeders, |f: FeederModel| f.ws == ws);
    let f = h.feeders[k];
    lemma_moved(h, client, f.id);
    let m = h.moved_to(client, f.id);
    lemma_pointed(m, client, f.ws, f.tabs[idx as int].id, false);
    let selected = h.tab_op(client, ws, TabOp::Select { idx }).hub;
    assert(m.clients[j].id == client);
    assert(!selected.clients[j].follow);
    law_focus_moves_followers_only(selected, feeder, focus_ws, focus);
}

/// When the focus of a window moves, the live clients that follow it are shown
/// the new tab, and no other client changes.
pub proof fn law_focus_moves_followers_only(h: HubModel, feeder: u64, ws: u64, tab: u64)
    requires
        distinct_clients(h.clients),
    ensures
        ({
            let r = h.focus_moved(feeder, ws, tab).hub;
            &&& r.clients.len() == h.clients.len()
            &&& r.rings == h.rings
            &&& forall|j: int|
                0 <= j < h.clients.len() ==> #[trigger] r.clients[j] == (if feeder_at(
                    h.feeders,
                    feeder,
                ) is Some && follows(feeder)(h.clients[j]) {
                    ClientModel { viewed: (ws, tab), ..h.clients[j] }
                } else {
                    h.clients[j]
                })
        }),
{
    if let Some(k) = feeder_at(h.feeders, feeder) {
        let f = h.feeders[k];
        let told = h.with_feeder(
            k,
            FeederModel {
                ws,
                focus: tab,
                active: match tab_at(f.tabs, tab) {
                    Some(i) => i,
                    None => f.active,
                },
                ..f
            },
        );
        let ids = chosen(told.clients, follows(feeder));
        lemma_chosen(told.clients, follows(feeder));
        lemma_pointed_all(told, ids, ids.len() as int, ws, tab);
        assert(ids.take(ids.len() as int) =~= ids);
    }
}

/// Output of a tab reaches each client that is shown the tab, once and whole,
/// and no other.
pub proof fn law_output_reaches_viewers_only(h: HubModel, ws: u64, tab: u64, bytes: Seq<u8>)
    ensures
        ({
            let r = h.output(ws, tab, bytes).hub;
            &&& r.clients.len() == h.clients.len()
            &&& r.feeders == h.feeders
            &&& forall|j: int|
                0 <= j < h.clients.len() ==> #[trigger] r.clients[j] == (if sees(ws, tab)(
                    h.clients[j],
                ) {
                    ClientModel {
                        queue: h.clients[j].queue.push(Parcel::Bytes(bytes)),
                        ..h.clients[j]
                    }
                } else {
                    h.clients[j]
                })
        }),
{
}

/// The client after its window is gone.
pub open spec fn rescued_client(h: HubModel, c: ClientModel) -> ClientModel {
    let freed = ClientModel { feeder: h.anchor, follow: true, ..c };
    match h.anchor {
        None => freed,
        Some(a) => {
            let (ws, tab) = match feeder_at(h.feeders, a) {
                Some(i) => (h.feeders[i].ws, h.feeders[i].focus),
                None => (0u64, 0u64),
            };
            shown(freed, ws, tab, true)
        },
    }
}

proof fn lemma_rescued(h: HubModel, id: u64)
    requires
        distinct_clients(h.clients),
    ensures
        ({
            let r = h.rescued(id).hub;
            &&& r == (HubModel { clients: r.clients, ..h })
            &&& r.clients.len() == h.clients.len()
            &&& forall|j: int|
                0 <= j < h.clients.len() ==> #[trigger] r.clients[j] == (if h.clients[j].id == id {
                    rescued_client(h, h.clients[j])
                } else {
                    h.clients[j]
                })
            &&& distinct_clients(r.clients)
        }),
{
    lemma_client_at(h.clients, id);
    let freed = match client_at(h.clients, id) {
        Some(i) => h.with_client(
            i,
            ClientModel { feeder: h.anchor, follow: true, ..h.clients[i] },
        ),
        None => h,
    };
    assert forall|i: int, j: int| 0 <= i < j < freed.clients.len() implies (
    #[trigger] freed.clients[i]).id != (#[trigger] freed.clients[j]).id by {
        assert(h.clients[i].id != h.clients[j].id);
    }
    if let Some(a) = h.anchor {
        let (ws, tab) = match feeder_at(h.feeders, a) {
            Some(i) => (h.feeders[i].ws, h.feeders[i].focus),
            None => (0u64, 0u64),
        };
        lemma_pointed(freed, id, ws, tab, true);
        let r = h.rescued(id).hub;
        assert forall|j: int| 0 <= j < h.clients.len() implies #[trigger] r.clients[j] == (
        if h.clients[j].id == id {
            rescued_client(h, h.clients[j])
        } else {
            h.clients[j]
        }) by {
            assert(freed.clients[j].id == h.clients[j].id);
        }
    }
}

/// What becomes of the clients whose window is gone.
pub proof fn lemma_rescued_all(h: HubModel, ids: Seq<u64>, n: int)
    requires
        distinct_clients(h.clients),
        0 <= n <= ids.len(),
        ids.no_duplicates(),
    ensures
        ({
            let r = h.rescued_all(ids, n).hub;
            &&& r == (HubModel { clients: r.clients, ..h })
            &&& r.clients.len() == h.clients.len()
            &&& forall|j: int|
                0 <= j < h.clients.len() ==> #[trigger] r.clients[j] == (if ids.take(n).contains(
                    h.clients[j].id,
                ) {
                    rescued_client(h, h.clients[j])
                } else {
                    h.clients[j]
                })
            &&& distinct_clients(r.clients)
        }),
    decreases n,
{
    if n > 0 {
        lemma_rescued_all(h, ids, n - 1);
        let prev = h.rescued_all(ids, n - 1).hub;
        lemma_rescued(prev, ids[n - 1]);
        let r = h.rescued_all(ids, n).hub;
        assert forall|j: int| 0 <= j < h.clients.len() implies #[trigger] r.clients[j] == (
        if ids.take(n).contains(h.clients[j].id) {
            rescued_client(h, h.clients[j])
        } else {
            h.clients[j]
        }) by {
            let id = h.clients[j].id;
            assert(prev.clients[j].id == id);
            if ids.take(n - 1).contains(id) {
                let k = choose|k: int| 0 <= k < n - 1 && #[trigger] ids.take(n - 1)[k] == id;
                assert(ids.take(n)[k] == id);
                assert(ids[k] != ids[n - 1]);
            }
            if ids[n - 1] == id {
                assert(ids.take(n)[n - 1] == id);
            }
            if ids.take(n).contains(id) {
                let k = choose|k: int| 0 <= k < n && #[trigger] ids.take(n)[k] == id;
                if k < n - 1 {
                    assert(ids.take(n - 1)[k] == id);
                }
            }
        }
    } else {
        assert(ids.take(n) =~= seq![]);
    }
}

/// No number is chosen twice.
pub proof fn lemma_chosen_once(s: Seq<ClientModel>, p: spec_fn(ClientModel) -> bool)
    requires
        distinct_clients(s),
    ensures
        chosen(s, p).no_duplicates(),
    decreases s.len(),
{
    reveal(Seq::filter);
    if s.len() > 0 {
        let rest = s.drop_last();
        lemma_chosen_once(rest, p);
        let a = chosen(rest, p);
        let b = chosen(s, p);
        if p(s.last()) {
            assert(b =~= a.push(s.last().id));
            if a.contains(s.last().id) {
                lemma_chosen_from(rest, p, s.last().id);
                let k = choose|k: int| 0 <= k < rest.len() && (#[trigger] rest[k]).id == s.last().id;
                assert(s[k].id != s[s.len() - 1].id);
            }
            assert forall|i: int, j: int| 0 <= i < b.len() && 0 <= j < b.len() && i != j implies b[i]
                != b[j] by {
                if i < a.len() && j < a.len() {
                    assert(a[i] != a[j]);
                } else if i < a.len() {
                    assert(a.contains(a[i]));
                } else {
                    assert(a.contains(a[j]));
                }
            }
        } else {
            assert(b =~= a);
        }
    }
}

proof fn lemma_oldest(s: Seq<FeederModel>)
    ensures
        match oldest(s) {
            Some(i) => 0 <= i < s.len(),
            None => s.len() == 0,
        },
    decreases s.len(),
{
    if s.len() > 0 {
        lemma_oldest(s.drop_last());
    }
}

/// What is left of the windows when one is gone.
pub proof fn lemma_removed_feeder(s: Seq<FeederModel>, k: int)
    requires
        distinct_feeders(s),
        0 <= k < s.len(),
    ensures
        distinct_feeders(s.remove(k)),
        feeder_at(s.remove(k), s[k].id) is None,
        forall|id: u64|
            id != s[k].id && feeder_at(s, id) is Some ==> #[trigger] feeder_at(
                s.remove(k),
                id,
            ) is Some,
{
    let t = s.remove(k);
    let from = |i: int| if i < k {
        i
    } else {
        i + 1
    };
    assert forall|i: int| 0 <= i < t.len() implies #[trigger] t[i] == s[from(i)] by {}
    assert forall|i: int, j: int| 0 <= i < j < t.len() implies (#[trigger] t[i]).id != (
    #[trigger] t[j]).id by {
        assert(t[i] == s[from(i)] && t[j] == s[from(j)]);
    }
    lemma_feeder_at(t, s[k].id);
    if let Some(i) = feeder_at(t, s[k].id) {
        assert(t[i] == s[from(i)]);
        if from(i) < k {
            assert(s[from(i)].id != s[k].id);
        } else {
            assert(s[k].id != s[from(i)].id);
        }
    }
    assert forall|id: u64| id != s[k].id && feeder_at(s, id) is Some implies #[trigger] feeder_at(
        t,
        id,
    ) is Some by {
        lemma_feeder_at(s, id);
        let j = feeder_at(s, id)->0;
        let i = if j < k {
            j
        } else {
            j - 1
        };
        assert(t[i] == s[j]);
        lemma_has_feeder(t, i);
    }
}

/// Once a window is gone nothing is left of it: no client watches it, nothing
/// is remembered of its tabs, and the daemon is consistent again, with an
/// anchor as long as any window is left. The daemon ends with the last one,
/// and not before.
pub proof fn law_gone_window_leaves_nothing(h: HubModel, k: int)
    requires
        consistent(h),
        0 <= k < h.feeders.len(),
    ensures
        ({
            let f = h.feeders[k];
            let step = h.feeder_gone(f.id);
            let r = step.hub;
            &&& consistent(r)
            &&& r.feeders == h.feeders.remove(k)
            &&& feeder_at(r.feeders, f.id) is None
            &&& forall|j: int|
                0 <= j < r.clients.len() ==> (#[trigger] r.clients[j]).feeder != Some(f.id)
            &&& forall|j: int| 0 <= j < r.rings.len() ==> (#[trigger] r.rings[j]).ws != f.ws
            &&& r.clients.len() == h.clients.len()
            &&& (step.acts.last() == Act::Stop) == (h.session is None && h.feeders.len() == 1)
        }),
{
    let f = h.feeders[k];
    let p = |x: FeederModel| x.id == f.id;
    assert forall|j: int| 0 <= j < k implies !p(#[trigger] h.feeders[j]) by {
        assert(h.feeders[j].id != h.feeders[k].id);
    }
    lemma_first_where(h.feeders, p, k);
    assert(feeder_at(h.feeders, f.id) == Some(k));
    let left = h.without_feeder(k);
    lemma_removed_feeder(h.feeders, k);
    lemma_oldest(left.feeders);
    if h.anchor == Some(f.id) {
        if let Some(i) = oldest(left.feeders) {
            lemma_has_feeder(left.feeders, i);
        }
    }
    let ids = chosen(left.clients, watches(f.id));
    lemma_chosen(left.clients, watches(f.id));
    lemma_chosen_once(left.clients, watches(f.id));
    lemma_rescued_all(left, ids, ids.len() as int);
    assert(ids.take(ids.len() as int) =~= ids);
    let r = h.feeder_gone(f.id).hub;
    assert forall|j: int| 0 <= j < r.clients.len() implies (#[trigger] r.clients[j]).feeder
        != Some(f.id) by {
        if watches(f.id)(h.clients[j]) {
            assert(r.clients[j].feeder == left.anchor);
        }
    }
    assert forall|j: int| 0 <= j < r.clients.len() implies match (#[trigger] r.clients[j]).feeder {
        Some(g) => feeder_at(r.feeders, g) is Some,
        None => true,
    } by {
        if watches(f.id)(h.clients[j]) {
            assert(r.clients[j].feeder == left.anchor);
        } else {
            assert(r.clients[j] == h.clients[j]);
        }
    }
    lemma_filtered(h.rings, |x: RingModel| x.ws != f.ws);
    assert forall|j: int| 0 <= j < r.rings.len() implies (#[trigger] r.rings[j]).ws != f.ws by {
        assert((|x: RingModel| x.ws != f.ws)(r.rings[j]));
    }
}

proof fn lemma_filtered<A>(s: Seq<A>, p: spec_fn(A) -> bool)
    ensures
        forall|j: int| 0 <= j < s.filter(p).len() ==> p(#[trigger] s.filter(p)[j]),
    decreases s.len(),
{
    reveal(Seq::filter);
    if s.len() > 0 {
        lemma_filtered(s.drop_last(), p);
    }
}

/// A window that connects becomes the anchor where there is none, every live
/// client without a window watches it, and the daemon stays consistent.
pub proof fn law_window_comes(h: HubModel, created: u64)
    requires
        consistent(h),
        feeder_at(h.feeders, h.next_feeder) is None,
    ensures
        ({
            let r = h.feeder_came(created).hub;
            &&& consistent(r)
            &&& r.anchor == (if h.anchor is None {
                Some(h.next_feeder)
            } else {
                h.anchor
            })
            &&& forall|j: int|
                0 <= j < r.clients.len() && (#[trigger] r.clients[j]).live
                    ==> r.clients[j].feeder is Some
        }),
{
    let r = h.feeder_came(created).hub;
    lemma_feeder_at(h.feeders, h.next_feeder);
    assert forall|i: int, j: int| 0 <= i < j < r.feeders.len() implies (#[trigger] r.feeders[i]).id
        != (#[trigger] r.feeders[j]).id by {
        if j < h.feeders.len() {
            assert(h.feeders[i].id != h.feeders[j].id);
        } else {
            assert(r.feeders[i] == h.feeders[i]);
        }
    }
    assert forall|id: u64| feeder_at(h.feeders, id) is Some implies #[trigger] feeder_at(
        r.feeders,
        id,
    ) is Some by {
        lemma_feeder_at(h.feeders, id);
        let i = feeder_at(h.feeders, id)->0;
        assert(r.feeders[i] == h.feeders[i]);
        lemma_has_feeder(r.feeders, i);
    }
    assert(r.feeders[h.feeders.len() as int].id == h.next_feeder);
    lemma_has_feeder(r.feeders, h.feeders.len() as int);
    assert forall|i: int, j: int| 0 <= i < j < r.clients.len() implies (#[trigger] r.clients[i]).id
        != (#[trigger] r.clients[j]).id by {
        assert(h.clients[i].id != h.clients[j].id);
    }
    assert forall|j: int| 0 <= j < r.clients.len() implies match (#[trigger] r.clients[j]).feeder {
        Some(g) => feeder_at(r.feeders, g) is Some,
        None => true,
    } by {
        if let Some(g) = h.clients[j].feeder {
            assert(feeder_at(h.feeders, g) is Some);
        }
    }
}

/// No more clients are connected than are admitted, whatever else happens.
pub proof fn law_clients_are_few(
    h: HubModel,
    feeder: u64,
    client: u64,
    ws: u64,
    tab: u64,
    bytes: Seq<u8>,
    op: TabOp,
    created: u64,
    active: int,
    tabs: Seq<TabItem>,
)
    requires
        distinct_clients(h.clients),
        h.clients.len() <= MAX_WS_CONNS,
        0 <= active,
    ensures
        h.focus_moved(feeder, ws, tab).hub.clients.len() <= MAX_WS_CONNS,
        h.tabs_told(feeder, ws, active, tabs).hub.clients.len() <= MAX_WS_CONNS,
        h.output(ws, tab, bytes).hub.clients.len() <= MAX_WS_CONNS,
        h.tab_op(client, ws, op).hub.clients.len() <= MAX_WS_CONNS,
        h.feeder_came(created).hub.clients.len() <= MAX_WS_CONNS,
        h.without_client(client).clients.len() <= MAX_WS_CONNS,
        h.clients.len() < MAX_WS_CONNS ==> h.admitted(created).clients.len() <= MAX_WS_CONNS,
{
    law_focus_moves_followers_only(h, feeder, ws, tab);
    if let TabOp::Select { idx } = op {
        law_select_concerns_one_client(h, client, ws, idx);
    }
    lemma_client_at(h.clients, client);
    let rel = h.released(client, false);
    assert(rel.clients.len() == h.clients.len());
    lemma_first_where_is(rel.clients, |c: ClientModel| c.id == client);
    if let Some(k) = feeder_at(h.feeders, feeder) {
        lemma_feeder_at(h.feeders, feeder);
        let f = h.feeders[k];
        let at = if active < tabs.len() {
            active
        } else if tabs.len() > 0 {
            tabs.len() - 1
        } else {
            0
        };
        let focus = if at < tabs.len() {
            tabs[at].id
        } else {
            f.focus
        };
        let told = h.with_tabs(k, ws, at, focus, tabs);
        let ids = chosen(told.clients, stranded(feeder, tabs));
        lemma_pointed_all(told, ids, ids.len() as int, ws, focus);
        let next = told.pointed_all(ids, ids.len() as int, ws, focus).hub;
        let quiet = next.with_feeder(
            feeder_at(next.feeders, feeder)->0,
            FeederModel { awaiting: None, ..next.feeders[feeder_at(next.feeders, feeder)->0] },
        );
        if let Some(c) = next.feeders[feeder_at(next.feeders, feeder)->0].awaiting {
            lemma_moved(quiet, c, feeder);
            let m = quiet.moved_to(c, feeder);
            lemma_pointed(m, c, ws, focus, false);
            if let Some(i) = first_new(tabs, f.tabs) {
                lemma_pointed(m, c, ws, tabs[i].id, false);
            }
        }
    }
}

/// The bytes of the frames, in order.
pub open spec fn payloads(pieces: Seq<Seq<u8>>) -> Seq<u8>
    decreases pieces.len(),
{
    if pieces.len() == 0 {
        seq![]
    } else {
        pieces[0] + payloads(pieces.skip(1))
    }
}

/// The pieces in which input is sent to a window.
pub open spec fn pieces(bytes: Seq<u8>) -> Seq<Seq<u8>>
    decreases bytes.len(),
{
    if bytes.len() == 0 {
        seq![]
    } else {
        let n = if bytes.len() < FED_INPUT_CHUNK {
            bytes.len() as int
        } else {
            FED_INPUT_CHUNK as int
        };
        seq![bytes.take(n)] + pieces(bytes.skip(n))
    }
}

/// Input goes to a window whole and in order, in frames none of which is
/// empty or too long.
pub proof fn law_input_in_pieces(feeder: u64, ws: u64, tab: u64, bytes: Seq<u8>)
    ensures
        input_frames(feeder, ws, tab, bytes) == pieces(bytes).map_values(
            |p: Seq<u8>|
                Act::ToFeeder {
                    feeder,
                    frame: encoded(
                        Frame { kind: FrameKind::Input, ws_id: ws, tab_id: tab, payload: p },
                    ),
                },
        ),
        payloads(pieces(bytes)) == bytes,
        forall|i: int|
            0 <= i < pieces(bytes).len() ==> 0 < (#[trigger] pieces(bytes)[i]).len()
                <= FED_INPUT_CHUNK,
    decreases bytes.len(),
{
    let f = |p: Seq<u8>|
        Act::ToFeeder {
            feeder,
            frame: encoded(Frame { kind: FrameKind::Input, ws_id: ws, tab_id: tab, payload: p }),
        };
    if bytes.len() == 0 {
        assert(pieces(bytes).map_values(f) =~= seq![]);
        assert(payloads(pieces(bytes)) =~= bytes);
    } else {
        let n = if bytes.len() < FED_INPUT_CHUNK {
            bytes.len() as int
        } else {
            FED_INPUT_CHUNK as int
        };
        let rest = bytes.skip(n);
        law_input_in_pieces(feeder, ws, tab, rest);
        assert(pieces(bytes).skip(1) =~= pieces(rest));
        assert(pieces(bytes)[0] == bytes.take(n));
        assert(bytes.take(n) + rest =~= bytes);
        assert(pieces(bytes).map_values(f) =~= seq![f(bytes.take(n))] + pieces(rest).map_values(f));
        assert forall|i: int| 0 <= i < pieces(bytes).len() implies 0 < (
        #[trigger] pieces(bytes)[i]).len() <= FED_INPUT_CHUNK by {
            if i > 0 {
                assert(pieces(bytes)[i] == pieces(rest)[i - 1]);
            }
        }
    }
}

proof fn lemma_feeder_updated(s: Seq<FeederModel>, k: int, f: FeederModel)
    requires
        0 <= k < s.len(),
        feeder_at(s, s[k].id) == Some(k),
        f.id == s[k].id,
    ensures
        feeder_at(s.update(k, f), f.id) == Some(k),
{
    let p = |x: FeederModel| x.id == f.id;
    lemma_first_where_is(s, p);
    let t = s.update(k, f);
    assert forall|j: int| 0 <= j < k implies !p(#[trigger] t[j]) by {
        assert(t[j] == s[j]);
    }
    lemma_first_where(t, p, k);
}

/// A client that asked for a new tab is shown it once the window lists it with
/// the focus on it, and stays there.
pub proof fn law_new_tab_is_shown(
    h: HubModel,
    client: u64,
    j: int,
    k: int,
    ws: u64,
    active: int,
    tabs: Seq<TabItem>,
)
    requires
        consistent(h),
        0 <= j < h.clients.len(),
        h.clients[j].id == client,
        h.clients[j].live,
        0 <= k < h.feeders.len(),
        h.feeders[k].ws == ws,
        feeder_for_ws(h.feeders, ws) == Some(k),
        feeder_at(h.feeders, h.feeders[k].id) == Some(k),
        0 <= active < tabs.len(),
        tab_at(h.feeders[k].tabs, tabs[active].id) is None,
    ensures
        ({
            let feeder = h.feeders[k].id;
            let asked = h.tab_op(client, ws, TabOp::New);
            let told = asked.hub.tabs_told(feeder, ws, active, tabs).hub;
            &&& asked.acts == h.forwarded(feeder, FeedTabOp::New)
            &&& told.clients[j].viewed == (ws, tabs[active].id)
            &&& !told.clients[j].follow
            &&& told.clients[j].feeder == Some(feeder)
        }),
{
    let feeder = h.feeders[k].id;
    let asked = h.tab_op(client, ws, TabOp::New).hub;
    assert(asked.feeders == h.feeders.update(
        k,
        FeederModel { awaiting: Some(client), ..h.feeders[k] },
    ));
    lemma_feeder_updated(
        h.feeders,
        k,
        FeederModel { awaiting: Some(client), ..h.feeders[k] },
    );
    let f = asked.feeders[k];
    let focus = tabs[active].id;
    let told = asked.with_tabs(k, ws, active, focus, tabs);
    lemma_feeder_updated(
        asked.feeders,
        k,
        FeederModel { ws, tabs, active, focus, ..f },
    );
    let ids = chosen(told.clients, stranded(feeder, tabs));
    lemma_pointed_all(told, ids, ids.len() as int, ws, focus);
    let shown_hub = told.pointed_all(ids, ids.len() as int, ws, focus).hub;
    assert(shown_hub.clients[j].id == client && shown_hub.clients[j].live);
    assert(feeder_at(shown_hub.feeders, feeder) == Some(k));
    assert(shown_hub.feeders[k].awaiting == Some(client));
    let quiet = shown_hub.with_feeder(
        k,
        FeederModel { awaiting: None, ..shown_hub.feeders[k] },
    );
    assert(quiet.clients == shown_hub.clients);
    lemma_moved(quiet, client, feeder);
    let m = quiet.moved_to(client, feeder);
    assert(m.clients[j].id == client && m.clients[j].live);
    lemma_pointed(m, client, ws, focus, false);
}

/// The windows, the anchor and the clients are the same, in the same order; a
/// client may watch another of the windows, or none.
spec fn same_people(h: HubModel, r: HubModel) -> bool {
    &&& r.anchor == h.anchor
    &&& r.feeders.len() == h.feeders.len()
    &&& forall|i: int|
        0 <= i < h.feeders.len() ==> (#[trigger] r.feeders[i]).id == (#[trigger] h.feeders[i]).id
    &&& r.clients.len() == h.clients.len()
    &&& forall|j: int|
        0 <= j < h.clients.len() ==> {
            &&& (#[trigger] r.clients[j]).id == (#[trigger] h.clients[j]).id
            &&& r.clients[j].feeder == h.clients[j].feeder || match r.clients[j].feeder {
                Some(f) => feeder_at(h.feeders, f) is Some,
                None => true,
            }
        }
}

proof fn lemma_same_people(h: HubModel, r: HubModel)
    requires
        consistent(h),
        same_people(h, r),
    ensures
        consistent(r),
{
    assert forall|id: u64| feeder_at(h.feeders, id) is Some implies #[trigger] feeder_at(
        r.feeders,
        id,
    ) is Some by {
        lemma_feeder_at(h.feeders, id);
        let i = feeder_at(h.feeders, id)->0;
        assert(r.feeders[i].id == h.feeders[i].id);
        lemma_has_feeder(r.feeders, i);
    }
    assert forall|i: int, j: int| 0 <= i < j < r.feeders.len() implies (#[trigger] r.feeders[i]).id
        != (#[trigger] r.feeders[j]).id by {
        assert(h.feeders[i].id != h.feeders[j].id);
    }
    assert forall|i: int, j: int| 0 <= i < j < r.clients.len() implies (#[trigger] r.clients[i]).id
        != (#[trigger] r.clients[j]).id by {
        assert(h.clients[i].id != h.clients[j].id);
    }
    assert forall|j: int| 0 <= j < r.clients.len() implies match (#[trigger] r.clients[j]).feeder {
        Some(f) => feeder_at(r.feeders, f) is Some,
        None => true,
    } by {
        assert(r.clients[j].id == h.clients[j].id);
        if let Some(f) = r.clients[j].feeder {
            assert(feeder_at(h.feeders, f) is Some);
        }
    }
}

proof fn lemma_focus_keeps_people(h: HubModel, feeder: u64, ws: u64, tab: u64)
    requires
        consistent(h),
    ensures
        same_people(h, h.focus_moved(feeder, ws, tab).hub),
{
    lemma_feeder_at(h.feeders, feeder);
    law_focus_moves_followers_only(h, feeder, ws, tab);
    if let Some(k) = feeder_at(h.feeders, feeder) {
        let f = h.feeders[k];
        let told = h.with_feeder(
            k,
            FeederModel {
                ws,
                focus: tab,
                active: match tab_at(f.tabs, tab) {
                    Some(i) => i,
                    None => f.active,
                },
                ..f
            },
        );
        let ids = chosen(told.clients, follows(feeder));
        lemma_pointed_all(told, ids, ids.len() as int, ws, tab);
    }
}

proof fn lemma_tabs_keep_people(
    h: HubModel,
    feeder: u64,
    ws: u64,
    active: int,
    tabs: Seq<TabItem>,
)
    requires
        consistent(h),
    ensures
        same_people(h, h.tabs_told(feeder, ws, active, tabs).hub),
{
    lemma_feeder_at(h.feeders, feeder);
    if let Some(k) = feeder_at(h.feeders, feeder) {
        let f = h.feeders[k];
        let at = if active < tabs.len() {
            active
        } else if tabs.len() > 0 {
            tabs.len() - 1
        } else {
            0
        };
        let focus = if at < tabs.len() {
            tabs[at].id
        } else {
            f.focus
        };
        let told = h.with_tabs(k, ws, at, focus, tabs);
        let ids = chosen(told.clients, stranded(feeder, tabs));
        lemma_pointed_all(told, ids, ids.len() as int, ws, focus);
        let next = told.pointed_all(ids, ids.len() as int, ws, focus).hub;
        assert(next.feeders == told.feeders);
        lemma_has_feeder(next.feeders, k);
        lemma_feeder_at(next.feeders, feeder);
        let n = feeder_at(next.feeders, feeder)->0;
        if let Some(c) = next.feeders[n].awaiting {
            let quiet = next.with_feeder(n, FeederModel { awaiting: None, ..next.feeders[n] });
            lemma_moved(quiet, c, feeder);
            let m = quiet.moved_to(c, feeder);
            lemma_pointed(m, c, ws, focus, false);
            if let Some(i) = first_new(tabs, f.tabs) {
                lemma_pointed(m, c, ws, tabs[i].id, false);
            }
        }
    }
}

proof fn lemma_op_keeps_people(h: HubModel, client: u64, ws: u64, op: TabOp)
    requires
        consistent(h),
    ensures
        same_people(h, h.tab_op(client, ws, op).hub),
{
    if h.feeders.len() > 0 {
        match op {
            TabOp::Select { idx } => {
                if let Some(k) = feeder_for_ws(h.feeders, ws) {
                    lemma_first_where_is(h.feeders, |f: FeederModel| f.ws == ws);
                    let f = h.feeders[k];
                    lemma_has_feeder(h.feeders, k);
                    lemma_moved(h, client, f.id);
                    if idx < f.tabs.len() {
                        lemma_pointed(
                            h.moved_to(client, f.id),
                            client,
                            f.ws,
                            f.tabs[idx as int].id,
                            false,
                        );
                    }
                }
            },
            TabOp::New => {
                if let Some(t) = h.new_tab_target(client, ws) {
                    lemma_feeder_at(h.feeders, t);
                }
            },
            _ => {},
        }
    }
}

/// A daemon starts consistent: without windows and clients it is.
pub proof fn law_starts_consistent(h: HubModel)
    requires
        h.feeders.len() == 0,
        h.clients.len() == 0,
        h.anchor is None,
    ensures
        consistent(h),
{
}

/// A daemon stays consistent whatever a window or a client says, and when a
/// client connects, becomes live or is gone.
pub proof fn law_stays_consistent(
    h: HubModel,
    feeder: u64,
    frame: Frame,
    client: u64,
    msg: ClientMsg,
    next: HubModel,
    now: u64,
)
    requires
        consistent(h),
    ensures
        consistent(h.frame_came(feeder, frame).hub),
        h.told(client, msg, next) ==> consistent(next),
        consistent(h.went_live(client).hub),
        consistent(h.without_client(client)),
        client_at(h.clients, h.next_client) is None ==> consistent(h.admitted(now)),
{
    lemma_feeder_at(h.feeders, feeder);
    lemma_client_at(h.clients, client);
    lemma_client_at(h.clients, h.next_client);
    lemma_focus_keeps_people(h, feeder, frame.ws_id, frame.tab_id);
    if let Some((active, es)) = tab_list(frame.payload) {
        lemma_tabs_keep_people(h, feeder, frame.ws_id, active, listed(es));
    }
    lemma_same_people(h, h.frame_came(feeder, frame).hub);
    if h.told(client, msg, next) {
        if let ClientMsg::TabOp { workspace_id, op } = msg {
            lemma_op_keeps_people(h, client, workspace_id, op);
        }
        lemma_same_people(h, next);
    }
    lemma_same_people(h, h.went_live(client).hub);
    let rel = h.released(client, false);
    lemma_same_people(h, rel);
    lemma_client_at(rel.clients, client);
    if let Some(i) = client_at(rel.clients, client) {
        let left = rel.clients.remove(i);
        assert forall|a: int, b: int| 0 <= a < b < left.len() implies (#[trigger] left[a]).id != (
        #[trigger] left[b]).id by {
            let x = if a < i {
                a
            } else {
                a + 1
            };
            let y = if b < i {
                b
            } else {
                b + 1
            };
            assert(left[a] == rel.clients[x] && left[b] == rel.clients[y]);
        }
        assert forall|j: int| 0 <= j < left.len() implies match (#[trigger] left[j]).feeder {
            Some(f) => feeder_at(rel.feeders, f) is Some,
            None => true,
        } by {
            assert(left[j] == rel.clients[if j < i {
                j
            } else {
                j + 1
            }]);
        }
    }
}

/// A client lets go once: to say so again, or to be gone after that, lets go
/// of nothing more.
pub proof fn law_lets_go_once(h: HubModel, client: u64, first: bool, second: bool)
    requires
        distinct_clients(h.clients),
    ensures
        h.released(client, first).released(client, second) == h.released(client, first),
        h.released(client, first).without_client(client).session == h.released(
            client,
            first,
        ).session,
{
    lemma_client_at(h.clients, client);
    let once = h.released(client, first);
    if let Some(i) = client_at(h.clients, client) {
        lemma_same_clients(h, once);
        lemma_client_at(once.clients, client);
        assert(once.clients[i].id == client);
        assert(once.released(client, second).clients =~= once.clients);
        assert(once.released(client, false).clients =~= once.clients);
    }
}

proof fn lemma_same_clients(h: HubModel, r: HubModel)
    requires
        distinct_clients(h.clients),
        r.clients.len() == h.clients.len(),
        forall|j: int|
            0 <= j < h.clients.len() ==> (#[trigger] r.clients[j]).id == (
            #[trigger] h.clients[j]).id,
    ensures
        distinct_clients(r.clients),
{
    assert forall|i: int, j: int| 0 <= i < j < r.clients.len() implies (#[trigger] r.clients[i]).id
        != (#[trigger] r.clients[j]).id by {
        assert(h.clients[i].id != h.clients[j].id);
    }
}

/// After the first `n` pieces of output of a tab.
pub open spec fn after_outputs(h: HubModel, ws: u64, tab: u64, all: Seq<Seq<u8>>, n: int) -> HubModel
    decreases n,
{
    if n <= 0 {
        h
    } else {
        after_outputs(h, ws, tab, all, n - 1).output(ws, tab, all[n - 1]).hub
    }
}

/// The first `n` pieces of output, put together.
pub open spec fn put_together(all: Seq<Seq<u8>>, n: int) -> Seq<u8>
    decreases n,
{
    if n <= 0 {
        seq![]
    } else {
        put_together(all, n - 1) + all[n - 1]
    }
}

proof fn lemma_memory_after_output(h: HubModel, ws: u64, tab: u64, bytes: Seq<u8>)
    ensures
        h.output(ws, tab, bytes).hub.memory(ws, tab) == last_n(
            h.memory(ws, tab) + bytes,
            BYTE_RING_CAP as nat,
        ),
{
    let p = |r: RingModel| r.ws == ws && r.tab == tab;
    lemma_first_where_is(h.rings, p);
    let after = h.remembering(ws, tab, bytes);
    match ring_at(h.rings, ws, tab) {
        Some(i) => {
            assert(p(h.rings[i]));
            lemma_first_where(after, p, i);
        },
        None => {
            lemma_first_where(after, p, h.rings.len() as int);
            assert(seq![] + bytes =~= bytes);
        },
    }
}

/// A client that becomes live misses nothing of its tab and gets nothing
/// twice: it is sent what is remembered, and each piece of output that follows
/// is queued for it once and in order. Whoever becomes live after that is sent
/// the end of the same stream.
pub proof fn law_replay_then_live(h: HubModel, j: int, all: Seq<Seq<u8>>, n: int)
    requires
        distinct_clients(h.clients),
        0 <= j < h.clients.len(),
        0 <= n <= all.len(),
        h.memory(h.first_view().1, h.first_view().2).len() <= BYTE_RING_CAP,
    ensures
        ({
            let client = h.clients[j].id;
            let (feeder, ws, tab) = h.first_view();
            let step = h.went_live(client);
            let r = after_outputs(step.hub, ws, tab, all, n);
            &&& h.memory(ws, tab).len() > 0 ==> step.acts.last() == (Act::Replay {
                client,
                bytes: h.memory(ws, tab),
            })
            &&& r.clients.len() == h.clients.len()
            &&& r.clients[j].id == client
            &&& r.clients[j].live && r.clients[j].viewed == (ws, tab)
            &&& r.clients[j].queue == h.clients[j].queue + all.take(n).map_values(
                |b: Seq<u8>| Parcel::Bytes(b),
            )
            &&& r.memory(ws, tab) == last_n(
                h.memory(ws, tab) + put_together(all, n),
                BYTE_RING_CAP as nat,
            )
        }),
    decreases n,
{
    let client = h.clients[j].id;
    let (feeder, ws, tab) = h.first_view();
    let step = h.went_live(client);
    lemma_client_at(h.clients, client);
    let parcel = |b: Seq<u8>| Parcel::Bytes(b);
    if n == 0 {
        assert(h.clients[j].queue + all.take(0).map_values(parcel) =~= h.clients[j].queue);
        assert(h.memory(ws, tab) + put_together(all, 0) =~= h.memory(ws, tab));
        assert(step.hub.rings == h.rings);
    } else {
        law_replay_then_live(h, j, all, n - 1);
        let before = after_outputs(step.hub, ws, tab, all, n - 1);
        let bytes = all[n - 1];
        lemma_memory_after_output(before, ws, tab, bytes);
        law_ring_pieces(
            h.memory(ws, tab),
            put_together(all, n - 1),
            bytes,
            BYTE_RING_CAP as nat,
        );
        assert(all.take(n) =~= all.take(n - 1).push(bytes));
        assert(all.take(n).map_values(parcel) =~= all.take(n - 1).map_values(parcel).push(
            parcel(bytes),
        ));
        assert((h.clients[j].queue + all.take(n - 1).map_values(parcel)).push(parcel(bytes))
            =~= h.clients[j].queue + all.take(n).map_values(parcel));
    }
}

} // verus!
