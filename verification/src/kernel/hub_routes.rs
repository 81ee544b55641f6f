//! Whom the daemon asks, shows and tells, in terms of its windows and clients.

use crate::kernel::feed::{encoded, tab_op_payload, FeedTabOp, Frame, FrameKind};
use crate::kernel::hub::{
    by_workspace, chosen, client_at, clogged, drops, feeder_at, feeder_for_ws, feeder_info,
    first_new, follows, input_frames, oldest, ring_at, stranded, tab_at, watches, ws_place, Act,
    ClientModel, FeederModel, HubModel, Msg, RingModel, TabItem, BYTE_RING_CAP, FED_INPUT_CHUNK,
    WS_CLIENT_OUT_CAP,
};
use crate::kernel::hub_laws::{
    consistent, distinct_clients, distinct_feeders, law_input_in_pieces, lemma_chosen,
    lemma_chosen_once, lemma_client_at, lemma_moved, lemma_pointed, lemma_pointed_all,
    lemma_removed_feeder, lemma_rescued_all, payloads, pieces,
};
use crate::kernel::le::{lemma_pow256, lemma_value_le, value};
use crate::kernel::proto::TabOp;
use crate::kernel::ring::{last_n, total_size, Parcel};
use crate::seqs::{lemma_first_where, lemma_first_where_is};
use vstd::prelude::*;

verus! {

/// The window at `k` is the one with this workspace, the first if there are
/// several.
pub open spec fn is_window_of(s: Seq<FeederModel>, ws: u64, k: int) -> bool {
    &&& 0 <= k < s.len()
    &&& s[k].ws == ws
    &&& forall|j: int| 0 <= j < k ==> (#[trigger] s[j]).ws != ws
}

/// No window has this workspace.
pub open spec fn is_nobodys(s: Seq<FeederModel>, ws: u64) -> bool {
    forall|j: int| 0 <= j < s.len() ==> (#[trigger] s[j]).ws != ws
}

proof fn lemma_window_of(s: Seq<FeederModel>, ws: u64, k: int)
    requires
        is_window_of(s, ws, k) || (k == s.len() && is_nobodys(s, ws)),
    ensures
        feeder_for_ws(s, ws) == (if k < s.len() {
            Some(k)
        } else {
            None
        }),
{
    let p = |f: FeederModel| f.ws == ws;
    assert forall|j: int| 0 <= j < k implies !p(#[trigger] s[j]) by {
        assert(s[j].ws != ws);
    }
    lemma_first_where(s, p, k);
}

proof fn lemma_window_numbered(s: Seq<FeederModel>, k: int)
    requires
        distinct_feeders(s),
        0 <= k < s.len(),
    ensures
        feeder_at(s, s[k].id) == Some(k),
{
    let p = |f: FeederModel| f.id == s[k].id;
    assert forall|j: int| 0 <= j < k implies !p(#[trigger] s[j]) by {
        assert(s[j].id != s[k].id);
    }
    lemma_first_where(s, p, k);
}

proof fn lemma_client_numbered(s: Seq<ClientModel>, j: int)
    requires
        distinct_clients(s),
        0 <= j < s.len(),
    ensures
        client_at(s, s[j].id) == Some(j),
{
    lemma_client_at(s, s[j].id);
}

/// A window is asked for an operation on tabs, of this workspace.
pub open spec fn asked(feeder: u64, ws: u64, tab: u64, op: FeedTabOp) -> Seq<Act> {
    seq![
        Act::ToFeeder {
            feeder,
            frame: encoded(
                Frame {
                    kind: FrameKind::TabOp,
                    ws_id: ws,
                    tab_id: tab,
                    payload: tab_op_payload(op),
                },
            ),
        },
    ]
}

/// An operation on tabs goes to the window whose workspace it names, whatever
/// window the client watches, and to no other: one frame, with that workspace
/// and what is to be done. Only of a new tab is anything noted: who asked.
pub proof fn law_operation_goes_to_its_window(
    h: HubModel,
    client: u64,
    ws: u64,
    k: int,
    tab_id: u64,
    origin: usize,
    target: usize,
)
    requires
        distinct_feeders(h.feeders),
        is_window_of(h.feeders, ws, k),
    ensures
        ({
            let w = h.feeders[k].id;
            let close = h.tab_op(client, ws, TabOp::Close { tab_id });
            let reorder = h.tab_op(client, ws, TabOp::Reorder { origin, target });
            let new = h.tab_op(client, ws, TabOp::New);
            &&& close.hub == h
            &&& close.acts == asked(w, ws, tab_id, FeedTabOp::Close { tab_id })
            &&& reorder.hub == h
            &&& origin <= u32::MAX && target <= u32::MAX ==> reorder.acts == asked(
                w,
                ws,
                0,
                FeedTabOp::Reorder { origin: origin as u32, target: target as u32 },
            )
            &&& new.hub == (HubModel {
                feeders: h.feeders.update(
                    k,
                    FeederModel { awaiting: Some(client), ..h.feeders[k] },
                ),
                ..h
            })
            &&& new.acts == asked(w, ws, 0, FeedTabOp::New)
        }),
{
    lemma_window_of(h.feeders, ws, k);
    lemma_window_numbered(h.feeders, k);
    let f = FeederModel { awaiting: Some(client), ..h.feeders[k] };
    let after = h.feeders.update(k, f);
    assert forall|i: int, j: int| 0 <= i < j < after.len() implies (#[trigger] after[i]).id != (
    #[trigger] after[j]).id by {
        assert(h.feeders[i].id != h.feeders[j].id);
    }
    lemma_window_numbered(after, k);
    assert(after[k].id == h.feeders[k].id);
    if origin <= u32::MAX && target <= u32::MAX {
        assert((origin as int % 0x1_0000_0000) as u32 == origin as u32);
        assert((target as int % 0x1_0000_0000) as u32 == target as u32);
    }
}

/// Where no window has the workspace that is named, tabs are closed and moved in
/// the window that the client watches, and opened in the anchor. Nothing is
/// asked of anybody where there is no such window.
pub proof fn law_operation_without_a_window(
    h: HubModel,
    client: u64,
    ws: u64,
    j: int,
    tab_id: u64,
    idx: usize,
)
    requires
        distinct_feeders(h.feeders),
        distinct_clients(h.clients),
        h.feeders.len() > 0,
        is_nobodys(h.feeders, ws),
        0 <= j < h.clients.len(),
        h.clients[j].id == client,
    ensures
        ({
            let close = h.tab_op(client, ws, TabOp::Close { tab_id });
            let new = h.tab_op(client, ws, TabOp::New);
            let select = h.tab_op(client, ws, TabOp::Select { idx });
            &&& close.hub == h
            &&& forall|k: int|
                0 <= k < h.feeders.len() && h.clients[j].feeder == Some(
                    (#[trigger] h.feeders[k]).id,
                ) ==> close.acts == asked(
                    h.feeders[k].id,
                    h.feeders[k].ws,
                    tab_id,
                    FeedTabOp::Close { tab_id },
                )
            &&& h.clients[j].feeder is None ==> close.acts.len() == 0
            &&& forall|k: int|
                0 <= k < h.feeders.len() && h.anchor == Some((#[trigger] h.feeders[k]).id)
                    ==> new.acts == asked(
                    h.feeders[k].id,
                    h.feeders[k].ws,
                    0,
                    FeedTabOp::New,
                )
            &&& select.hub == h && select.acts.len() == 0
        }),
{
    lemma_window_of(h.feeders, ws, h.feeders.len() as int);
    lemma_client_numbered(h.clients, j);
    assert forall|k: int|
        0 <= k < h.feeders.len() && h.clients[j].feeder == Some(
            (#[trigger] h.feeders[k]).id,
        ) implies h.tab_op(client, ws, TabOp::Close { tab_id }).acts == asked(
        h.feeders[k].id,
        h.feeders[k].ws,
        tab_id,
        FeedTabOp::Close { tab_id },
    ) by {
        lemma_window_numbered(h.feeders, k);
    }
    assert forall|k: int|
        0 <= k < h.feeders.len() && h.anchor == Some(
            (#[trigger] h.feeders[k]).id,
        ) implies h.tab_op(client, ws, TabOp::New).acts == asked(
        h.feeders[k].id,
        h.feeders[k].ws,
        0,
        FeedTabOp::New,
    ) by {
        lemma_window_numbered(h.feeders, k);
        let f = FeederModel { awaiting: Some(client), ..h.feeders[k] };
        let after = h.feeders.update(k, f);
        assert forall|a: int, b: int| 0 <= a < b < after.len() implies (#[trigger] after[a]).id != (
        #[trigger] after[b]).id by {
            assert(h.feeders[a].id != h.feeders[b].id);
        }
        lemma_window_numbered(after, k);
        assert(after[k].id == h.feeders[k].id);
    }
}

/// Without windows, operations on tabs change nothing and ask nobody.
pub proof fn law_no_windows_no_operations(h: HubModel, client: u64, ws: u64, op: TabOp)
    requires
        h.feeders.len() == 0,
    ensures
        h.tab_op(client, ws, op).hub == h,
        h.tab_op(client, ws, op).acts.len() == 0,
{
}

/// How operations are written can be read back: the first byte tells which it
/// is, and what follows the numbers, lowest byte first.
pub proof fn law_operations_as_written(tab_id: u64, origin: u32, target: u32)
    ensures
        tab_op_payload(FeedTabOp::New) == seq![1u8],
        ({
            let close = tab_op_payload(FeedTabOp::Close { tab_id });
            let reorder = tab_op_payload(FeedTabOp::Reorder { origin, target });
            &&& close.len() == 9 && close[0] == 2 && value(close.skip(1)) == tab_id
            &&& reorder.len() == 9 && reorder[0] == 3
            &&& value(reorder.subrange(1, 5)) == origin
            &&& value(reorder.subrange(5, 9)) == target
        }),
{
    lemma_pow256();
    lemma_value_le(tab_id as int, 8);
    lemma_value_le(origin as int, 4);
    lemma_value_le(target as int, 4);
    let close = tab_op_payload(FeedTabOp::Close { tab_id });
    let reorder = tab_op_payload(FeedTabOp::Reorder { origin, target });
    assert(close.skip(1) =~= crate::kernel::le::le(tab_id as int, 8));
    assert(reorder.subrange(1, 5) =~= crate::kernel::le::le(origin as int, 4));
    assert(reorder.subrange(5, 9) =~= crate::kernel::le::le(target as int, 4));
}

/// To select a tab shows it to the client that asks: from then on it watches
/// that window and that tab, and no longer what the focus is on. It is told so,
/// and sent what is remembered of the tab. Where the window has no such tab
/// nothing happens.
pub proof fn law_select_shows_the_tab(
    h: HubModel,
    client: u64,
    ws: u64,
    idx: usize,
    k: int,
    j: int,
)
    requires
        distinct_clients(h.clients),
        is_window_of(h.feeders, ws, k),
        0 <= j < h.clients.len(),
        h.clients[j].id == client,
        h.clients[j].live,
    ensures
        ({
            let f = h.feeders[k];
            let step = h.tab_op(client, ws, TabOp::Select { idx });
            &&& idx >= f.tabs.len() ==> step.hub == h && step.acts.len() == 0
            &&& idx < f.tabs.len() ==> {
                let tab = f.tabs[idx as int].id;
                &&& step.hub == (HubModel {
                    clients: h.clients.update(
                        j,
                        ClientModel {
                            viewed: (ws, tab),
                            feeder: Some(f.id),
                            follow: false,
                            ..h.clients[j]
                        },
                    ),
                    ..h
                })
                &&& step.acts.len() > 0
                &&& step.acts[0] == (Act::Tell {
                    client,
                    msg: Msg::StreamFocus { workspace_id: ws, tab_id: tab },
                })
                &&& h.memory(ws, tab).len() > 0 ==> step.acts.len() == 2 && step.acts[1] == (
                Act::Replay { client, bytes: h.memory(ws, tab) })
                &&& h.memory(ws, tab).len() == 0 ==> step.acts.len() == 1
            }
        }),
{
    lemma_window_of(h.feeders, ws, k);
    let f = h.feeders[k];
    if idx < f.tabs.len() {
        let tab = f.tabs[idx as int].id;
        lemma_client_numbered(h.clients, j);
        lemma_moved(h, client, f.id);
        let m = h.moved_to(client, f.id);
        lemma_client_numbered(m.clients, j);
        let step = h.tab_op(client, ws, TabOp::Select { idx });
        assert(step.hub.clients =~= h.clients.update(
            j,
            ClientModel { viewed: (ws, tab), feeder: Some(f.id), follow: false, ..h.clients[j] },
        ));
    }
}

/// What is remembered of a tab is what the place for it holds, and nothing where
/// there is none.
pub proof fn law_memory_is_of_the_tab(h: HubModel, ws: u64, tab: u64, i: int)
    requires
        0 <= i <= h.rings.len(),
        forall|j: int| 0 <= j < i ==> !((#[trigger] h.rings[j]).ws == ws && h.rings[j].tab == tab),
        i < h.rings.len() ==> h.rings[i].ws == ws && h.rings[i].tab == tab,
    ensures
        h.memory(ws, tab) == (if i < h.rings.len() {
            h.rings[i].bytes
        } else {
            seq![]
        }),
{
    let p = |r: RingModel| r.ws == ws && r.tab == tab;
    assert forall|j: int| 0 <= j < i implies !p(#[trigger] h.rings[j]) by {}
    lemma_first_where(h.rings, p, i);
}

/// Input for a tab goes to the window whose workspace is named, whole and in
/// order, in input frames that name the workspace and the tab; to nobody where
/// there is no such window; and to the terminal itself where the daemon has
/// terminals of its own.
pub proof fn law_input_goes_to_its_window(h: HubModel, ws: u64, tab: u64, bytes: Seq<u8>, k: int)
    requires
        is_window_of(h.feeders, ws, k) || (k == h.feeders.len() && is_nobodys(h.feeders, ws)),
    ensures
        h.session is Some ==> h.input(ws, tab, bytes) == seq![Act::ToPty { tab_id: tab, bytes }],
        h.session is None && k == h.feeders.len() ==> h.input(ws, tab, bytes).len() == 0,
        h.session is None && k < h.feeders.len() ==> {
            let all = h.input(ws, tab, bytes);
            &&& exists|parts: Seq<Seq<u8>>|
                {
                    &&& #[trigger] payloads(parts) == bytes
                    &&& parts.len() == all.len()
                    &&& forall|i: int|
                        0 <= i < parts.len() ==> 0 < (#[trigger] parts[i]).len() <= FED_INPUT_CHUNK
                            && all[i] == (Act::ToFeeder {
                            feeder: h.feeders[k].id,
                            frame: encoded(
                                Frame {
                                    kind: FrameKind::Input,
                                    ws_id: ws,
                                    tab_id: tab,
                                    payload: parts[i],
                                },
                            ),
                        })
                }
        },
{
    lemma_window_of(h.feeders, ws, k);
    if h.session is None && k < h.feeders.len() {
        let parts = pieces(bytes);
        law_input_in_pieces(h.feeders[k].id, ws, tab, bytes);
        assert(payloads(parts) == bytes);
        assert(h.input(ws, tab, bytes) == input_frames(h.feeders[k].id, ws, tab, bytes));
    }
}

/// Output of a tab goes to the live clients that are shown that tab of that
/// workspace, each once and whole, and to no other; it is added to what is
/// remembered of the tab, and to no other memory. A connection is closed exactly
/// where more than the limit then waits for a client that is shown the tab.
pub proof fn law_output_goes_to_its_viewers(
    h: HubModel,
    ws: u64,
    tab: u64,
    bytes: Seq<u8>,
    other_ws: u64,
    other_tab: u64,
)
    requires
        distinct_clients(h.clients),
    ensures
        ({
            let step = h.output(ws, tab, bytes);
            let r = step.hub;
            &&& r == (HubModel { clients: r.clients, rings: r.rings, ..h })
            &&& r.clients.len() == h.clients.len()
            &&& forall|j: int|
                0 <= j < h.clients.len() ==> #[trigger] r.clients[j] == (if h.clients[j].live
                    && h.clients[j].viewed.0 == ws && h.clients[j].viewed.1 == tab {
                    ClientModel {
                        queue: h.clients[j].queue.push(Parcel::Bytes(bytes)),
                        ..h.clients[j]
                    }
                } else {
                    h.clients[j]
                })
            &&& r.memory(ws, tab) == last_n(h.memory(ws, tab) + bytes, BYTE_RING_CAP as nat)
            &&& other_ws != ws || other_tab != tab ==> r.memory(other_ws, other_tab) == h.memory(
                other_ws,
                other_tab,
            )
            &&& forall|i: int|
                0 <= i < step.acts.len() ==> (#[trigger] step.acts[i]) is DropClient
            &&& forall|j: int|
                0 <= j < h.clients.len() ==> step.acts.contains(
                    Act::DropClient { client: (#[trigger] r.clients[j]).id },
                ) == (h.clients[j].live && h.clients[j].viewed == (ws, tab) && total_size(
                    r.clients[j].queue,
                ) > WS_CLIENT_OUT_CAP)
        }),
{
    let step = h.output(ws, tab, bytes);
    let r = step.hub;
    let p = |x: RingModel| x.ws == ws && x.tab == tab;
    let q = |x: RingModel| x.ws == other_ws && x.tab == other_tab;
    let after = h.remembering(ws, tab, bytes);
    lemma_first_where_is(h.rings, p);
    lemma_first_where_is(h.rings, q);
    match ring_at(h.rings, ws, tab) {
        Some(i) => {
            assert(p(h.rings[i]));
            lemma_first_where(after, p, i);
        },
        None => {
            lemma_first_where(after, p, h.rings.len() as int);
            assert(seq![] + bytes =~= bytes);
        },
    }
    if other_ws != ws || other_tab != tab {
        match ring_at(h.rings, other_ws, other_tab) {
            Some(i) => {
                assert(q(h.rings[i]));
                assert forall|j: int| 0 <= j < i implies !q(#[trigger] after[j]) by {
                    assert(!q(h.rings[j]));
                }
                lemma_first_where(after, q, i);
            },
            None => {
                assert forall|j: int| 0 <= j < after.len() implies !q(#[trigger] after[j]) by {
                    if j < h.rings.len() {
                        assert(!q(h.rings[j]));
                    }
                }
                lemma_first_where(after, q, after.len() as int);
            },
        }
    }
    assert forall|i: int, j: int| 0 <= i < j < r.clients.len() implies (#[trigger] r.clients[i]).id
        != (#[trigger] r.clients[j]).id by {
        assert(h.clients[i].id != h.clients[j].id);
    }
    lemma_chosen(r.clients, clogged(ws, tab));
    let ids = chosen(r.clients, clogged(ws, tab));
    assert forall|j: int| 0 <= j < h.clients.len() implies step.acts.contains(
        Act::DropClient { client: (#[trigger] r.clients[j]).id },
    ) == (h.clients[j].live && h.clients[j].viewed == (ws, tab) && total_size(r.clients[j].queue)
        > WS_CLIENT_OUT_CAP) by {
        let id = r.clients[j].id;
        assert(step.acts == drops(ids));
        if ids.contains(id) {
            let n = choose|n: int| 0 <= n < ids.len() && ids[n] == id;
            assert(step.acts[n] == (Act::DropClient { client: id }));
        }
        if step.acts.contains(Act::DropClient { client: id }) {
            let n = choose|n: int|
                0 <= n < step.acts.len() && step.acts[n] == (Act::DropClient { client: id });
            assert(ids[n] == id);
        }
    }
}

proof fn lemma_pointed_acts(h: HubModel, ids: Seq<u64>, n: int, ws: u64, tab: u64)
    requires
        distinct_clients(h.clients),
        0 <= n <= ids.len(),
    ensures
        ({
            let r = h.pointed_all(ids, n, ws, tab);
            &&& forall|i: int|
                0 <= i < r.acts.len() ==> match #[trigger] r.acts[i] {
                    Act::Tell { client, msg } => ids.contains(client) && msg == (Msg::StreamFocus {
                        workspace_id: ws,
                        tab_id: tab,
                    }),
                    Act::Replay { client, bytes } => ids.contains(client) && bytes == h.memory(
                        ws,
                        tab,
                    ),
                    _ => false,
                }
            &&& forall|j: int|
                0 <= j < h.clients.len() && (#[trigger] h.clients[j]).live && ids.take(n).contains(
                    h.clients[j].id,
                ) ==> r.acts.contains(
                    Act::Tell {
                        client: h.clients[j].id,
                        msg: Msg::StreamFocus { workspace_id: ws, tab_id: tab },
                    },
                )
            &&& forall|j: int|
                0 <= j < h.clients.len() && (#[trigger] h.clients[j]).live && ids.take(n).contains(
                    h.clients[j].id,
                ) && h.memory(ws, tab).len() > 0 ==> r.acts.contains(
                    Act::Replay { client: h.clients[j].id, bytes: h.memory(ws, tab) },
                )
        }),
    decreases n,
{
    let r = h.pointed_all(ids, n, ws, tab);
    if n > 0 {
        lemma_pointed_acts(h, ids, n - 1, ws, tab);
        lemma_pointed_all(h, ids, n - 1, ws, tab);
        let prev = h.pointed_all(ids, n - 1, ws, tab);
        let id = ids[n - 1];
        let next = prev.hub.pointed(id, ws, tab, true);
        assert(prev.hub.memory(ws, tab) == h.memory(ws, tab));
        lemma_client_at(prev.hub.clients, id);
        assert(ids.contains(id));
        assert forall|i: int| 0 <= i < r.acts.len() implies match #[trigger] r.acts[i] {
            Act::Tell { client, msg } => ids.contains(client) && msg == (Msg::StreamFocus {
                workspace_id: ws,
                tab_id: tab,
            }),
            Act::Replay { client, bytes } => ids.contains(client) && bytes == h.memory(ws, tab),
            _ => false,
        } by {
            if i < prev.acts.len() {
                assert(r.acts[i] == prev.acts[i]);
            } else {
                assert(r.acts[i] == next.acts[i - prev.acts.len()]);
            }
        }
        assert(ids.take(n) =~= ids.take(n - 1).push(id));
        assert forall|j: int|
            0 <= j < h.clients.len() && (#[trigger] h.clients[j]).live && ids.take(n).contains(
                h.clients[j].id,
            ) implies r.acts.contains(
            Act::Tell {
                client: h.clients[j].id,
                msg: Msg::StreamFocus { workspace_id: ws, tab_id: tab },
            },
        ) && (h.memory(ws, tab).len() > 0 ==> r.acts.contains(
            Act::Replay { client: h.clients[j].id, bytes: h.memory(ws, tab) },
        )) by {
            let c = h.clients[j].id;
            let tell = Act::Tell {
                client: c,
                msg: Msg::StreamFocus { workspace_id: ws, tab_id: tab },
            };
            let replay = Act::Replay { client: c, bytes: h.memory(ws, tab) };
            if c == id {
                assert(prev.hub.clients[j].id == id);
                assert(client_at(prev.hub.clients, id) == Some(j));
                assert(prev.hub.clients[j].live);
                assert(r.acts[prev.acts.len() as int] == next.acts[0]);
                assert(next.acts[0] == tell);
                if h.memory(ws, tab).len() > 0 {
                    assert(r.acts[prev.acts.len() as int + 1] == next.acts[1]);
                    assert(next.acts[1] == replay);
                }
            } else {
                let m = choose|m: int| 0 <= m < n && #[trigger] ids.take(n)[m] == c;
                assert(ids.take(n - 1)[m] == c);
                assert(ids.take(n - 1).contains(c));
                let x = choose|x: int| 0 <= x < prev.acts.len() && prev.acts[x] == tell;
                assert(r.acts[x] == tell);
                if h.memory(ws, tab).len() > 0 {
                    let y = choose|y: int| 0 <= y < prev.acts.len() && prev.acts[y] == replay;
                    assert(r.acts[y] == replay);
                }
            }
        }
    } else {
        assert(ids.take(0) =~= seq![]);
    }
}

/// When the focus of a window moves, its live clients that follow the focus are
/// shown the tab that it is on, and are told so and sent what is remembered of
/// it. Nobody else is shown anything, and no other window changes. Then all are
/// told the list of workspaces and that window's tabs.
pub proof fn law_focus_takes_followers_along(h: HubModel, k: int, ws: u64, tab: u64)
    requires
        distinct_clients(h.clients),
        distinct_feeders(h.feeders),
        0 <= k < h.feeders.len(),
    ensures
        ({
            let f = h.feeders[k];
            let step = h.focus_moved(f.id, ws, tab);
            let r = step.hub;
            let n = step.acts.len() as int;
            &&& r == (HubModel { clients: r.clients, feeders: r.feeders, ..h })
            &&& r.feeders.len() == h.feeders.len()
            &&& forall|i: int|
                0 <= i < h.feeders.len() && i != k ==> #[trigger] r.feeders[i] == h.feeders[i]
            &&& r.feeders[k] == (FeederModel {
                ws,
                focus: tab,
                active: r.feeders[k].active,
                ..f
            })
            &&& (forall|i: int| 0 <= i < f.tabs.len() ==> (#[trigger] f.tabs[i]).id != tab)
                ==> r.feeders[k].active == f.active
            &&& (exists|i: int| 0 <= i < f.tabs.len() && (#[trigger] f.tabs[i]).id == tab) ==> 0
                <= r.feeders[k].active < f.tabs.len() && f.tabs[r.feeders[k].active].id == tab
            &&& r.clients.len() == h.clients.len()
            &&& forall|j: int|
                0 <= j < h.clients.len() ==> #[trigger] r.clients[j] == (if h.clients[j].live
                    && h.clients[j].follow && h.clients[j].feeder == Some(f.id) {
                    ClientModel { viewed: (ws, tab), ..h.clients[j] }
                } else {
                    h.clients[j]
                })
            &&& n >= 2
            &&& step.acts[n - 2] == (Act::TellAll { msg: r.workspaces() })
            &&& step.acts[n - 1] == (Act::TellAll { msg: feeder_info(r.feeders[k]) })
            &&& forall|j: int|
                0 <= j < h.clients.len() ==> step.acts.contains(
                    Act::Tell {
                        client: (#[trigger] h.clients[j]).id,
                        msg: Msg::StreamFocus { workspace_id: ws, tab_id: tab },
                    },
                ) == (h.clients[j].live && h.clients[j].follow && h.clients[j].feeder == Some(f.id))
        }),
{
    let f = h.feeders[k];
    let step = h.focus_moved(f.id, ws, tab);
    let r = step.hub;
    lemma_window_numbered(h.feeders, k);
    let is_tab = |t: TabItem| t.id == tab;
    lemma_first_where_is(f.tabs, is_tab);
    if let Some(i) = tab_at(f.tabs, tab) {
        assert(is_tab(f.tabs[i]));
    } else {
        assert forall|i: int| 0 <= i < f.tabs.len() implies (#[trigger] f.tabs[i]).id != tab by {
            assert(!is_tab(f.tabs[i]));
        }
    }
    let moved = FeederModel {
        ws,
        focus: tab,
        active: match tab_at(f.tabs, tab) {
            Some(i) => i,
            None => f.active,
        },
        ..f
    };
    let told = h.with_feeder(k, moved);
    assert forall|i: int, j: int| 0 <= i < j < told.feeders.len() implies (
    #[trigger] told.feeders[i]).id != (#[trigger] told.feeders[j]).id by {
        assert(h.feeders[i].id != h.feeders[j].id);
    }
    lemma_window_numbered(told.feeders, k);
    let ids = chosen(told.clients, follows(f.id));
    lemma_chosen(told.clients, follows(f.id));
    lemma_pointed_all(told, ids, ids.len() as int, ws, tab);
    lemma_pointed_acts(told, ids, ids.len() as int, ws, tab);
    assert(ids.take(ids.len() as int) =~= ids);
    let shown = told.pointed_all(ids, ids.len() as int, ws, tab);
    let news = shown.hub.news(f.id);
    assert(news.len() == 2);
    assert(step.acts == shown.acts + news);
    let n = step.acts.len() as int;
    assert(step.acts[n - 2] == news[0] && step.acts[n - 1] == news[1]);
    assert forall|j: int| 0 <= j < h.clients.len() implies step.acts.contains(
        Act::Tell {
            client: (#[trigger] h.clients[j]).id,
            msg: Msg::StreamFocus { workspace_id: ws, tab_id: tab },
        },
    ) == (h.clients[j].live && h.clients[j].follow && h.clients[j].feeder == Some(f.id)) by {
        let c = told.clients[j];
        let tell = Act::Tell {
            client: c.id,
            msg: Msg::StreamFocus { workspace_id: ws, tab_id: tab },
        };
        assert(ids.contains(c.id) == follows(f.id)(c));
        if follows(f.id)(c) {
            assert(shown.acts.contains(tell));
            let x = choose|x: int| 0 <= x < shown.acts.len() && shown.acts[x] == tell;
            assert(step.acts[x] == tell);
        }
        if step.acts.contains(tell) {
            let x = choose|x: int| 0 <= x < step.acts.len() && step.acts[x] == tell;
            if x < shown.acts.len() {
                assert(shown.acts[x] == tell);
            } else {
                assert(news[x - shown.acts.len()] == tell);
            }
        }
    }
}

proof fn lemma_feeders_renamed(s: Seq<FeederModel>, k: int, f: FeederModel)
    requires
        distinct_feeders(s),
        0 <= k < s.len(),
        f.id == s[k].id,
    ensures
        distinct_feeders(s.update(k, f)),
        feeder_at(s.update(k, f), f.id) == Some(k),
{
    let t = s.update(k, f);
    assert forall|i: int, j: int| 0 <= i < j < t.len() implies (#[trigger] t[i]).id != (
    #[trigger] t[j]).id by {
        assert(s[i].id != s[j].id);
    }
    lemma_window_numbered(t, k);
}

/// A size that a window tells is its size from then on, and is told to the
/// clients that watch it, and to no others. No other window changes.
pub proof fn law_size_goes_to_watchers(h: HubModel, k: int, ws: u64, cols: u16, rows: u16)
    requires
        distinct_clients(h.clients),
        distinct_feeders(h.feeders),
        0 <= k < h.feeders.len(),
    ensures
        ({
            let f = h.feeders[k];
            let step = h.dims_told(f.id, ws, cols, rows);
            &&& step.hub == (HubModel {
                feeders: h.feeders.update(
                    k,
                    FeederModel { ws, dims: Some((cols, rows)), ..f },
                ),
                ..h
            })
            &&& forall|i: int|
                0 <= i < step.acts.len() ==> match #[trigger] step.acts[i] {
                    Act::Tell { msg, .. } => msg == (Msg::Dims { cols, rows }),
                    _ => false,
                }
            &&& forall|j: int|
                0 <= j < h.clients.len() ==> step.acts.contains(
                    Act::Tell {
                        client: (#[trigger] h.clients[j]).id,
                        msg: Msg::Dims { cols, rows },
                    },
                ) == (h.clients[j].feeder == Some(f.id))
        }),
{
    let f = h.feeders[k];
    lemma_window_numbered(h.feeders, k);
    lemma_chosen(h.clients, watches(f.id));
    let ids = chosen(h.clients, watches(f.id));
    let acts = h.dims_told(f.id, ws, cols, rows).acts;
    assert forall|j: int| 0 <= j < h.clients.len() implies acts.contains(
        Act::Tell { client: (#[trigger] h.clients[j]).id, msg: Msg::Dims { cols, rows } },
    ) == (h.clients[j].feeder == Some(f.id)) by {
        let c = h.clients[j];
        let tell = Act::Tell { client: c.id, msg: Msg::Dims { cols, rows } };
        assert(ids.contains(c.id) == watches(f.id)(c));
        if ids.contains(c.id) {
            let n = choose|n: int| 0 <= n < ids.len() && ids[n] == c.id;
            assert(acts[n] == tell);
        }
        if acts.contains(tell) {
            let n = choose|n: int| 0 <= n < acts.len() && acts[n] == tell;
            assert(ids[n] == c.id);
        }
    }
}

/// A tab is in a list.
pub open spec fn is_listed(tabs: Seq<TabItem>, tab: u64) -> bool {
    exists|i: int| 0 <= i < tabs.len() && (#[trigger] tabs[i]).id == tab
}

proof fn lemma_listed(tabs: Seq<TabItem>, tab: u64)
    ensures
        (tab_at(tabs, tab) is Some) == is_listed(tabs, tab),
{
    let p = |t: TabItem| t.id == tab;
    lemma_first_where_is(tabs, p);
    match tab_at(tabs, tab) {
        Some(i) => {
            assert(p(tabs[i]));
            assert(tabs[i].id == tab);
        },
        None => {
            if is_listed(tabs, tab) {
                let i = choose|i: int| 0 <= i < tabs.len() && (#[trigger] tabs[i]).id == tab;
                assert(!p(tabs[i]));
            }
        },
    }
}

/// When a window tells its tabs, they are its tabs from then on, in the order
/// told, with the one active that it says, or the last where there is no such
/// one. Its live clients that were shown a tab that is closed are shown the
/// active one, and follow the focus; nobody else is moved. What was remembered of
/// closed tabs is forgotten, and nothing else. This is so as long as nobody waits
/// for a new tab of that window.
pub proof fn law_tabs_as_told(h: HubModel, k: int, ws: u64, active: int, tabs: Seq<TabItem>)
    requires
        distinct_clients(h.clients),
        distinct_feeders(h.feeders),
        0 <= k < h.feeders.len(),
        h.feeders[k].awaiting is None,
        0 <= active,
    ensures
        ({
            let f = h.feeders[k];
            let step = h.tabs_told(f.id, ws, active, tabs);
            let r = step.hub;
            let n = step.acts.len() as int;
            &&& r == (HubModel { clients: r.clients, feeders: r.feeders, rings: r.rings, ..h })
            &&& r.feeders == h.feeders.update(
                k,
                FeederModel { ws, tabs, active: r.feeders[k].active, focus: r.feeders[k].focus, ..f },
            )
            &&& active < tabs.len() ==> r.feeders[k].active == active && r.feeders[k].focus
                == tabs[active].id
            &&& active >= tabs.len() > 0 ==> r.feeders[k].active == tabs.len() - 1
                && r.feeders[k].focus == tabs.last().id
            &&& tabs.len() == 0 ==> r.feeders[k].active == 0 && r.feeders[k].focus == f.focus
            &&& r.clients.len() == h.clients.len()
            &&& forall|j: int|
                0 <= j < h.clients.len() ==> #[trigger] r.clients[j] == (if h.clients[j].live
                    && h.clients[j].feeder == Some(f.id) && !is_listed(tabs, h.clients[j].viewed.1) {
                    ClientModel {
                        viewed: (ws, r.feeders[k].focus),
                        follow: true,
                        ..h.clients[j]
                    }
                } else {
                    h.clients[j]
                })
            &&& r.rings == h.rings.filter(
                |x: RingModel| x.ws != ws || is_listed(tabs, x.tab),
            )
            &&& n >= 2
            &&& step.acts[n - 2] == (Act::TellAll { msg: r.workspaces() })
            &&& step.acts[n - 1] == (Act::TellAll { msg: feeder_info(r.feeders[k]) })
        }),
{
    let f = h.feeders[k];
    let step = h.tabs_told(f.id, ws, active, tabs);
    let r = step.hub;
    lemma_window_numbered(h.feeders, k);
    let at = if active < tabs.len() {
        active
    } else if tabs.len() > 0 {
        tabs.len() - 1
    } else {
        0
    };
    let focus = if at < tabs.len() {
        tabs[at].id
    } else {
        f.focus
    };
    let told = h.with_tabs(k, ws, at, focus, tabs);
    lemma_feeders_renamed(h.feeders, k, FeederModel { ws, tabs, active: at, focus, ..f });
    let ids = chosen(told.clients, stranded(f.id, tabs));
    lemma_chosen(told.clients, stranded(f.id, tabs));
    lemma_pointed_all(told, ids, ids.len() as int, ws, focus);
    assert(ids.take(ids.len() as int) =~= ids);
    let shown = told.pointed_all(ids, ids.len() as int, ws, focus);
    assert(shown.hub.feeders[k].awaiting is None);
    assert(r == shown.hub);
    let news = shown.hub.news(f.id);
    assert(news.len() == 2);
    assert(step.acts == shown.acts + news + Seq::<Act>::empty());
    let n = step.acts.len() as int;
    assert(step.acts[n - 2] == news[0] && step.acts[n - 1] == news[1]);
    assert forall|j: int| 0 <= j < h.clients.len() implies #[trigger] r.clients[j] == (
    if h.clients[j].live && h.clients[j].feeder == Some(f.id) && !is_listed(
        tabs,
        h.clients[j].viewed.1,
    ) {
        ClientModel { viewed: (ws, r.feeders[k].focus), follow: true, ..h.clients[j] }
    } else {
        h.clients[j]
    }) by {
        lemma_listed(tabs, h.clients[j].viewed.1);
        assert(ids.contains(told.clients[j].id) == stranded(f.id, tabs)(told.clients[j]));
    }
    let a = |x: RingModel| x.ws != ws || tab_at(tabs, x.tab) is Some;
    let b = |x: RingModel| x.ws != ws || is_listed(tabs, x.tab);
    assert forall|x: RingModel| #[trigger] a(x) == b(x) by {
        lemma_listed(tabs, x.tab);
    }
    assert(a =~= b);
}

/// Whoever waits for a new tab of a window is shown it once the window tells one
/// that it did not have: the one that is active if that is new, else the first
/// that is. Until then it goes on waiting.
pub proof fn law_new_tab_goes_to_who_asked(
    h: HubModel,
    k: int,
    ws: u64,
    active: int,
    tabs: Seq<TabItem>,
    client: u64,
    j: int,
    m: int,
)
    requires
        distinct_clients(h.clients),
        distinct_feeders(h.feeders),
        0 <= k < h.feeders.len(),
        h.feeders[k].awaiting == Some(client),
        0 <= j < h.clients.len(),
        h.clients[j].id == client,
        h.clients[j].live,
        0 <= active < tabs.len(),
        0 <= m <= tabs.len(),
        forall|i: int| 0 <= i < m ==> is_listed(h.feeders[k].tabs, (#[trigger] tabs[i]).id),
        m < tabs.len() ==> !is_listed(h.feeders[k].tabs, tabs[m].id),
    ensures
        ({
            let f = h.feeders[k];
            let r = h.tabs_told(f.id, ws, active, tabs).hub;
            let old_focus = is_listed(f.tabs, tabs[active].id);
            &&& m == tabs.len() ==> r.feeders[k].awaiting == Some(client)
            &&& m < tabs.len() ==> {
                &&& r.feeders[k].awaiting is None
                &&& r.clients[j].feeder == Some(f.id) && !r.clients[j].follow
                &&& r.clients[j].viewed == (
                    ws,
                    if old_focus {
                        tabs[m].id
                    } else {
                        tabs[active].id
                    },
                )
            }
        }),
{
    let f = h.feeders[k];
    lemma_window_numbered(h.feeders, k);
    let focus = tabs[active].id;
    let told = h.with_tabs(k, ws, active, focus, tabs);
    let g = FeederModel { ws, tabs, active, focus, ..f };
    lemma_feeders_renamed(h.feeders, k, g);
    let ids = chosen(told.clients, stranded(f.id, tabs));
    lemma_pointed_all(told, ids, ids.len() as int, ws, focus);
    let shown = told.pointed_all(ids, ids.len() as int, ws, focus).hub;
    assert(shown.feeders == told.feeders);
    assert(shown.clients[j].id == client && shown.clients[j].live);
    lemma_listed(f.tabs, focus);
    let p = |t: TabItem| tab_at(f.tabs, t.id) is None;
    assert forall|i: int| 0 <= i < m implies !p(#[trigger] tabs[i]) by {
        lemma_listed(f.tabs, tabs[i].id);
        assert(is_listed(f.tabs, tabs[i].id));
    }
    if m < tabs.len() {
        lemma_listed(f.tabs, tabs[m].id);
    }
    lemma_first_where(tabs, p, m);
    assert(first_new(tabs, f.tabs) == (if m < tabs.len() {
        Some(m)
    } else {
        None
    }));
    if m < tabs.len() {
        let quiet = shown.with_feeder(k, FeederModel { awaiting: None, ..shown.feeders[k] });
        lemma_moved(quiet, client, f.id);
        let moved = quiet.moved_to(client, f.id);
        assert(moved.clients[j].id == client && moved.clients[j].live);
        let tab = if is_listed(f.tabs, focus) {
            tabs[m].id
        } else {
            focus
        };
        lemma_pointed(moved, client, ws, tab, false);
    } else {
        assert(is_listed(f.tabs, tabs[active].id));
    }
}

/// What a frame from a window is for: output of a tab is shown to its viewers,
/// and its workspace is noted; the focus, the size and the tabs are taken as
/// told; frames that go the other way, and payloads that cannot be read, change
/// nothing.
pub proof fn law_frames_do_their_part(h: HubModel, k: int, frame: Frame)
    requires
        distinct_feeders(h.feeders),
        0 <= k < h.feeders.len(),
    ensures
        ({
            let id = h.feeders[k].id;
            let step = h.frame_came(id, frame);
            let out = h.output(frame.ws_id, frame.tab_id, frame.payload);
            match frame.kind {
                FrameKind::PtyOutput => {
                    &&& step.hub.feeders == h.feeders.update(
                        k,
                        FeederModel { ws: frame.ws_id, ..h.feeders[k] },
                    )
                    &&& frame.payload.len() > 0 ==> step.hub.clients == out.hub.clients
                        && step.hub.rings == out.hub.rings && step.acts == out.acts
                    &&& frame.payload.len() == 0 ==> step.hub.clients == h.clients
                        && step.hub.rings == h.rings && step.acts.len() == 0
                },
                FrameKind::FocusChange => step == h.focus_moved(id, frame.ws_id, frame.tab_id),
                FrameKind::Dims => match crate::kernel::feed::dims(frame.payload) {
                    Some((cols, rows)) => step == h.dims_told(id, frame.ws_id, cols, rows),
                    None => step.hub == h && step.acts.len() == 0,
                },
                FrameKind::TabList => match crate::kernel::feed::tab_list(frame.payload) {
                    Some((active, es)) => step == h.tabs_told(
                        id,
                        frame.ws_id,
                        active,
                        crate::kernel::hub::listed(es),
                    ),
                    None => step.hub == h && step.acts.len() == 0,
                },
                _ => step.hub == h && step.acts.len() == 0,
            }
        }),
{
    lemma_window_numbered(h.feeders, k);
}

proof fn lemma_oldest_is_first(s: Seq<FeederModel>)
    ensures
        match oldest(s) {
            Some(i) => 0 <= i < s.len() && forall|j: int|
                0 <= j < s.len() ==> s[i].created < (#[trigger] s[j]).created || (s[i].created
                    == s[j].created && s[i].id <= s[j].id),
            None => s.len() == 0,
        },
    decreases s.len(),
{
    if s.len() > 0 {
        let front = s.drop_last();
        lemma_oldest_is_first(front);
        if let Some(i) = oldest(front) {
            assert(front[i] == s[i]);
            let best = oldest(s)->0;
            assert forall|j: int| 0 <= j < s.len() implies s[best].created < (
            #[trigger] s[j]).created || (s[best].created == s[j].created && s[best].id <= s[j].id) by {
                if j < front.len() {
                    assert(front[j] == s[j]);
                }
            }
        }
    }
}

/// When a window is gone, those who watched it are shown the focus of the
/// anchor, and follow it; nobody else is moved. The anchor stays, unless it was
/// that window: then it is the one that connected first of those that are left.
pub proof fn law_gone_window_hands_over(h: HubModel, k: int, a: int)
    requires
        consistent(h),
        0 <= k < h.feeders.len(),
        0 <= a < h.feeders.len(),
        a != k,
        h.anchor != Some(h.feeders[k].id) ==> h.anchor == Some(h.feeders[a].id),
        h.anchor == Some(h.feeders[k].id) ==> forall|j: int|
            0 <= j < h.feeders.len() && j != k ==> h.feeders[a].created < (
            #[trigger] h.feeders[j]).created || (h.feeders[a].created == h.feeders[j].created
                && h.feeders[a].id <= h.feeders[j].id),
    ensures
        ({
            let f = h.feeders[k];
            let g = h.feeders[a];
            let r = h.feeder_gone(f.id).hub;
            &&& r.anchor == Some(g.id)
            &&& r.feeders == h.feeders.remove(k)
            &&& r.rings == h.rings.filter(|x: RingModel| x.ws != f.ws)
            &&& r.clients.len() == h.clients.len()
            &&& forall|j: int|
                0 <= j < h.clients.len() ==> #[trigger] r.clients[j] == (if h.clients[j].feeder
                    != Some(f.id) {
                    h.clients[j]
                } else if h.clients[j].live {
                    ClientModel {
                        feeder: Some(g.id),
                        follow: true,
                        viewed: (g.ws, g.focus),
                        ..h.clients[j]
                    }
                } else {
                    ClientModel { feeder: Some(g.id), follow: true, ..h.clients[j] }
                })
        }),
{
    let f = h.feeders[k];
    let g = h.feeders[a];
    lemma_window_numbered(h.feeders, k);
    let left = h.without_feeder(k);
    let rest = left.feeders;
    let b = if a < k {
        a
    } else {
        a - 1
    };
    assert(rest[b] == g);
    lemma_removed_feeder(h.feeders, k);
    lemma_window_numbered(rest, b);
    lemma_oldest_is_first(rest);
    if h.anchor == Some(f.id) {
        let o = oldest(rest)->0;
        let from = if o < k {
            o
        } else {
            o + 1
        };
        assert(rest[o] == h.feeders[from]);
        assert(g.created < h.feeders[from].created || (g.created == h.feeders[from].created && g.id
            <= h.feeders[from].id));
        assert(rest[o].created < rest[b].created || (rest[o].created == rest[b].created
            && rest[o].id <= rest[b].id));
        assert(rest[o].id == g.id);
    }
    assert(left.anchor == Some(g.id));
    let ids = chosen(left.clients, watches(f.id));
    lemma_chosen(left.clients, watches(f.id));
    lemma_chosen_once(left.clients, watches(f.id));
    lemma_rescued_all(left, ids, ids.len() as int);
    assert(ids.take(ids.len() as int) =~= ids);
    let r = h.feeder_gone(f.id).hub;
    assert forall|j: int| 0 <= j < h.clients.len() implies #[trigger] r.clients[j] == (
    if h.clients[j].feeder != Some(f.id) {
        h.clients[j]
    } else if h.clients[j].live {
        ClientModel {
            feeder: Some(g.id),
            follow: true,
            viewed: (g.ws, g.focus),
            ..h.clients[j]
        }
    } else {
        ClientModel { feeder: Some(g.id), follow: true, ..h.clients[j] }
    }) by {
        assert(ids.contains(left.clients[j].id) == watches(f.id)(left.clients[j]));
    }
}

/// When a window is gone all clients are told the workspaces that are left. With
/// the last window the daemon ends, unless it has terminals of its own; while
/// there are others it goes on.
pub proof fn law_daemon_ends_with_the_last_window(h: HubModel, k: int)
    requires
        consistent(h),
        0 <= k < h.feeders.len(),
    ensures
        ({
            let step = h.feeder_gone(h.feeders[k].id);
            let n = step.acts.len() as int;
            let told = Act::TellAll { msg: step.hub.workspaces() };
            &&& h.session is None && h.feeders.len() == 1 ==> n >= 2 && step.acts[n - 1]
                == Act::Stop && step.acts[n - 2] == told
            &&& h.session is Some || h.feeders.len() > 1 ==> n >= 1 && step.acts[n - 1] == told
            &&& step.hub.session == h.session
            &&& step.hub.feeders == h.feeders.remove(k)
        }),
{
    let f = h.feeders[k];
    lemma_window_numbered(h.feeders, k);
    let left = h.without_feeder(k);
    let ids = crate::kernel::hub::chosen(left.clients, watches(f.id));
    lemma_rescued_keeps(left, ids, ids.len() as int);
}

proof fn lemma_rescued_keeps(h: HubModel, ids: Seq<u64>, n: int)
    ensures
        h.rescued_all(ids, n).hub.session == h.session,
        h.rescued_all(ids, n).hub.feeders == h.feeders,
    decreases n,
{
    if n > 0 {
        lemma_rescued_keeps(h, ids, n - 1);
    }
}

/// A window that connects comes last, with a number of its own and nothing told
/// yet; it is the anchor if there was none. Live clients without a window watch
/// it and follow its focus, and nobody else changes.
pub proof fn law_window_connects(h: HubModel, created: u64)
    ensures
        ({
            let step = h.feeder_came(created);
            let r = step.hub;
            &&& r == (HubModel {
                clients: r.clients,
                feeders: r.feeders,
                anchor: r.anchor,
                next_feeder: r.next_feeder,
                ..h
            })
            &&& r.feeders.drop_last() == h.feeders
            &&& r.feeders.last() == (FeederModel {
                id: h.next_feeder,
                ws: 0,
                focus: 0,
                tabs: seq![],
                active: 0,
                dims: None,
                awaiting: None,
                created,
            })
            &&& r.next_feeder as int == (if h.next_feeder == u64::MAX {
                0
            } else {
                h.next_feeder + 1
            })
            &&& h.anchor is None ==> r.anchor == Some(h.next_feeder)
            &&& h.anchor is Some ==> r.anchor == h.anchor
            &&& r.clients.len() == h.clients.len()
            &&& forall|j: int|
                0 <= j < h.clients.len() ==> #[trigger] r.clients[j] == (if h.clients[j].live
                    && h.clients[j].feeder is None {
                    ClientModel { feeder: Some(h.next_feeder), follow: true, ..h.clients[j] }
                } else {
                    h.clients[j]
                })
            &&& step.acts == seq![Act::TellAll { msg: r.workspaces() }]
        }),
{
    let r = h.feeder_came(created).hub;
    assert(r.feeders.drop_last() =~= h.feeders);
}

/// A client that becomes live is shown the focus of the anchor, which it watches
/// and follows; in front of everything else it is told all workspaces; it is
/// told the tabs of each, what it is shown and how large that is, and last it is
/// sent what is remembered of it. No other client changes.
pub proof fn law_live_client_is_shown_the_anchor(h: HubModel, j: int, a: int)
    requires
        distinct_clients(h.clients),
        distinct_feeders(h.feeders),
        h.session is None,
        0 <= j < h.clients.len(),
        0 <= a < h.feeders.len(),
        h.anchor == Some(h.feeders[a].id),
    ensures
        ({
            let client = h.clients[j].id;
            let g = h.feeders[a];
            let step = h.went_live(client);
            let tell = |m: Msg| Act::Tell { client, msg: m };
            &&& step.hub == (HubModel {
                clients: h.clients.update(
                    j,
                    ClientModel {
                        live: true,
                        viewed: (g.ws, g.focus),
                        feeder: Some(g.id),
                        follow: true,
                        ..h.clients[j]
                    },
                ),
                ..h
            })
            &&& step.acts.len() > 0
            &&& step.acts[0] == tell(h.workspaces())
            &&& step.acts.contains(
                tell(Msg::StreamFocus { workspace_id: g.ws, tab_id: g.focus }),
            )
            &&& g.dims matches Some((cols, rows)) ==> step.acts.contains(
                tell(Msg::Dims { cols, rows }),
            )
            &&& forall|i: int|
                0 <= i < by_workspace(h.feeders).len() ==> step.acts.contains(
                    tell(feeder_info(#[trigger] by_workspace(h.feeders)[i])),
                )
            &&& h.memory(g.ws, g.focus).len() > 0 ==> step.acts.last() == (Act::Replay {
                client,
                bytes: h.memory(g.ws, g.focus),
            })
            &&& h.memory(g.ws, g.focus).len() == 0 ==> forall|i: int|
                0 <= i < step.acts.len() ==> (#[trigger] step.acts[i]) is Tell
        }),
{
    let client = h.clients[j].id;
    let g = h.feeders[a];
    lemma_client_numbered(h.clients, j);
    lemma_window_numbered(h.feeders, a);
    let step = h.went_live(client);
    let all = h.greeting();
    let infos = by_workspace(h.feeders).map_values(|f: FeederModel| feeder_info(f));
    let focus = Msg::StreamFocus { workspace_id: g.ws, tab_id: g.focus };
    let n = infos.len() as int;
    let told = crate::kernel::hub::tells(client, all);
    assert(told.len() == all.len());
    assert forall|i: int| 0 <= i < all.len() implies #[trigger] step.acts[i] == (Act::Tell {
        client,
        msg: all[i],
    }) by {
        assert(step.acts[i] == told[i]);
    }
    assert(all[0] == h.workspaces());
    assert(all[n + 1] == focus);
    assert(step.acts[n + 1] == (Act::Tell { client, msg: focus }));
    if let Some((cols, rows)) = g.dims {
        assert(all[n + 2] == (Msg::Dims { cols, rows }));
        assert(step.acts[n + 2] == (Act::Tell { client, msg: Msg::Dims { cols, rows } }));
    }
    assert forall|i: int| 0 <= i < by_workspace(h.feeders).len() implies step.acts.contains(
        Act::Tell { client, msg: feeder_info(#[trigger] by_workspace(h.feeders)[i]) },
    ) by {
        assert(all[i + 1] == infos[i]);
        assert(step.acts[i + 1] == (Act::Tell { client, msg: infos[i] }));
    }
}

/// A connection that is admitted comes last, with a number of its own, not live
/// and with nothing waiting for it.
pub proof fn law_connection_is_admitted(h: HubModel, now: u64)
    ensures
        ({
            let r = h.admitted(now);
            &&& r == (HubModel { clients: r.clients, next_client: r.next_client, ..h })
            &&& r.clients.drop_last() == h.clients
            &&& r.clients.last().id == h.next_client && !r.clients.last().live
            &&& r.clients.last().created == now && r.clients.last().queue.len() == 0
            &&& r.clients.last().feeder is None && r.clients.last().held is None
            &&& r.next_client as int == (if h.next_client == u64::MAX {
                0
            } else {
                h.next_client + 1
            })
        }),
{
    assert(h.admitted(now).clients.drop_last() =~= h.clients);
}

proof fn lemma_ws_place_is(s: Seq<FeederModel>, ws: u64)
    ensures
        0 <= ws_place(s, ws) <= s.len(),
        forall|i: int| 0 <= i < ws_place(s, ws) ==> (#[trigger] s[i]).ws < ws,
        ws_place(s, ws) < s.len() ==> s[ws_place(s, ws)].ws >= ws,
    decreases s.len(),
{
    if s.len() > 0 && s[0].ws < ws {
        lemma_ws_place_is(s.skip(1), ws);
        assert forall|i: int| 0 <= i < ws_place(s, ws) implies (#[trigger] s[i]).ws < ws by {
            if i > 0 {
                assert(s[i] == s.skip(1)[i - 1]);
            }
        }
    }
}

/// The list of workspaces holds every window that has told one, each once, in
/// the order of their numbers. Each is titled as its active tab and counts its
/// tabs, and the anchor's is marked.
pub proof fn law_all_workspaces_are_listed(h: HubModel)
    ensures
        ({
            let s = by_workspace(h.feeders);
            &&& s.to_multiset() == h.feeders.filter(|f: FeederModel| f.ws != 0).to_multiset()
            &&& forall|i: int, j: int| 0 <= i < j < s.len() ==> (#[trigger] s[i]).ws <= (
                #[trigger] s[j]).ws
            &&& h.workspaces() is Workspaces
            &&& h.workspaces() matches Msg::Workspaces { list, anchor } ==> {
                &&& anchor == h.anchor_ws()
                &&& list.len() == s.len()
                &&& forall|i: int|
                    0 <= i < s.len() ==> {
                        let m = #[trigger] list[i];
                        &&& m.id == s[i].ws && m.tab_count == s[i].tabs.len()
                        &&& m.active == (s[i].ws == anchor)
                        &&& 0 <= s[i].active < s[i].tabs.len() ==> m.title
                            == s[i].tabs[s[i].active].title
                        &&& !(0 <= s[i].active < s[i].tabs.len()) ==> m.title.len() == 0
                    }
            }
        }),
{
    lemma_by_workspace(h.feeders);
}

proof fn lemma_by_workspace(s: Seq<FeederModel>)
    ensures
        by_workspace(s).to_multiset() == s.filter(|f: FeederModel| f.ws != 0).to_multiset(),
        forall|i: int, j: int|
            0 <= i < j < by_workspace(s).len() ==> (#[trigger] by_workspace(s)[i]).ws <= (
            #[trigger] by_workspace(s)[j]).ws,
    decreases s.len(),
{
    broadcast use vstd::seq_lib::group_to_multiset_ensures;

    let keep = |f: FeederModel| f.ws != 0;
    let r = by_workspace(s);
    if s.len() == 0 {
        reveal(Seq::filter);
        assert(r =~= s.filter(keep));
    } else {
        let tail = s.skip(1);
        let rest = by_workspace(tail);
        lemma_by_workspace(tail);
        let one = seq![s[0]];
        assert(s =~= one + tail);
        crate::text::lemma_filter_split(one, tail, keep);
        reveal_with_fuel(Seq::filter, 2);
        assert(one.drop_last() =~= Seq::<FeederModel>::empty());
        vstd::seq_lib::lemma_multiset_commutative(one.filter(keep), tail.filter(keep));
        if s[0].ws != 0 {
            let p = ws_place(rest, s[0].ws);
            lemma_ws_place_is(rest, s[0].ws);
            vstd::seq_lib::to_multiset_insert(rest, p, s[0]);
            assert(one.filter(keep) =~= one);
            assert(one =~= Seq::<FeederModel>::empty().push(s[0]));
            assert(r.to_multiset() =~= s.filter(keep).to_multiset());
            assert forall|i: int, j: int| 0 <= i < j < r.len() implies (#[trigger] r[i]).ws <= (
            #[trigger] r[j]).ws by {
                let i0 = if i < p {
                    i
                } else {
                    i - 1
                };
                let j0 = if j < p {
                    j
                } else {
                    j - 1
                };
                if i != p && j != p {
                    assert(r[i] == rest[i0] && r[j] == rest[j0]);
                } else if i == p {
                    assert(r[j] == rest[j0]);
                    if p < j0 {
                        assert(rest[p].ws <= rest[j0].ws);
                    }
                } else {
                    assert(r[i] == rest[i]);
                }
            }
        } else {
            assert(one.filter(keep) =~= Seq::<FeederModel>::empty());
            assert(r.to_multiset() =~= s.filter(keep).to_multiset());
        }
    }
}

/// The tabs of a window are told as the window has told them, with the size that
/// it has told, or 80 by 24 until then.
pub proof fn law_tabs_are_told_as_they_are(f: FeederModel)
    ensures
        feeder_info(f) is Workspace,
        feeder_info(f) matches Msg::Workspace { id, tabs, active, width, height } ==> {
            &&& id == f.ws && tabs == f.tabs && active == f.active
            &&& f.dims matches Some((cols, rows)) ==> width == cols && height == rows
            &&& f.dims is None ==> width == 80 && height == 24
        },
{
}

/// The anchor's workspace is the one that it has told.
pub proof fn law_anchor_has_its_workspace(h: HubModel, a: int)
    requires
        distinct_feeders(h.feeders),
        0 <= a < h.feeders.len(),
        h.anchor == Some(h.feeders[a].id),
    ensures
        h.anchor_ws() == h.feeders[a].ws,
{
    lemma_window_numbered(h.feeders, a);
}

/// Those who have not become live in time, and no others, are to be closed.
pub proof fn law_late_connections_go(h: HubModel, now: u64, deadline: u64)
    requires
        distinct_clients(h.clients),
    ensures
        forall|j: int|
            0 <= j < h.clients.len() ==> chosen(
                h.clients,
                crate::kernel::hub::overdue(now, deadline),
            ).contains((#[trigger] h.clients[j]).id) == (!h.clients[j].live && now
                > h.clients[j].created + deadline),
{
    lemma_chosen(h.clients, crate::kernel::hub::overdue(now, deadline));
}

} // verus!
