//! What a client's messages do, and what is left when it goes.

use crate::kernel::hub::{Act, ClientModel, HubModel};
use crate::kernel::hub_laws::{distinct_clients, lemma_client_at};
use crate::kernel::proto::{ClientMsg, TabOp};
use crate::kernel::session::House;
use crate::kernel::session_laws::{
    is_no_room, is_room, law_holder_is_noted, law_workspaces_are_found,
};
use vstd::prelude::*;

verus! {

/// All but one of the clients are as they were.
pub open spec fn others_stay(h: HubModel, next: HubModel, j: int) -> bool {
    &&& next.clients.len() == h.clients.len()
    &&& forall|i: int|
        0 <= i < h.clients.len() && i != j ==> #[trigger] next.clients[i] == h.clients[i]
}

/// The client is as it was, but for the workspace that it holds.
pub open spec fn holds(c: ClientModel, next: ClientModel, held: Option<u64>) -> bool {
    &&& next.held == held
    &&& next.id == c.id && next.live == c.live && next.created == c.created
    &&& next.viewed == c.viewed && next.feeder == c.feeder && next.follow == c.follow
    &&& next.queue == c.queue
}

/// The windows, the anchor and what is remembered of tabs are as they were.
pub open spec fn windows_stay(h: HubModel, next: HubModel) -> bool {
    &&& next.feeders == h.feeders && next.anchor == h.anchor && next.rings == h.rings
    &&& next.home == h.home && next.home_dims == h.home_dims
    &&& next.next_feeder == h.next_feeder && next.next_client == h.next_client
}

/// A message that holds a workspace of the daemon's own notes the client with the
/// workspace and the workspace with the client, and changes nothing else; where
/// there is no such workspace nothing changes.
pub proof fn law_client_holds(h: HubModel, house: House, j: int, ws: u64, k: int)
    requires
        distinct_clients(h.clients),
        0 <= j < h.clients.len(),
    ensures
        ({
            let client = h.clients[j].id;
            let next = h.holding(client, ws);
            let msg = ClientMsg::Hold { workspace_id: ws };
            &&& h.told_acts(client, msg).len() == 0
            &&& h.told(client, msg, next)
            &&& h.session is None ==> next == h
            &&& h.session == Some(house) && is_no_room(house, ws) ==> next == h
            &&& h.session == Some(house) && is_room(house, ws, k) ==> {
                &&& others_stay(h, next, j) && windows_stay(h, next)
                &&& holds(h.clients[j], next.clients[j], Some(ws))
                &&& next.session is Some && next.session->0.rooms.len() == house.rooms.len()
                &&& next.session->0.rooms[k].holders.contains(client)
            }
        }),
{
    lemma_client_at(h.clients, h.clients[j].id);
    law_workspaces_are_found(house, ws, 0, k, 0);
    law_holder_is_noted(house, ws, h.clients[j].id, k);
    let client = h.clients[j].id;
    let next = h.holding(client, ws);
    if h.session == Some(house) && is_room(house, ws, k) {
        assert(house.held(ws, client).rooms[k].holders.contains(client));
    }
}

/// A message that lets go takes the client's hold off the workspace that it
/// holds, which ends where nobody else keeps it.
pub proof fn law_client_lets_go(h: HubModel, j: int, msg: ClientMsg, next: HubModel)
    requires
        distinct_clients(h.clients),
        0 <= j < h.clients.len(),
        msg is Release,
        h.told(h.clients[j].id, msg, next),
    ensures
        h.told_acts(h.clients[j].id, msg).len() == 0,
        others_stay(h, next, j),
        windows_stay(h, next),
        holds(h.clients[j], next.clients[j], None),
        h.session is None ==> next.session is None,
        h.clients[j].held is None ==> next.session == h.session,
        h.session is Some && h.clients[j].held is Some ==> next.session == Some(
            h.session->0.let_go(h.clients[j].held->0, h.clients[j].id, true),
        ),
{
    lemma_client_at(h.clients, h.clients[j].id);
}

/// When a client goes without a word it is no longer there, nobody else changes,
/// and no workspace ends.
pub proof fn law_client_goes(h: HubModel, j: int)
    requires
        distinct_clients(h.clients),
        0 <= j < h.clients.len(),
        h.session is Some ==> forall|k: int|
            0 <= k < h.session->0.rooms.len() ==> (
            #[trigger] h.session->0.rooms[k]).holders.finite(),
    ensures
        ({
            let next = h.without_client(h.clients[j].id);
            &&& next.clients.len() == h.clients.len() - 1
            &&& forall|i: int| 0 <= i < j ==> #[trigger] next.clients[i] == h.clients[i]
            &&& forall|i: int|
                j < i < h.clients.len() ==> next.clients[i - 1] == #[trigger] h.clients[i]
            &&& windows_stay(h, next)
            &&& h.session is None ==> next.session is None
            &&& h.session is Some ==> next.session is Some && next.session->0.rooms.len()
                == h.session->0.rooms.len() && forall|k: int|
                0 <= k < h.session->0.rooms.len() ==> (#[trigger] next.session->0.rooms[k]).id
                    == h.session->0.rooms[k].id && next.session->0.rooms[k].tabs
                    == h.session->0.rooms[k].tabs
        }),
{
    let c = h.clients[j];
    lemma_client_at(h.clients, h.clients[j].id);
    let mid = h.released(c.id, false);
    assert(mid.clients =~= h.clients.update(j, ClientModel { held: None, ..c }));
    assert(distinct_clients(mid.clients)) by {
        assert forall|a: int, b: int| 0 <= a < b < mid.clients.len() implies (
        #[trigger] mid.clients[a]).id != (#[trigger] mid.clients[b]).id by {
            assert(h.clients[a].id != h.clients[b].id);
        }
    }
    lemma_client_at(mid.clients, mid.clients[j].id);
    if let Some(house) = h.session {
        if let Some(ws) = c.held {
            crate::kernel::session::lemma_room_at_is(house.rooms, ws);
            if let Some(w) = crate::kernel::session::room_at(house.rooms, ws) {
                let after = house.let_go(ws, c.id, false);
                assert forall|k: int| 0 <= k < house.rooms.len() implies (
                #[trigger] after.rooms[k]).id == house.rooms[k].id && after.rooms[k].tabs
                    == house.rooms[k].tabs by {
                    if k != w {
                        assert(after.rooms[k] == house.rooms[k]);
                    }
                }
            }
        }
    }
}

/// The other messages: input goes where input for that tab goes and changes
/// nothing; an operation on tabs is one of that client's; a wish to resize
/// concerns the workspace that it names, if that is one of the daemon's own, and
/// its terminals are to get that size.
pub proof fn law_other_messages(
    h: HubModel,
    client: u64,
    ws: u64,
    tab: u64,
    bytes: Vec<u8>,
    op: TabOp,
    cols: u16,
    rows: u16,
    next: HubModel,
    house: House,
    k: int,
)
    ensures
        ({
            let input = ClientMsg::Input { workspace_id: ws, tab_id: tab, bytes };
            let on_tabs = ClientMsg::TabOp { workspace_id: ws, op };
            let resize = ClientMsg::Resize { workspace_id: ws, cols, rows };
            &&& h.told(client, input, next) ==> next == h
            &&& h.told_acts(client, input) == h.input(ws, tab, bytes@)
            &&& h.told(client, on_tabs, next) ==> next == h.tab_op(client, ws, op).hub
            &&& h.told_acts(client, on_tabs) == h.tab_op(client, ws, op).acts
            &&& h.session is None ==> h.told_acts(client, resize).len() == 0 && (h.told(
                client,
                resize,
                next,
            ) ==> next == h)
            &&& h.session == Some(house) && is_no_room(house, ws) ==> h.told_acts(
                client,
                resize,
            ).len() == 0 && (h.told(client, resize, next) ==> next == h)
            &&& h.session == Some(house) && is_room(house, ws, k) ==> {
                &&& h.told_acts(client, resize) == seq![
                    Act::ResizePtys { workspace_id: ws, cols, rows },
                ]
                &&& h.told(client, resize, next) ==> {
                    &&& next.clients == h.clients && windows_stay(h, next)
                    &&& next.session is Some && next.session->0.rooms.len() == house.rooms.len()
                    &&& forall|j: int|
                        0 <= j < house.rooms.len() && j != k ==> #[trigger] next.session->0.rooms[j]
                            == house.rooms[j]
                    &&& next.session->0.rooms[k].tabs.tabs.len() == house.rooms[k].tabs.tabs.len()
                    &&& forall|i: int|
                        0 <= i < house.rooms[k].tabs.tabs.len() ==> {
                            let t = #[trigger] next.session->0.rooms[k].tabs.tabs[i];
                            &&& t.id == house.rooms[k].tabs.tabs[i].id
                            &&& t.title == house.rooms[k].tabs.tabs[i].title
                            &&& cols >= 1 ==> t.screen.facts.columns == cols
                            &&& rows >= 1 ==> t.screen.facts.lines == rows
                        }
                }
            }
        }),
{
    law_workspaces_are_found(house, ws, 0, k, 0);
}

/// Output of the daemon's own terminal, once collected, goes where output of that
/// tab goes; where there is none, to nobody.
pub proof fn law_collected_output(h: HubModel, batch: Seq<u8>)
    ensures
        batch.len() == 0 ==> h.collected(batch).0 == h && h.collected(batch).1.len() == 0,
        batch.len() > 0 ==> h.collected(batch).0 == h.output(h.home.0, h.home.1, batch).hub
            && h.collected(batch).1 == h.output(h.home.0, h.home.1, batch).acts,
{
}

} // verus!
