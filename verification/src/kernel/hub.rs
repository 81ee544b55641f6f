//! The daemon's state: the windows that feed it, the clients that watch, and
//! what becomes of both with every event.
//!
//! The state does no input or output itself. Each event hands back a list of
//! actions, to be done in order.

use crate::kernel::feed::{
    decode_dims, decode_tab_list, dims, encode_into, encode_tab_op, encoded, tab_list,
    tab_op_payload, titled, FeedFrame, FeedTabOp, Frame, FrameKind, TabEntry,
};
use crate::kernel::le::lemma_le_len;
use crate::kernel::proto::{
    ClientMsg, ServerMsg, TabMeta, TabOp, WorkspaceInfo, WorkspaceList, WorkspaceMeta,
};
use crate::kernel::ring::{last_n, total_size, ByteRing, Outbox, OutFrame, Parcel};
use crate::kernel::session::{
    describes, lemma_room_at_is, lemma_session_tabs, lemma_session_wf, lists, room_at, summarizes,
    House, Room, Session,
};
use crate::tab::Tab;
use crate::seqs::{first_where, lemma_filter_take, lemma_first_where, lemma_first_where_is};
use crate::text::{lemma_filter_split, lossy_text};
use vstd::prelude::*;
use vstd::slice::slice_subrange;

verus! {

/// The most clients at a time.
pub const MAX_WS_CONNS: usize = 16;

/// The most bytes that may wait for a client.
pub const WS_CLIENT_OUT_CAP: usize = 1048576;

/// The most bytes that may wait for a window.
pub const FED_BACK_OUT_CAP: usize = 1048576;

/// The most bytes of input in one frame.
pub const FED_INPUT_CHUNK: usize = 65536;

/// The most bytes of a tab's output that are remembered.
pub const BYTE_RING_CAP: usize = 262144;

/// A window that feeds the daemon: a workspace. Its number is 0 until it has
/// told one.
pub struct Feeder {
    pub id: u64,
    pub ws_id: u64,
    pub focus_tab: u64,
    pub tabs: Vec<TabMeta>,
    pub active: usize,
    pub dims: Option<(u16, u16)>,
    /// The client that asked for a new tab and is to be shown it.
    pub pending_new_select: Option<u64>,
    /// When it connected.
    pub created: u64,
}

/// A connection of a client. It is live once it is a socket.
pub struct Client {
    pub id: u64,
    pub live: bool,
    pub created: u64,
    pub held_ws: Option<u64>,
    pub viewed: (u64, u64),
    pub feeder: Option<u64>,
    /// Whether it is shown whatever tab the window's focus is on.
    pub follow: bool,
    pub outbox: Outbox,
}

/// The remembered output of a tab.
pub struct TabRing {
    pub ws: u64,
    pub tab: u64,
    pub ring: ByteRing,
}

/// The daemon's state.
pub struct Hub {
    /// The daemon's own terminals, where no windows feed it.
    pub session: Option<Session>,
    /// The workspace and tab of those.
    pub home: (u64, u64),
    pub home_dims: Option<(u16, u16)>,
    pub feeders: Vec<Feeder>,
    /// The window that new clients are shown.
    pub anchor: Option<u64>,
    pub next_feeder: u64,
    pub clients: Vec<Client>,
    pub next_client: u64,
    pub rings: Vec<TabRing>,
}

/// What is to be done.
#[derive(Debug, PartialEq, Eq)]
pub enum Action {
    /// Send a message to one client, if it is live.
    Tell { client: u64, msg: ServerMsg },
    /// Send a message to all live clients.
    TellAll { msg: ServerMsg },
    /// Send bytes of its tab to one client.
    Replay { client: u64, bytes: Vec<u8> },
    /// Send a frame to a window.
    ToFeeder { feeder: u64, frame: Vec<u8> },
    /// Write input to a terminal of the daemon's own.
    ToPty { tab_id: u64, bytes: Vec<u8> },
    /// Resize the terminals of a workspace of the daemon's own.
    ResizePtys { workspace_id: u64, cols: u16, rows: u16 },
    /// Close a connection.
    DropClient { client: u64 },
    /// End the daemon.
    Stop,
}

/// A tab in a list, as plain values.
#[verifier::ext_equal]
pub ghost struct TabItem {
    pub id: u64,
    pub title: Seq<char>,
}

impl View for TabMeta {
    type V = TabItem;

    open spec fn view(&self) -> TabItem {
        TabItem { id: self.tab_id, title: self.title@ }
    }
}

/// The views of a list of tabs.
pub open spec fn tab_items(s: Seq<TabMeta>) -> Seq<TabItem> {
    s.map_values(|t: TabMeta| t@)
}

/// A window as plain values.
pub ghost struct FeederModel {
    pub id: u64,
    pub ws: u64,
    pub focus: u64,
    pub tabs: Seq<TabItem>,
    pub active: int,
    pub dims: Option<(u16, u16)>,
    pub awaiting: Option<u64>,
    pub created: u64,
}

/// A client as plain values.
pub ghost struct ClientModel {
    pub id: u64,
    pub live: bool,
    pub created: u64,
    pub held: Option<u64>,
    pub viewed: (u64, u64),
    pub feeder: Option<u64>,
    pub follow: bool,
    pub queue: Seq<Parcel>,
}

/// The remembered output of a tab, as plain values.
pub ghost struct RingModel {
    pub ws: u64,
    pub tab: u64,
    pub bytes: Seq<u8>,
}

/// The daemon's state as plain values.
pub ghost struct HubModel {
    pub session: Option<House>,
    pub home: (u64, u64),
    pub home_dims: Option<(u16, u16)>,
    pub feeders: Seq<FeederModel>,
    pub anchor: Option<u64>,
    pub next_feeder: u64,
    pub clients: Seq<ClientModel>,
    pub next_client: u64,
    pub rings: Seq<RingModel>,
}

/// A workspace in a list, as plain values.
#[verifier::ext_equal]
pub ghost struct MetaModel {
    pub id: u64,
    pub title: Seq<char>,
    pub tab_count: int,
    pub active: bool,
}

/// A message as plain values.
pub ghost enum Msg {
    Workspaces { list: Seq<MetaModel>, anchor: u64 },
    Workspace { id: u64, tabs: Seq<TabItem>, active: int, width: int, height: int },
    StreamFocus { workspace_id: u64, tab_id: u64 },
    Dims { cols: u16, rows: u16 },
    Other,
}

/// An action as plain values.
pub ghost enum Act {
    Tell { client: u64, msg: Msg },
    TellAll { msg: Msg },
    Replay { client: u64, bytes: Seq<u8> },
    ToFeeder { feeder: u64, frame: Seq<u8> },
    ToPty { tab_id: u64, bytes: Seq<u8> },
    ResizePtys { workspace_id: u64, cols: u16, rows: u16 },
    DropClient { client: u64 },
    Stop,
}

impl View for WorkspaceMeta {
    type V = MetaModel;

    open spec fn view(&self) -> MetaModel {
        MetaModel {
            id: self.id,
            title: self.title@,
            tab_count: self.tab_count as int,
            active: self.active,
        }
    }
}

/// The views of a list of workspaces.
pub open spec fn metas(s: Seq<WorkspaceMeta>) -> Seq<MetaModel> {
    s.map_values(|m: WorkspaceMeta| m@)
}

impl View for ServerMsg {
    type V = Msg;

    open spec fn view(&self) -> Msg {
        match self {
            ServerMsg::Workspaces(list) => Msg::Workspaces {
                list: metas(list.workspaces@),
                anchor: list.active,
            },
            ServerMsg::Workspace(info) => Msg::Workspace {
                id: info.workspace_id,
                tabs: tab_items(info.tabs@),
                active: info.active as int,
                width: info.cols as int,
                height: info.rows as int,
            },
            ServerMsg::StreamFocus { workspace_id, tab_id } => Msg::StreamFocus {
                workspace_id: *workspace_id,
                tab_id: *tab_id,
            },
            ServerMsg::Dims { cols, rows } => Msg::Dims { cols: *cols, rows: *rows },
            _ => Msg::Other,
        }
    }
}

impl View for Action {
    type V = Act;

    open spec fn view(&self) -> Act {
        match self {
            Action::Tell { client, msg } => Act::Tell { client: *client, msg: msg@ },
            Action::TellAll { msg } => Act::TellAll { msg: msg@ },
            Action::Replay { client, bytes } => Act::Replay { client: *client, bytes: bytes@ },
            Action::ToFeeder { feeder, frame } => Act::ToFeeder { feeder: *feeder, frame: frame@ },
            Action::ToPty { tab_id, bytes } => Act::ToPty { tab_id: *tab_id, bytes: bytes@ },
            Action::ResizePtys { workspace_id, cols, rows } => Act::ResizePtys {
                workspace_id: *workspace_id,
                cols: *cols,
                rows: *rows,
            },
            Action::DropClient { client } => Act::DropClient { client: *client },
            Action::Stop => Act::Stop,
        }
    }
}

/// The views of a list of actions.
pub open spec fn acts(s: Seq<Action>) -> Seq<Act> {
    s.map_values(|a: Action| a@)
}

impl View for Feeder {
    type V = FeederModel;

    open spec fn view(&self) -> FeederModel {
        FeederModel {
            id: self.id,
            ws: self.ws_id,
            focus: self.focus_tab,
            tabs: tab_items(self.tabs@),
            active: self.active as int,
            dims: self.dims,
            awaiting: self.pending_new_select,
            created: self.created,
        }
    }
}

impl View for Client {
    type V = ClientModel;

    open spec fn view(&self) -> ClientModel {
        ClientModel {
            id: self.id,
            live: self.live,
            created: self.created,
            held: self.held_ws,
            viewed: self.viewed,
            feeder: self.feeder,
            follow: self.follow,
            queue: self.outbox@,
        }
    }
}

impl View for TabRing {
    type V = RingModel;

    open spec fn view(&self) -> RingModel {
        RingModel { ws: self.ws, tab: self.tab, bytes: self.ring@ }
    }
}

pub open spec fn feeder_views(s: Seq<Feeder>) -> Seq<FeederModel> {
    s.map_values(|f: Feeder| f@)
}

pub open spec fn client_views(s: Seq<Client>) -> Seq<ClientModel> {
    s.map_values(|c: Client| c@)
}

pub open spec fn ring_views(s: Seq<TabRing>) -> Seq<RingModel> {
    s.map_values(|r: TabRing| r@)
}

impl View for Hub {
    type V = HubModel;

    open spec fn view(&self) -> HubModel {
        HubModel {
            session: match self.session {
                Some(s) => Some(s@),
                None => None,
            },
            home: self.home,
            home_dims: self.home_dims,
            feeders: feeder_views(self.feeders@),
            anchor: self.anchor,
            next_feeder: self.next_feeder,
            clients: client_views(self.clients@),
            next_client: self.next_client,
            rings: ring_views(self.rings@),
        }
    }
}

/// The position of the window with this number.
pub open spec fn feeder_at(s: Seq<FeederModel>, id: u64) -> Option<int> {
    first_where(s, |f: FeederModel| f.id == id)
}

/// The position of the first window with this workspace.
pub open spec fn feeder_for_ws(s: Seq<FeederModel>, ws: u64) -> Option<int> {
    first_where(s, |f: FeederModel| f.ws == ws)
}

/// The position of the client with this number.
pub open spec fn client_at(s: Seq<ClientModel>, id: u64) -> Option<int> {
    first_where(s, |c: ClientModel| c.id == id)
}

/// The position of the remembered output of a tab.
pub open spec fn ring_at(s: Seq<RingModel>, ws: u64, tab: u64) -> Option<int> {
    first_where(s, |r: RingModel| r.ws == ws && r.tab == tab)
}

/// The position of a tab in a list.
pub open spec fn tab_at(s: Seq<TabItem>, tab: u64) -> Option<int> {
    first_where(s, |t: TabItem| t.id == tab)
}

/// The first tab of a list that is not in another.
pub open spec fn first_new(s: Seq<TabItem>, before: Seq<TabItem>) -> Option<int> {
    first_where(s, |t: TabItem| tab_at(before, t.id) is None)
}

/// A state and what is to be done.
pub ghost struct Step {
    pub hub: HubModel,
    pub acts: Seq<Act>,
}

/// The workspace of a window in a list: the title is that of its active tab.
pub open spec fn feeder_meta(f: FeederModel, anchor_ws: u64) -> MetaModel {
    MetaModel {
        id: f.ws,
        title: if 0 <= f.active < f.tabs.len() {
            f.tabs[f.active].title
        } else {
            seq![]
        },
        tab_count: f.tabs.len() as int,
        active: f.ws == anchor_ws,
    }
}

/// The tabs of a window. The size is the default until it has told one.
pub open spec fn feeder_info(f: FeederModel) -> Msg {
    let (width, height) = match f.dims {
        Some((c, r)) => (c as int, r as int),
        None => (80int, 24int),
    };
    Msg::Workspace { id: f.ws, tabs: f.tabs, active: f.active, width, height }
}

/// The number of leading windows with a smaller workspace.
pub open spec fn ws_place(s: Seq<FeederModel>, ws: u64) -> int
    decreases s.len(),
{
    if s.len() > 0 && s[0].ws < ws {
        1 + ws_place(s.skip(1), ws)
    } else {
        0
    }
}

/// The windows that have told a workspace, ordered by it.
pub open spec fn by_workspace(s: Seq<FeederModel>) -> Seq<FeederModel>
    decreases s.len(),
{
    if s.len() == 0 {
        seq![]
    } else {
        let rest = by_workspace(s.skip(1));
        if s[0].ws == 0 {
            rest
        } else {
            rest.insert(ws_place(rest, s[0].ws), s[0])
        }
    }
}

impl HubModel {
    /// The workspace of the anchor, 0 without one.
    pub open spec fn anchor_ws(self) -> u64 {
        match self.anchor {
            Some(a) => match feeder_at(self.feeders, a) {
                Some(i) => self.feeders[i].ws,
                None => 0,
            },
            None => 0,
        }
    }

    /// The list of all windows' workspaces.
    pub open spec fn workspaces(self) -> Msg {
        Msg::Workspaces {
            list: by_workspace(self.feeders).map_values(
                |f: FeederModel| feeder_meta(f, self.anchor_ws()),
            ),
            anchor: self.anchor_ws(),
        }
    }

    /// The remembered output of a tab.
    pub open spec fn memory(self, ws: u64, tab: u64) -> Seq<u8> {
        match ring_at(self.rings, ws, tab) {
            Some(i) => self.rings[i].bytes,
            None => seq![],
        }
    }

    /// With a client shown another tab, if it is live: it is told, and sent
    /// what is remembered of the tab.
    pub open spec fn pointed(self, id: u64, ws: u64, tab: u64, follow: bool) -> Step {
        match client_at(self.clients, id) {
            Some(i) => if self.clients[i].live {
                Step {
                    hub: HubModel {
                        clients: self.clients.update(
                            i,
                            ClientModel { viewed: (ws, tab), follow, ..self.clients[i] },
                        ),
                        ..self
                    },
                    acts: seq![
                        Act::Tell {
                            client: id,
                            msg: Msg::StreamFocus { workspace_id: ws, tab_id: tab },
                        },
                    ] + (if self.memory(ws, tab).len() > 0 {
                        seq![Act::Replay { client: id, bytes: self.memory(ws, tab) }]
                    } else {
                        seq![]
                    }),
                }
            } else {
                Step { hub: self, acts: seq![] }
            },
            None => Step { hub: self, acts: seq![] },
        }
    }

    /// With the first `n` clients of a list shown another tab, following the
    /// focus.
    pub open spec fn pointed_all(self, ids: Seq<u64>, n: int, ws: u64, tab: u64) -> Step
        decreases n,
    {
        if n <= 0 {
            Step { hub: self, acts: seq![] }
        } else {
            let prev = self.pointed_all(ids, n - 1, ws, tab);
            let next = prev.hub.pointed(ids[n - 1], ws, tab, true);
            Step { hub: next.hub, acts: prev.acts + next.acts }
        }
    }

    /// What is told once the tabs or the focus of a window have changed: the
    /// list of workspaces, and the window's tabs.
    pub open spec fn news(self, feeder: u64) -> Seq<Act> {
        seq![Act::TellAll { msg: self.workspaces() }] + (match feeder_at(self.feeders, feeder) {
            Some(i) => seq![Act::TellAll { msg: feeder_info(self.feeders[i]) }],
            None => seq![],
        })
    }

    /// With another window in place of the one at `i`.
    pub open spec fn with_feeder(self, i: int, f: FeederModel) -> HubModel {
        HubModel { feeders: self.feeders.update(i, f), ..self }
    }

    /// With another client in place of the one at `i`.
    pub open spec fn with_client(self, i: int, c: ClientModel) -> HubModel {
        HubModel { clients: self.clients.update(i, c), ..self }
    }
}

/// The numbers of the clients that satisfy `p`.
pub open spec fn chosen(s: Seq<ClientModel>, p: spec_fn(ClientModel) -> bool) -> Seq<u64> {
    s.filter(p).map_values(|c: ClientModel| c.id)
}

/// A live client that watches a window and follows its focus.
pub open spec fn follows(feeder: u64) -> spec_fn(ClientModel) -> bool {
    |c: ClientModel| c.live && c.follow && c.feeder == Some(feeder)
}

/// A live client that watches a window and is shown a tab that it does not
/// have.
pub open spec fn stranded(feeder: u64, tabs: Seq<TabItem>) -> spec_fn(ClientModel) -> bool {
    |c: ClientModel| c.live && c.feeder == Some(feeder) && tab_at(tabs, c.viewed.1) is None
}

/// A client that watches a window.
pub open spec fn watches(feeder: u64) -> spec_fn(ClientModel) -> bool {
    |c: ClientModel| c.feeder == Some(feeder)
}

impl HubModel {
    /// After the focus of a window has moved.
    pub open spec fn focus_moved(self, feeder: u64, ws: u64, tab: u64) -> Step {
        match feeder_at(self.feeders, feeder) {
            None => Step { hub: self, acts: seq![] },
            Some(k) => {
                let f = self.feeders[k];
                let told = self.with_feeder(
                    k,
                    FeederModel {
                        ws,
                        focus: tab,
                        active: match tab_at(f.tabs, tab) {
                            Some(i) => i,
                            None => f.active,
                        },
                        ..f
                    },
                );
                let ids = chosen(told.clients, follows(feeder));
                let shown = told.pointed_all(ids, ids.len() as int, ws, tab);
                Step { hub: shown.hub, acts: shown.acts + shown.hub.news(feeder) }
            },
        }
    }

    /// With the tabs of a window replaced, and what is remembered of closed
    /// ones forgotten.
    pub open spec fn with_tabs(
        self,
        k: int,
        ws: u64,
        active: int,
        focus: u64,
        tabs: Seq<TabItem>,
    ) -> HubModel {
        let f = self.feeders[k];
        HubModel {
            rings: self.rings.filter(
                |r: RingModel| r.ws != ws || tab_at(tabs, r.tab) is Some,
            ),
            ..self.with_feeder(k, FeederModel { ws, tabs, active, focus, ..f })
        }
    }

    /// With the client that asked for a new tab shown it, once there is one.
    pub open spec fn served(
        self,
        feeder: u64,
        ws: u64,
        focus: u64,
        tabs: Seq<TabItem>,
        before: Seq<TabItem>,
    ) -> Step {
        let k = feeder_at(self.feeders, feeder)->0;
        match self.feeders[k].awaiting {
            None => Step { hub: self, acts: seq![] },
            Some(client) => {
                let target = if tab_at(before, focus) is None {
                    Some(focus)
                } else {
                    match first_new(tabs, before) {
                        Some(i) => Some(tabs[i].id),
                        None => None,
                    }
                };
                match target {
                    None => Step { hub: self, acts: seq![] },
                    Some(tab) => {
                        let asked = self.with_feeder(
                            k,
                            FeederModel { awaiting: None, ..self.feeders[k] },
                        );
                        asked.moved_to(client, feeder).pointed(client, ws, tab, false)
                    },
                }
            },
        }
    }

    /// With a client watching another window.
    pub open spec fn moved_to(self, client: u64, feeder: u64) -> HubModel {
        match client_at(self.clients, client) {
            Some(i) => self.with_client(
                i,
                ClientModel { feeder: Some(feeder), ..self.clients[i] },
            ),
            None => self,
        }
    }

    /// After a window has told its tabs. Clients that were shown a closed tab
    /// are shown the focus.
    pub open spec fn tabs_told(
        self,
        feeder: u64,
        ws: u64,
        active: int,
        tabs: Seq<TabItem>,
    ) -> Step {
        match feeder_at(self.feeders, feeder) {
            None => Step { hub: self, acts: seq![] },
            Some(k) => {
                let f = self.feeders[k];
                let at = if active < tabs.len() {
                    active
                } else if tabs.len() > 0 {
                    tabs.len() - 1
                } else {
                    0
                };
                let focus = if at < tabs.len() {
                    tabs[at].id
                } else {
                    f.focus
                };
                let told = self.with_tabs(k, ws, at, focus, tabs);
                let ids = chosen(told.clients, stranded(feeder, tabs));
                let shown = told.pointed_all(ids, ids.len() as int, ws, focus);
                let last = shown.hub.served(feeder, ws, focus, tabs, f.tabs);
                Step { hub: last.hub, acts: shown.acts + shown.hub.news(feeder) + last.acts }
            },
        }
    }
}

/// Whether `a` connected before `b`.
pub open spec fn older(a: FeederModel, b: FeederModel) -> bool {
    a.created < b.created || (a.created == b.created && a.id < b.id)
}

/// The position of the window that connected first.
pub open spec fn oldest(s: Seq<FeederModel>) -> Option<int>
    decreases s.len(),
{
    if s.len() == 0 {
        None
    } else {
        match oldest(s.drop_last()) {
            None => Some(s.len() - 1),
            Some(i) => if older(s.last(), s[i]) {
                Some(s.len() - 1)
            } else {
                Some(i)
            },
        }
    }
}

impl HubModel {
    /// Without the window at `k` and what is remembered of its tabs. Where it
    /// was the anchor, the oldest that is left becomes it.
    pub open spec fn without_feeder(self, k: int) -> HubModel {
        let f = self.feeders[k];
        let left = self.feeders.remove(k);
        HubModel {
            feeders: left,
            rings: self.rings.filter(|r: RingModel| r.ws != f.ws),
            anchor: if self.anchor == Some(f.id) {
                match oldest(left) {
                    Some(i) => Some(left[i].id),
                    None => None,
                }
            } else {
                self.anchor
            },
            ..self
        }
    }

    /// With a client whose window is gone shown the anchor's focus.
    pub open spec fn rescued(self, client: u64) -> Step {
        let freed = match client_at(self.clients, client) {
            Some(i) => self.with_client(
                i,
                ClientModel { feeder: self.anchor, follow: true, ..self.clients[i] },
            ),
            None => self,
        };
        match self.anchor {
            None => Step { hub: freed, acts: seq![] },
            Some(a) => {
                let (ws, tab) = match feeder_at(self.feeders, a) {
                    Some(i) => (self.feeders[i].ws, self.feeders[i].focus),
                    None => (0u64, 0u64),
                };
                freed.pointed(client, ws, tab, true)
            },
        }
    }

    /// With the first `n` clients of a list rescued.
    pub open spec fn rescued_all(self, ids: Seq<u64>, n: int) -> Step
        decreases n,
    {
        if n <= 0 {
            Step { hub: self, acts: seq![] }
        } else {
            let prev = self.rescued_all(ids, n - 1);
            let next = prev.hub.rescued(ids[n - 1]);
            Step { hub: next.hub, acts: prev.acts + next.acts }
        }
    }

    /// After a window is gone. The daemon ends with the last one, unless it
    /// has terminals of its own.
    pub open spec fn feeder_gone(self, feeder: u64) -> Step {
        match feeder_at(self.feeders, feeder) {
            None => Step { hub: self, acts: seq![] },
            Some(k) => {
                let left = self.without_feeder(k);
                let ids = chosen(left.clients, watches(feeder));
                let moved = left.rescued_all(ids, ids.len() as int);
                Step {
                    hub: moved.hub,
                    acts: moved.acts + seq![Act::TellAll { msg: moved.hub.workspaces() }] + (
                    if moved.hub.session is None && moved.hub.feeders.len() == 0 {
                        seq![Act::Stop]
                    } else {
                        seq![]
                    }),
                }
            },
        }
    }

    /// After a window has connected: live clients without one watch it.
    pub open spec fn feeder_came(self, created: u64) -> Step {
        let id = self.next_feeder;
        let hub = HubModel {
            feeders: self.feeders.push(
                FeederModel {
                    id,
                    ws: 0,
                    focus: 0,
                    tabs: seq![],
                    active: 0,
                    dims: None,
                    awaiting: None,
                    created,
                },
            ),
            next_feeder: ((id + 1) % 0x1_0000_0000_0000_0000) as u64,
            anchor: if self.anchor is None {
                Some(id)
            } else {
                self.anchor
            },
            clients: self.clients.map_values(
                |c: ClientModel|
                    if c.live && c.feeder is None {
                        ClientModel { feeder: Some(id), follow: true, ..c }
                    } else {
                        c
                    },
            ),
            ..self
        };
        Step { hub, acts: seq![Act::TellAll { msg: hub.workspaces() }] }
    }
}

/// `a` followed by one more action.
pub proof fn lemma_acts_push(a: Seq<Action>, x: Action)
    ensures
        acts(a.push(x)) == acts(a).push(x@),
{
    assert(acts(a.push(x)) =~= acts(a).push(x@));
}

/// A copy of the bytes.
fn copied(b: &[u8]) -> (r: Vec<u8>)
    ensures
        r@ == b@,
{
    let mut out: Vec<u8> = Vec::new();
    out.extend_from_slice(b);
    assert(out@ =~= b@);
    out
}

/// The position of a tab in a list.
fn find_tab(tabs: &Vec<TabMeta>, tab: u64) -> (r: Option<usize>)
    ensures
        match r {
            Some(i) => tab_at(tab_items(tabs@), tab) == Some(i as int) && i < tabs@.len(),
            None => tab_at(tab_items(tabs@), tab) is None,
        },
{
    let ghost all = tab_items(tabs@);
    let ghost p = |t: TabItem| t.id == tab;
    let mut i: usize = 0;
    while i < tabs.len()
        invariant
            all == tab_items(tabs@),
            i <= tabs@.len() == all.len(),
            p == (|t: TabItem| t.id == tab),
            forall|j: int| 0 <= j < i ==> !p(#[trigger] all[j]),
        decreases tabs@.len() - i,
    {
        assert(all[i as int] == tabs@[i as int]@);
        if tabs[i].tab_id == tab {
            proof {
                lemma_first_where(all, p, i as int);
            }
            return Some(i);
        }
        i = i + 1;
    }
    proof {
        lemma_first_where(all, p, i as int);
    }
    None
}

/// The first tab of a list that is not in another.
fn find_new(tabs: &Vec<TabMeta>, before: &Vec<TabMeta>) -> (r: Option<usize>)
    ensures
        match r {
            Some(i) => first_new(tab_items(tabs@), tab_items(before@)) == Some(i as int) && i
                < tabs@.len(),
            None => first_new(tab_items(tabs@), tab_items(before@)) is None,
        },
{
    let ghost all = tab_items(tabs@);
    let ghost p = |t: TabItem| tab_at(tab_items(before@), t.id) is None;
    let mut i: usize = 0;
    while i < tabs.len()
        invariant
            all == tab_items(tabs@),
            i <= tabs@.len() == all.len(),
            p == (|t: TabItem| tab_at(tab_items(before@), t.id) is None),
            forall|j: int| 0 <= j < i ==> !p(#[trigger] all[j]),
        decreases tabs@.len() - i,
    {
        assert(all[i as int] == tabs@[i as int]@);
        if find_tab(before, tabs[i].tab_id).is_none() {
            proof {
                lemma_first_where(all, p, i as int);
            }
            return Some(i);
        }
        i = i + 1;
    }
    proof {
        lemma_first_where(all, p, i as int);
    }
    None
}

impl Hub {
    /// What every daemon keeps: the queues are valid; no more is remembered of
    /// a tab than fits; of its own terminals, where it has any, every workspace
    /// has a tab and one is anchored.
    pub open spec fn inv(&self) -> bool {
        &&& forall|i: int| 0 <= i < self.clients@.len() ==> (#[trigger] self.clients@[i]).outbox.inv()
        &&& forall|i: int|
            0 <= i < self.rings@.len() ==> (#[trigger] self.rings@[i]).ring.limit() == BYTE_RING_CAP
                && self.rings@[i].ring@.len() <= BYTE_RING_CAP
        &&& self.session matches Some(s) ==> s.inv() && s@.peopled() && anchored(s@)
    }

    /// A daemon that windows will feed.
    pub fn new_fed() -> (r: Self)
        ensures
            r.inv(),
            r@ == (HubModel {
                session: None,
                home: (0, 0),
                home_dims: None,
                feeders: seq![],
                anchor: None,
                next_feeder: 1,
                clients: seq![],
                next_client: 1,
                rings: seq![],
            }),
    {
        let r = Hub {
            session: None,
            home: (0, 0),
            home_dims: None,
            feeders: Vec::new(),
            anchor: None,
            next_feeder: 1,
            clients: Vec::new(),
            next_client: 1,
            rings: Vec::new(),
        };
        assert(r@.feeders =~= seq![]);
        assert(r@.clients =~= seq![]);
        assert(r@.rings =~= seq![]);
        r
    }

    /// A daemon with terminals of its own, of this size.
    pub fn new_local(session: Session, tab_id: u64, cols: u16, rows: u16) -> (r: Self)
        requires
            session.inv(),
            session@.rooms.len() > 0,
            session@.peopled(),
            anchored(session@),
        ensures
            r.inv(),
            r@ == (HubModel {
                session: Some(session@),
                home: (session@.rooms[session@.active].id, tab_id),
                home_dims: Some((cols, rows)),
                feeders: seq![],
                anchor: None,
                next_feeder: 1,
                clients: seq![],
                next_client: 1,
                rings: seq![],
            }),
    {
        let ws: u64 = session.active_workspace_id();
        let r = Hub {
            session: Some(session),
            home: (ws, tab_id),
            home_dims: Some((cols, rows)),
            feeders: Vec::new(),
            anchor: None,
            next_feeder: 1,
            clients: Vec::new(),
            next_client: 1,
            rings: Vec::new(),
        };
        assert(r@.feeders =~= seq![]);
        assert(r@.clients =~= seq![]);
        assert(r@.rings =~= seq![]);
        r
    }

    /// The position of the window with this number.
    fn find_feeder(&self, id: u64) -> (r: Option<usize>)
        ensures
            match r {
                Some(i) => feeder_at(self@.feeders, id) == Some(i as int) && i
                    < self.feeders@.len(),
                None => feeder_at(self@.feeders, id) is None,
            },
    {
        let ghost p = |f: FeederModel| f.id == id;
        let mut i: usize = 0;
        while i < self.feeders.len()
            invariant
                i <= self.feeders@.len() == self@.feeders.len(),
                p == (|f: FeederModel| f.id == id),
                forall|j: int| 0 <= j < i ==> !p(#[trigger] self@.feeders[j]),
            decreases self.feeders@.len() - i,
        {
            assert(self@.feeders[i as int] == self.feeders@[i as int]@);
            if self.feeders[i].id == id {
                proof {
                    lemma_first_where(self@.feeders, p, i as int);
                }
                return Some(i);
            }
            i = i + 1;
        }
        proof {
            lemma_first_where(self@.feeders, p, i as int);
        }
        None
    }

    /// The position of the first window with this workspace.
    fn find_feeder_for_ws(&self, ws: u64) -> (r: Option<usize>)
        ensures
            match r {
                Some(i) => feeder_for_ws(self@.feeders, ws) == Some(i as int) && i
                    < self.feeders@.len(),
                None => feeder_for_ws(self@.feeders, ws) is None,
            },
    {
        let ghost p = |f: FeederModel| f.ws == ws;
        let mut i: usize = 0;
        while i < self.feeders.len()
            invariant
                i <= self.feeders@.len() == self@.feeders.len(),
                p == (|f: FeederModel| f.ws == ws),
                forall|j: int| 0 <= j < i ==> !p(#[trigger] self@.feeders[j]),
            decreases self.feeders@.len() - i,
        {
            assert(self@.feeders[i as int] == self.feeders@[i as int]@);
            if self.feeders[i].ws_id == ws {
                proof {
                    lemma_first_where(self@.feeders, p, i as int);
                }
                return Some(i);
            }
            i = i + 1;
        }
        proof {
            lemma_first_where(self@.feeders, p, i as int);
        }
        None
    }

    /// The position of the client with this number.
    fn find_client(&self, id: u64) -> (r: Option<usize>)
        ensures
            match r {
                Some(i) => client_at(self@.clients, id) == Some(i as int) && i
                    < self.clients@.len() && self.clients@[i as int].id == id,
                None => client_at(self@.clients, id) is None,
            },
    {
        let ghost p = |c: ClientModel| c.id == id;
        let mut i: usize = 0;
        while i < self.clients.len()
            invariant
                i <= self.clients@.len() == self@.clients.len(),
                p == (|c: ClientModel| c.id == id),
                forall|j: int| 0 <= j < i ==> !p(#[trigger] self@.clients[j]),
            decreases self.clients@.len() - i,
        {
            assert(self@.clients[i as int] == self.clients@[i as int]@);
            if self.clients[i].id == id {
                proof {
                    lemma_first_where(self@.clients, p, i as int);
                }
                return Some(i);
            }
            i = i + 1;
        }
        proof {
            lemma_first_where(self@.clients, p, i as int);
        }
        None
    }

    /// The position of the remembered output of a tab.
    fn find_ring(&self, ws: u64, tab: u64) -> (r: Option<usize>)
        ensures
            match r {
                Some(i) => ring_at(self@.rings, ws, tab) == Some(i as int) && i
                    < self.rings@.len(),
                None => ring_at(self@.rings, ws, tab) is None,
            },
    {
        let ghost p = |r: RingModel| r.ws == ws && r.tab == tab;
        let mut i: usize = 0;
        while i < self.rings.len()
            invariant
                i <= self.rings@.len() == self@.rings.len(),
                p == (|r: RingModel| r.ws == ws && r.tab == tab),
                forall|j: int| 0 <= j < i ==> !p(#[trigger] self@.rings[j]),
            decreases self.rings@.len() - i,
        {
            assert(self@.rings[i as int] == self.rings@[i as int]@);
            if self.rings[i].ws == ws && self.rings[i].tab == tab {
                proof {
                    lemma_first_where(self@.rings, p, i as int);
                }
                return Some(i);
            }
            i = i + 1;
        }
        proof {
            lemma_first_where(self@.rings, p, i as int);
        }
        None
    }

    /// The remembered output of a tab.
    fn remembered(&self, ws: u64, tab: u64) -> (r: Vec<u8>)
        ensures
            r@ == self@.memory(ws, tab),
    {
        match self.find_ring(ws, tab) {
            Some(i) => self.rings[i].ring.snapshot(),
            None => Vec::new(),
        }
    }

    /// Shows a client another tab.
    fn point(&mut self, id: u64, ws: u64, tab: u64, follow: bool, out: &mut Vec<Action>)
        requires
            old(self).inv(),
        ensures
            final(self).inv(),
            final(self)@ == old(self)@.pointed(id, ws, tab, follow).hub,
            acts(final(out)@) == acts(old(out)@) + old(self)@.pointed(id, ws, tab, follow).acts,
    {
        let ghost start = acts(out@);
        assert(start + Seq::<Act>::empty() =~= start);
        let i: usize = match self.find_client(id) {
            Some(i) => i,
            None => {
                return;
            },
        };
        assert(self@.clients[i as int] == self.clients@[i as int]@);
        if !self.clients[i].live {
            return;
        }
        let replay: Vec<u8> = self.remembered(ws, tab);
        let c = &mut self.clients[i];
        c.viewed = (ws, tab);
        c.follow = follow;
        proof {
            assert(self@.clients =~= old(self)@.clients.update(
                i as int,
                ClientModel { viewed: (ws, tab), follow, ..old(self)@.clients[i as int] },
            ));
        }
        let tell = Action::Tell {
            client: id,
            msg: ServerMsg::StreamFocus { workspace_id: ws, tab_id: tab },
        };
        let ghost told = tell@;
        proof {
            lemma_acts_push(out@, tell);
        }
        out.push(tell);
        if replay.len() > 0 {
            let bytes = Action::Replay { client: id, bytes: replay };
            proof {
                lemma_acts_push(out@, bytes);
                assert(acts(out@).push(bytes@) =~= start + (seq![told] + seq![bytes@]));
            }
            out.push(bytes);
        } else {
            assert(start.push(told) =~= start + (seq![told] + Seq::<Act>::empty()));
        }
    }

    /// Shows clients another tab, following the focus.
    fn point_all(&mut self, ids: &Vec<u64>, ws: u64, tab: u64, out: &mut Vec<Action>)
        requires
            old(self).inv(),
        ensures
            final(self).inv(),
            final(self)@ == old(self)@.pointed_all(ids@, ids@.len() as int, ws, tab).hub,
            acts(final(out)@) == acts(old(out)@) + old(self)@.pointed_all(
                ids@,
                ids@.len() as int,
                ws,
                tab,
            ).acts,
    {
        let ghost start = acts(out@);
        let mut i: usize = 0;
        assert(start + Seq::<Act>::empty() =~= start);
        while i < ids.len()
            invariant
                i <= ids@.len(),
                self.inv(),
                self@ == old(self)@.pointed_all(ids@, i as int, ws, tab).hub,
                acts(out@) == start + old(self)@.pointed_all(ids@, i as int, ws, tab).acts,
            decreases ids@.len() - i,
        {
            let ghost prev = old(self)@.pointed_all(ids@, i as int, ws, tab);
            let ghost next = prev.hub.pointed(ids@[i as int], ws, tab, true);
            self.point(ids[i], ws, tab, true, out);
            assert((start + prev.acts) + next.acts =~= start + (prev.acts + next.acts));
            i = i + 1;
        }
    }

    /// The windows that have told a workspace, ordered by it: their positions.
    fn order(&self) -> (r: Vec<usize>)
        ensures
            r@.map_values(|i: usize| self@.feeders[i as int]) == by_workspace(self@.feeders),
            forall|k: int| 0 <= k < r@.len() ==> (#[trigger] r@[k]) < self.feeders@.len(),
    {
        let ghost all = self@.feeders;
        let mut out: Vec<usize> = Vec::new();
        let mut i: usize = self.feeders.len();
        assert(all.skip(all.len() as int) =~= Seq::<FeederModel>::empty());
        assert(out@.map_values(|k: usize| all[k as int]) =~= by_workspace(all.skip(i as int)));
        while i > 0
            invariant
                all == self@.feeders,
                i <= self.feeders@.len() == all.len(),
                out@.map_values(|k: usize| all[k as int]) == by_workspace(all.skip(i as int)),
                forall|k: int| 0 <= k < out@.len() ==> (#[trigger] out@[k]) < self.feeders@.len(),
            decreases i,
        {
            i = i - 1;
            let ghost rest = by_workspace(all.skip(i + 1));
            proof {
                assert(all.skip(i as int)[0] == all[i as int]);
                assert(all.skip(i as int).skip(1) =~= all.skip(i + 1));
                assert(all[i as int] == self.feeders@[i as int]@);
            }
            let ws: u64 = self.feeders[i].ws_id;
            if ws != 0 {
                let mut p: usize = 0;
                while p < out.len() && self.feeders[out[p]].ws_id < ws
                    invariant
                        all == self@.feeders,
                        i < self.feeders@.len() == all.len(),
                        p <= out@.len(),
                        rest == out@.map_values(|k: usize| all[k as int]),
                        forall|k: int|
                            0 <= k < out@.len() ==> (#[trigger] out@[k]) < self.feeders@.len(),
                        forall|k: int| 0 <= k < p ==> (#[trigger] rest[k]).ws < ws,
                    decreases out@.len() - p,
                {
                    assert(rest[p as int] == self.feeders@[out@[p as int] as int]@);
                    p = p + 1;
                }
                proof {
                    if p < out@.len() {
                        assert(rest[p as int] == self.feeders@[out@[p as int] as int]@);
                    }
                    lemma_ws_place(rest, ws, p as int);
                }
                let ghost before = out@;
                out.insert(p, i);
                assert(out@.map_values(|k: usize| all[k as int]) =~= rest.insert(
                    p as int,
                    all[i as int],
                ));
            }
        }
        assert(all.skip(0) =~= all);
        out
    }

    /// The workspace of the anchor, 0 without one.
    fn anchor_workspace(&self) -> (r: u64)
        ensures
            r == self@.anchor_ws(),
    {
        match self.anchor {
            Some(a) => match self.find_feeder(a) {
                Some(i) => {
                    assert(self@.feeders[i as int] == self.feeders@[i as int]@);
                    self.feeders[i].ws_id
                },
                None => 0,
            },
            None => 0,
        }
    }

    /// The list of all windows' workspaces.
    pub fn aggregate_workspace_list(&self) -> (r: WorkspaceList)
        ensures
            ServerMsg::Workspaces(r)@ == self@.workspaces(),
    {
        let active: u64 = self.anchor_workspace();
        let order: Vec<usize> = self.order();
        let mut workspaces: Vec<WorkspaceMeta> = Vec::new();
        let ghost sorted = by_workspace(self@.feeders);
        let ghost whole = sorted.map_values(|f: FeederModel| feeder_meta(f, active));
        let mut i: usize = 0;
        assert(metas(workspaces@) =~= whole.take(0));
        while i < order.len()
            invariant
                i <= order@.len() == sorted.len(),
                sorted == order@.map_values(|k: usize| self@.feeders[k as int]),
                whole == sorted.map_values(|f: FeederModel| feeder_meta(f, active)),
                forall|k: int|
                    0 <= k < order@.len() ==> (#[trigger] order@[k]) < self.feeders@.len(),
                metas(workspaces@) == whole.take(i as int),
            decreases order@.len() - i,
        {
            let f: &Feeder = &self.feeders[order[i]];
            assert(sorted[i as int] == f@);
            let title: String = if f.active < f.tabs.len() {
                f.tabs[f.active].title.clone()
            } else {
                String::new()
            };
            let ghost before = workspaces@;
            let meta = WorkspaceMeta {
                id: f.ws_id,
                title,
                tab_count: f.tabs.len(),
                active: f.ws_id == active,
            };
            proof {
                assert(meta@ =~= feeder_meta(f@, active));
                assert(metas(before.push(meta)) =~= metas(before).push(meta@));
                assert(whole.take(i + 1) =~= whole.take(i as int).push(whole[i as int]));
            }
            workspaces.push(meta);
            i = i + 1;
        }
        assert(whole.take(whole.len() as int) =~= whole);
        WorkspaceList { workspaces, active }
    }

    /// The tabs of the window at `i`.
    fn info_of(&self, i: usize) -> (r: WorkspaceInfo)
        requires
            i < self.feeders@.len(),
        ensures
            ServerMsg::Workspace(r)@ == feeder_info(self@.feeders[i as int]),
    {
        let f: &Feeder = &self.feeders[i];
        assert(self@.feeders[i as int] == f@);
        let (cols, rows): (usize, usize) = match f.dims {
            Some((c, r)) => (c as usize, r as usize),
            None => (80, 24),
        };
        let tabs: Vec<TabMeta> = f.tabs.clone();
        assert(tab_items(tabs@) =~= tab_items(f.tabs@));
        WorkspaceInfo { workspace_id: f.ws_id, tabs, active: f.active, cols, rows }
    }

    /// Tells all clients the list of workspaces and the tabs of a window.
    fn tell_news(&self, feeder: u64, out: &mut Vec<Action>)
        ensures
            acts(final(out)@) == acts(old(out)@) + self@.news(feeder),
    {
        let ghost start = acts(out@);
        let list = Action::TellAll { msg: ServerMsg::Workspaces(self.aggregate_workspace_list()) };
        let ghost first = list@;
        proof {
            lemma_acts_push(out@, list);
        }
        out.push(list);
        match self.find_feeder(feeder) {
            Some(i) => {
                let info = Action::TellAll { msg: ServerMsg::Workspace(self.info_of(i)) };
                proof {
                    lemma_acts_push(out@, info);
                    assert(start.push(first).push(info@) =~= start + (seq![first] + seq![info@]));
                }
                out.push(info);
            },
            None => {
                assert(start.push(first) =~= start + (seq![first] + Seq::<Act>::empty()));
            },
        }
    }

    /// The live clients that watch a window and follow its focus.
    fn choose_followers(&self, feeder: u64) -> (ids: Vec<u64>)
        ensures
            ids@ == chosen(self@.clients, follows(feeder)),
    {
        let ghost all = self@.clients;
        let ghost p = follows(feeder);
        let mut ids: Vec<u64> = Vec::new();
        let mut i: usize = 0;
        reveal(Seq::filter);
        assert(ids@ =~= chosen(all.take(0), p));
        while i < self.clients.len()
            invariant
                self@.clients == all,
                i <= self.clients@.len() == all.len(),
                p == follows(feeder),
                ids@ == chosen(all.take(i as int), p),
            decreases self.clients@.len() - i,
        {
            let c: &Client = &self.clients[i];
            proof {
                assert(all[i as int] == c@);
                lemma_chosen_take(all, p, i as int);
            }
            if c.live && c.follow && is_some_and(c.feeder, feeder) {
                ids.push(c.id);
            }
            i = i + 1;
        }
        assert(all.take(i as int) =~= all);
        ids
    }

    /// The live clients that watch a window and are shown a tab that is not
    /// listed.
    fn choose_stranded(&self, feeder: u64, tabs: &Vec<TabMeta>) -> (ids: Vec<u64>)
        ensures
            ids@ == chosen(self@.clients, stranded(feeder, tab_items(tabs@))),
    {
        let ghost all = self@.clients;
        let ghost p = stranded(feeder, tab_items(tabs@));
        let mut ids: Vec<u64> = Vec::new();
        let mut i: usize = 0;
        reveal(Seq::filter);
        assert(ids@ =~= chosen(all.take(0), p));
        while i < self.clients.len()
            invariant
                self@.clients == all,
                i <= self.clients@.len() == all.len(),
                p == stranded(feeder, tab_items(tabs@)),
                ids@ == chosen(all.take(i as int), p),
            decreases self.clients@.len() - i,
        {
            let c: &Client = &self.clients[i];
            proof {
                assert(all[i as int] == c@);
                lemma_chosen_take(all, p, i as int);
            }
            if c.live && is_some_and(c.feeder, feeder) && find_tab(tabs, c.viewed.1).is_none() {
                ids.push(c.id);
            }
            i = i + 1;
        }
        assert(all.take(i as int) =~= all);
        ids
    }

    /// The clients that watch a window.
    fn choose_watchers(&self, feeder: u64) -> (ids: Vec<u64>)
        ensures
            ids@ == chosen(self@.clients, watches(feeder)),
    {
        let ghost all = self@.clients;
        let ghost p = watches(feeder);
        let mut ids: Vec<u64> = Vec::new();
        let mut i: usize = 0;
        reveal(Seq::filter);
        assert(ids@ =~= chosen(all.take(0), p));
        while i < self.clients.len()
            invariant
                self@.clients == all,
                i <= self.clients@.len() == all.len(),
                p == watches(feeder),
                ids@ == chosen(all.take(i as int), p),
            decreases self.clients@.len() - i,
        {
            let c: &Client = &self.clients[i];
            proof {
                assert(all[i as int] == c@);
                lemma_chosen_take(all, p, i as int);
            }
            if is_some_and(c.feeder, feeder) {
                ids.push(c.id);
            }
            i = i + 1;
        }
        assert(all.take(i as int) =~= all);
        ids
    }

    /// Takes that the focus of a window has moved.
    pub fn feeder_focus_changed(&mut self, feeder: u64, ws: u64, tab: u64, out: &mut Vec<Action>)
        requires
            old(self).inv(),
        ensures
            final(self).inv(),
            final(self)@ == old(self)@.focus_moved(feeder, ws, tab).hub,
            acts(final(out)@) == acts(old(out)@) + old(self)@.focus_moved(feeder, ws, tab).acts,
    {
        let ghost start = acts(out@);
        let k: usize = match self.find_feeder(feeder) {
            Some(k) => k,
            None => {
                assert(start + Seq::<Act>::empty() =~= start);
                return;
            },
        };
        assert(self@.feeders[k as int] == self.feeders@[k as int]@);
        let found: Option<usize> = find_tab(&self.feeders[k].tabs, tab);
        let f = &mut self.feeders[k];
        f.ws_id = ws;
        f.focus_tab = tab;
        if let Some(i) = found {
            f.active = i;
        }
        let ghost told = self@;
        proof {
            let before = old(self)@.feeders[k as int];
            assert(told.feeders =~= old(self)@.feeders.update(
                k as int,
                FeederModel {
                    ws,
                    focus: tab,
                    active: match tab_at(before.tabs, tab) {
                        Some(i) => i,
                        None => before.active,
                    },
                    ..before
                },
            ));
        }
        let ids: Vec<u64> = self.choose_followers(feeder);
        self.point_all(&ids, ws, tab, out);
        let ghost shown = told.pointed_all(ids@, ids@.len() as int, ws, tab);
        self.tell_news(feeder, out);
        assert(start + shown.acts + shown.hub.news(feeder) =~= start + (shown.acts
            + shown.hub.news(feeder)));
    }
}

/// Whether the option holds this number.
fn is_some_and(a: Option<u64>, v: u64) -> (b: bool)
    ensures
        b == (a == Some(v)),
{
    match a {
        Some(x) => x == v,
        None => false,
    }
}

/// One of the workspaces is anchored.
pub open spec fn anchored(h: House) -> bool {
    exists|i: int| 0 <= i < h.rooms.len() && (#[trigger] h.rooms[i]).anchored
}

proof fn lemma_ws_place(s: Seq<FeederModel>, ws: u64, p: int)
    requires
        0 <= p <= s.len(),
        forall|k: int| 0 <= k < p ==> (#[trigger] s[k]).ws < ws,
        p < s.len() ==> s[p].ws >= ws,
    ensures
        ws_place(s, ws) == p,
    decreases p,
{
    if p > 0 {
        assert(s[0].ws < ws);
        assert forall|k: int| 0 <= k < p - 1 implies (#[trigger] s.skip(1)[k]).ws < ws by {
            assert(s.skip(1)[k] == s[k + 1]);
        }
        lemma_ws_place(s.skip(1), ws, p - 1);
    }
}

proof fn lemma_chosen_take(s: Seq<ClientModel>, p: spec_fn(ClientModel) -> bool, i: int)
    requires
        0 <= i < s.len(),
    ensures
        chosen(s.take(i + 1), p) == (if p(s[i]) {
            chosen(s.take(i), p).push(s[i].id)
        } else {
            chosen(s.take(i), p)
        }),
{
    lemma_filter_take(s, p, i);
    if p(s[i]) {
        assert(chosen(s.take(i + 1), p) =~= chosen(s.take(i), p).push(s[i].id));
    }
}

proof fn lemma_filter_remove<A>(s: Seq<A>, p: spec_fn(A) -> bool, i: int)
    requires
        0 <= i < s.len(),
        !p(s[i]),
    ensures
        s.remove(i).filter(p) == s.filter(p),
{
    let a = s.take(i);
    let b = s.skip(i + 1);
    assert(s =~= (a + seq![s[i]]) + b);
    assert(s.remove(i) =~= a + b);
    lemma_filter_split(a, b, p);
    lemma_filter_split(a + seq![s[i]], b, p);
    lemma_filter_split(a, seq![s[i]], p);
    reveal_with_fuel(Seq::filter, 2);
    assert(seq![s[i]].drop_last() =~= Seq::<A>::empty());
    assert(a.filter(p) + seq![s[i]].filter(p) =~= a.filter(p));
}

proof fn lemma_filter_all<A>(s: Seq<A>, p: spec_fn(A) -> bool)
    requires
        forall|i: int| 0 <= i < s.len() ==> p(#[trigger] s[i]),
    ensures
        s.filter(p) == s,
    decreases s.len(),
{
    reveal(Seq::filter);
    if s.len() > 0 {
        lemma_filter_all(s.drop_last(), p);
        assert(s =~= s.drop_last().push(s.last()));
    } else {
        assert(s.filter(p) =~= s);
    }
}

/// What is remembered and is kept: what is not of a workspace, and of it what
/// is of a listed tab.
pub open spec fn kept(ws: u64, tabs: Option<Seq<TabItem>>) -> spec_fn(RingModel) -> bool {
    match tabs {
        Some(tabs) => |r: RingModel| r.ws != ws || tab_at(tabs, r.tab) is Some,
        None => |r: RingModel| r.ws != ws,
    }
}

impl Hub {
    /// Forgets the output of a workspace, but for that of listed tabs.
    fn forget(&mut self, ws: u64, tabs: Option<&Vec<TabMeta>>)
        requires
            old(self).inv(),
        ensures
            final(self).inv(),
            final(self)@ == (HubModel {
                rings: old(self)@.rings.filter(
                    kept(
                        ws,
                        match tabs {
                            Some(t) => Some(tab_items(t@)),
                            None => None,
                        },
                    ),
                ),
                ..old(self)@
            }),
    {
        let ghost p = kept(
            ws,
            match tabs {
                Some(t) => Some(tab_items(t@)),
                None => None,
            },
        );
        let mut i: usize = 0;
        while i < self.rings.len()
            invariant
                self.inv(),
                i <= self.rings@.len(),
                p == kept(
                    ws,
                    match tabs {
                        Some(t) => Some(tab_items(t@)),
                        None => None,
                    },
                ),
                self@ == (HubModel { rings: self@.rings, ..old(self)@ }),
                self@.rings.filter(p) == old(self)@.rings.filter(p),
                forall|j: int| 0 <= j < i ==> p(#[trigger] self@.rings[j]),
            decreases self.rings@.len() - i,
        {
            let ghost before = self@.rings;
            assert(before[i as int] == self.rings@[i as int]@);
            let keep: bool = self.rings[i].ws != ws || match tabs {
                Some(t) => find_tab(t, self.rings[i].tab).is_some(),
                None => false,
            };
            assert(keep == p(before[i as int]));
            if keep {
                i = i + 1;
            } else {
                let _ = self.rings.remove(i);
                proof {
                    assert(self@.rings =~= before.remove(i as int));
                    lemma_filter_remove(before, p, i as int);
                }
            }
        }
        proof {
            lemma_filter_all(self@.rings, p);
        }
    }

    /// Makes a client watch another window.
    fn move_client(&mut self, client: u64, feeder: u64)
        requires
            old(self).inv(),
        ensures
            final(self).inv(),
            final(self)@ == old(self)@.moved_to(client, feeder),
    {
        if let Some(i) = self.find_client(client) {
            assert(self@.clients[i as int] == self.clients@[i as int]@);
            let c = &mut self.clients[i];
            c.feeder = Some(feeder);
            proof {
                assert(self@.clients =~= old(self)@.clients.update(
                    i as int,
                    ClientModel { feeder: Some(feeder), ..old(self)@.clients[i as int] },
                ));
            }
        }
    }

    /// Shows the client that asked for a new tab the new one.
    fn serve_new_tab(
        &mut self,
        feeder: u64,
        ws: u64,
        focus: u64,
        before: &Vec<TabMeta>,
        out: &mut Vec<Action>,
    )
        requires
            old(self).inv(),
            feeder_at(old(self)@.feeders, feeder) is Some,
        ensures
            final(self).inv(),
            ({
                let k = feeder_at(old(self)@.feeders, feeder)->0;
                let step = old(self)@.served(
                    feeder,
                    ws,
                    focus,
                    old(self)@.feeders[k].tabs,
                    tab_items(before@),
                );
                final(self)@ == step.hub && acts(final(out)@) == acts(old(out)@) + step.acts
            }),
    {
        assert(acts(out@) + Seq::<Act>::empty() =~= acts(out@));
        let k: usize = match self.find_feeder(feeder) {
            Some(k) => k,
            None => {
                return;
            },
        };
        assert(self@.feeders[k as int] == self.feeders@[k as int]@);
        let client: u64 = match self.feeders[k].pending_new_select {
            Some(c) => c,
            None => {
                return;
            },
        };
        let target: Option<u64> = if find_tab(before, focus).is_none() {
            Some(focus)
        } else {
            match find_new(&self.feeders[k].tabs, before) {
                Some(i) => {
                    assert(tab_items(self.feeders@[k as int].tabs@)[i as int]
                        == self.feeders@[k as int].tabs@[i as int]@);
                    Some(self.feeders[k].tabs[i].tab_id)
                },
                None => None,
            }
        };
        if let Some(tab) = target {
            let f = &mut self.feeders[k];
            f.pending_new_select = None;
            proof {
                assert(self@.feeders =~= old(self)@.feeders.update(
                    k as int,
                    FeederModel { awaiting: None, ..old(self)@.feeders[k as int] },
                ));
            }
            self.move_client(client, feeder);
            self.point(client, ws, tab, false, out);
        }
    }

    /// Takes the tabs that a window has told.
    pub fn feeder_tab_list_updated(
        &mut self,
        feeder: u64,
        ws: u64,
        active: usize,
        tabs: Vec<TabMeta>,
        out: &mut Vec<Action>,
    )
        requires
            old(self).inv(),
        ensures
            final(self).inv(),
            final(self)@ == old(self)@.tabs_told(
                feeder,
                ws,
                active as int,
                tab_items(tabs@),
            ).hub,
            acts(final(out)@) == acts(old(out)@) + old(self)@.tabs_told(
                feeder,
                ws,
                active as int,
                tab_items(tabs@),
            ).acts,
    {
        let ghost start = acts(out@);
        let k: usize = match self.find_feeder(feeder) {
            Some(k) => k,
            None => {
                assert(start + Seq::<Act>::empty() =~= start);
                return;
            },
        };
        let ghost f0 = self@.feeders[k as int];
        let ghost list = tab_items(tabs@);
        assert(f0 == self.feeders@[k as int]@);
        let n: usize = tabs.len();
        let at: usize = if active < n {
            active
        } else if n > 0 {
            n - 1
        } else {
            0
        };
        assert(at < n ==> list[at as int] == tabs@[at as int]@);
        let focus: u64 = if at < n {
            tabs[at].tab_id
        } else {
            self.feeders[k].focus_tab
        };
        let before: Vec<TabMeta> = self.feeders[k].tabs.clone();
        assert(tab_items(before@) =~= f0.tabs);
        self.forget(ws, Some(&tabs));
        let ids: Vec<u64> = self.choose_stranded(feeder, &tabs);
        let f = &mut self.feeders[k];
        f.ws_id = ws;
        f.tabs = tabs;
        f.active = at;
        f.focus_tab = focus;
        let ghost told = self@;
        proof {
            assert(told.feeders =~= old(self)@.feeders.update(
                k as int,
                FeederModel { ws, tabs: list, active: at as int, focus, ..f0 },
            ));
            assert(told.rings == old(self)@.with_tabs(k as int, ws, at as int, focus, list).rings);
            assert(told == old(self)@.with_tabs(k as int, ws, at as int, focus, list));
        }
        self.point_all(&ids, ws, focus, out);
        let ghost shown = told.pointed_all(ids@, ids@.len() as int, ws, focus);
        self.tell_news(feeder, out);
        proof {
            lemma_pointed_all_feeders(told, ids@, ids@.len() as int, ws, focus);
            lemma_first_where_is(old(self)@.feeders, |f: FeederModel| f.id == feeder);
            lemma_feeder_updated(old(self)@.feeders, k as int, told.feeders[k as int], feeder);
        }
        self.serve_new_tab(feeder, ws, focus, &before, out);
        let ghost last = shown.hub.served(feeder, ws, focus, list, f0.tabs);
        assert((start + shown.acts + shown.hub.news(feeder)) + last.acts =~= start + (shown.acts
            + shown.hub.news(feeder) + last.acts));
    }

    /// The window that connected first, of those that are left.
    fn oldest_feeder(&self) -> (r: Option<u64>)
        ensures
            r == match oldest(self@.feeders) {
                Some(i) => Some(self@.feeders[i].id),
                None => None,
            },
    {
        let ghost all = self@.feeders;
        let n: usize = self.feeders.len();
        if n == 0 {
            return None;
        }
        let mut best: usize = 0;
        let mut i: usize = 1;
        proof {
            assert(all.take(1).drop_last() =~= Seq::<FeederModel>::empty());
            assert(oldest(Seq::<FeederModel>::empty()) is None);
            assert(oldest(all.take(1)) == Some(0int));
        }
        while i < n
            invariant
                all == self@.feeders,
                1 <= i <= n == self.feeders@.len() == all.len(),
                best < i,
                oldest(all.take(i as int)) == Some(best as int),
            decreases n - i,
        {
            let a: &Feeder = &self.feeders[i];
            let b: &Feeder = &self.feeders[best];
            proof {
                assert(all[i as int] == a@ && all[best as int] == b@);
                assert(all.take(i + 1).drop_last() =~= all.take(i as int));
                assert(all.take(i + 1).last() == all[i as int]);
                assert(all.take(i + 1)[best as int] == all[best as int]);
            }
            if a.created < b.created || (a.created == b.created && a.id < b.id) {
                best = i;
            }
            i = i + 1;
        }
        assert(all.take(n as int) =~= all);
        assert(all[best as int] == self.feeders@[best as int]@);
        Some(self.feeders[best].id)
    }

    /// Shows a client whose window is gone the anchor's focus.
    fn rescue(&mut self, client: u64, out: &mut Vec<Action>)
        requires
            old(self).inv(),
        ensures
            final(self).inv(),
            final(self)@ == old(self)@.rescued(client).hub,
            acts(final(out)@) == acts(old(out)@) + old(self)@.rescued(client).acts,
    {
        let anchor: Option<u64> = self.anchor;
        if let Some(i) = self.find_client(client) {
            assert(self@.clients[i as int] == self.clients@[i as int]@);
            let c = &mut self.clients[i];
            c.feeder = anchor;
            c.follow = true;
            proof {
                assert(self@.clients =~= old(self)@.clients.update(
                    i as int,
                    ClientModel { feeder: anchor, follow: true, ..old(self)@.clients[i as int] },
                ));
            }
        }
        match anchor {
            None => {
                assert(acts(out@) + Seq::<Act>::empty() =~= acts(out@));
            },
            Some(a) => {
                let (ws, tab): (u64, u64) = match self.find_feeder(a) {
                    Some(i) => {
                        assert(self@.feeders[i as int] == self.feeders@[i as int]@);
                        (self.feeders[i].ws_id, self.feeders[i].focus_tab)
                    },
                    None => (0, 0),
                };
                self.point(client, ws, tab, true, out);
            },
        }
    }

    /// Takes that a window is gone.
    pub fn feeder_teardown(&mut self, feeder: u64, out: &mut Vec<Action>)
        requires
            old(self).inv(),
        ensures
            final(self).inv(),
            final(self)@ == old(self)@.feeder_gone(feeder).hub,
            acts(final(out)@) == acts(old(out)@) + old(self)@.feeder_gone(feeder).acts,
    {
        let ghost start = acts(out@);
        let k: usize = match self.find_feeder(feeder) {
            Some(k) => k,
            None => {
                assert(start + Seq::<Act>::empty() =~= start);
                return;
            },
        };
        proof {
            lemma_first_where_is(self@.feeders, |f: FeederModel| f.id == feeder);
        }
        let gone: Feeder = self.feeders.remove(k);
        assert(gone@ == old(self)@.feeders[k as int]);
        assert(self@.feeders =~= old(self)@.feeders.remove(k as int));
        self.forget(gone.ws_id, None);
        if is_some_and(self.anchor, feeder) {
            self.anchor = self.oldest_feeder();
        }
        let ghost left = self@;
        assert(left == old(self)@.without_feeder(k as int));
        let ids: Vec<u64> = self.choose_watchers(feeder);
        let mut j: usize = 0;
        assert(start + Seq::<Act>::empty() =~= start);
        while j < ids.len()
            invariant
                j <= ids@.len(),
                self.inv(),
                self@ == left.rescued_all(ids@, j as int).hub,
                acts(out@) == start + left.rescued_all(ids@, j as int).acts,
            decreases ids@.len() - j,
        {
            let ghost prev = left.rescued_all(ids@, j as int);
            let ghost next = prev.hub.rescued(ids@[j as int]);
            self.rescue(ids[j], out);
            assert((start + prev.acts) + next.acts =~= start + (prev.acts + next.acts));
            j = j + 1;
        }
        let ghost moved = left.rescued_all(ids@, ids@.len() as int);
        let list = Action::TellAll { msg: ServerMsg::Workspaces(self.aggregate_workspace_list()) };
        let ghost told = list@;
        proof {
            lemma_acts_push(out@, list);
        }
        out.push(list);
        if self.session.is_none() && self.feeders.len() == 0 {
            proof {
                lemma_acts_push(out@, Action::Stop);
                assert((start + moved.acts).push(told).push(Act::Stop) =~= start + (moved.acts
                    + seq![told] + seq![Act::Stop]));
            }
            out.push(Action::Stop);
        } else {
            assert((start + moved.acts).push(told) =~= start + (moved.acts + seq![told]
                + Seq::<Act>::empty()));
        }
    }

    /// Takes that a window has connected. Returns its number.
    pub fn attach_feeder(&mut self, created: u64, out: &mut Vec<Action>) -> (id: u64)
        requires
            old(self).inv(),
        ensures
            final(self).inv(),
            id == old(self)@.next_feeder,
            final(self)@ == old(self)@.feeder_came(created).hub,
            acts(final(out)@) == acts(old(out)@) + old(self)@.feeder_came(created).acts,
    {
        let ghost start = acts(out@);
        let id: u64 = self.next_feeder;
        self.next_feeder = self.next_feeder.wrapping_add(1);
        let f = Feeder {
            id,
            ws_id: 0,
            focus_tab: 0,
            tabs: Vec::new(),
            active: 0,
            dims: None,
            pending_new_select: None,
            created,
        };
        let ghost fresh = f@;
        assert(fresh.tabs =~= seq![]);
        self.feeders.push(f);
        assert(self@.feeders =~= old(self)@.feeders.push(fresh));
        if self.anchor.is_none() {
            self.anchor = Some(id);
        }
        let ghost goal = old(self)@.feeder_came(created).hub;
        let n: usize = self.clients.len();
        let mut i: usize = 0;
        while i < n
            invariant
                self.inv(),
                i <= n == self.clients@.len() == old(self)@.clients.len(),
                self@ == (HubModel { clients: self@.clients, ..goal }),
                goal.clients.len() == n,
                forall|j: int|
                    0 <= j < n ==> #[trigger] goal.clients[j] == (if old(self)@.clients[j].live
                        && old(self)@.clients[j].feeder is None {
                        ClientModel { feeder: Some(id), follow: true, ..old(self)@.clients[j] }
                    } else {
                        old(self)@.clients[j]
                    }),
                forall|j: int| 0 <= j < i ==> #[trigger] self@.clients[j] == goal.clients[j],
                forall|j: int|
                    i <= j < n ==> #[trigger] self@.clients[j] == old(self)@.clients[j],
            decreases n - i,
        {
            let ghost before = self@.clients;
            assert(before[i as int] == self.clients@[i as int]@);
            assert(goal.clients[i as int] == goal.clients[i as int]);
            if self.clients[i].live && self.clients[i].feeder.is_none() {
                let c = &mut self.clients[i];
                c.feeder = Some(id);
                c.follow = true;
                assert(self@.clients =~= before.update(i as int, goal.clients[i as int]));
            }
            i = i + 1;
        }
        assert(self@.clients =~= goal.clients);
        let list = Action::TellAll { msg: ServerMsg::Workspaces(self.aggregate_workspace_list()) };
        proof {
            lemma_acts_push(out@, list);
            assert(start.push(list@) =~= start + seq![list@]);
        }
        out.push(list);
        id
    }
}

proof fn lemma_pointed_all_feeders(h: HubModel, ids: Seq<u64>, n: int, ws: u64, tab: u64)
    ensures
        h.pointed_all(ids, n, ws, tab).hub.feeders == h.feeders,
        h.pointed_all(ids, n, ws, tab).hub.session == h.session,
    decreases n,
{
    if n > 0 {
        lemma_pointed_all_feeders(h, ids, n - 1, ws, tab);
    }
}

/// A window that is changed but keeps its number is still found.
proof fn lemma_feeder_updated(s: Seq<FeederModel>, k: int, f: FeederModel, id: u64)
    requires
        feeder_at(s, id) == Some(k),
        f.id == id,
    ensures
        feeder_at(s.update(k, f), id) == Some(k),
        0 <= k < s.len(),
{
    let p = |f: FeederModel| f.id == id;
    lemma_first_where_is(s, p);
    let t = s.update(k, f);
    assert forall|j: int| 0 <= j < k implies !p(#[trigger] t[j]) by {
        assert(t[j] == s[j]);
    }
    lemma_first_where(t, p, k);
}

/// Input in frames of at most `FED_INPUT_CHUNK` bytes.
pub open spec fn input_frames(feeder: u64, ws: u64, tab: u64, bytes: Seq<u8>) -> Seq<Act>
    decreases bytes.len(),
{
    if bytes.len() == 0 {
        seq![]
    } else {
        let n = if bytes.len() < FED_INPUT_CHUNK {
            bytes.len() as int
        } else {
            FED_INPUT_CHUNK as int
        };
        seq![
            Act::ToFeeder {
                feeder,
                frame: encoded(
                    Frame {
                        kind: FrameKind::Input,
                        ws_id: ws,
                        tab_id: tab,
                        payload: bytes.take(n),
                    },
                ),
            },
        ] + input_frames(feeder, ws, tab, bytes.skip(n))
    }
}

/// A live client that is shown a tab.
pub open spec fn sees(ws: u64, tab: u64) -> spec_fn(ClientModel) -> bool {
    |c: ClientModel| c.live && c.viewed == (ws, tab)
}

/// A live client that is shown a tab and for which too much waits.
pub open spec fn clogged(ws: u64, tab: u64) -> spec_fn(ClientModel) -> bool {
    |c: ClientModel| c.live && c.viewed == (ws, tab) && total_size(c.queue) > WS_CLIENT_OUT_CAP
}

/// The connections to be closed.
pub open spec fn drops(ids: Seq<u64>) -> Seq<Act> {
    ids.map_values(|id: u64| Act::DropClient { client: id })
}

/// Messages to one client.
pub open spec fn tells(client: u64, msgs: Seq<Msg>) -> Seq<Act> {
    msgs.map_values(|m: Msg| Act::Tell { client, msg: m })
}

/// The tabs that a payload lists, titles read as text.
pub open spec fn listed(es: Seq<TabEntry>) -> Seq<TabItem> {
    es.map_values(|e: TabEntry| TabItem { id: e.id, title: lossy_text(e.title) })
}

impl HubModel {
    /// What is remembered once a tab has given output.
    pub open spec fn remembering(self, ws: u64, tab: u64, bytes: Seq<u8>) -> Seq<RingModel> {
        match ring_at(self.rings, ws, tab) {
            Some(i) => self.rings.update(
                i,
                RingModel {
                    bytes: last_n(self.rings[i].bytes + bytes, BYTE_RING_CAP as nat),
                    ..self.rings[i]
                },
            ),
            None => self.rings.push(
                RingModel { ws, tab, bytes: last_n(bytes, BYTE_RING_CAP as nat) },
            ),
        }
    }

    /// After a tab has given output: it is remembered, and queued for the
    /// clients that are shown the tab. Those for which too much waits are
    /// closed.
    pub open spec fn output(self, ws: u64, tab: u64, bytes: Seq<u8>) -> Step {
        let clients = self.clients.map_values(
            |c: ClientModel|
                if c.live && c.viewed == (ws, tab) {
                    ClientModel { queue: c.queue.push(Parcel::Bytes(bytes)), ..c }
                } else {
                    c
                },
        );
        Step {
            hub: HubModel { rings: self.remembering(ws, tab, bytes), clients, ..self },
            acts: drops(chosen(clients, clogged(ws, tab))),
        }
    }

    /// What input for a tab leads to.
    pub open spec fn input(self, ws: u64, tab: u64, bytes: Seq<u8>) -> Seq<Act> {
        if self.session is Some {
            seq![Act::ToPty { tab_id: tab, bytes }]
        } else {
            match feeder_for_ws(self.feeders, ws) {
                Some(k) => input_frames(self.feeders[k].id, ws, tab, bytes),
                None => seq![],
            }
        }
    }

    /// An operation on tabs that a window is asked for.
    pub open spec fn forwarded(self, feeder: u64, op: FeedTabOp) -> Seq<Act> {
        match feeder_at(self.feeders, feeder) {
            Some(i) => seq![
                Act::ToFeeder {
                    feeder,
                    frame: encoded(
                        Frame {
                            kind: FrameKind::TabOp,
                            ws_id: self.feeders[i].ws,
                            tab_id: match op {
                                FeedTabOp::Close { tab_id } => tab_id,
                                _ => 0,
                            },
                            payload: tab_op_payload(op),
                        },
                    ),
                },
            ],
            None => seq![],
        }
    }

    /// The window that a client watches.
    pub open spec fn watched(self, client: u64) -> Option<u64> {
        match client_at(self.clients, client) {
            Some(i) => self.clients[i].feeder,
            None => None,
        }
    }

    /// The window that a client's operation is for: that of the workspace, or
    /// the one that it watches.
    pub open spec fn target(self, client: u64, ws: u64) -> Option<u64> {
        match feeder_for_ws(self.feeders, ws) {
            Some(k) => Some(self.feeders[k].id),
            None => self.watched(client),
        }
    }

    /// The window in which a client's new tab is opened: that of the workspace,
    /// or the anchor, or the one that it watches.
    pub open spec fn new_tab_target(self, client: u64, ws: u64) -> Option<u64> {
        match feeder_for_ws(self.feeders, ws) {
            Some(k) => Some(self.feeders[k].id),
            None => if self.anchor is Some {
                self.anchor
            } else {
                self.watched(client)
            },
        }
    }

    /// After a client's operation on tabs. To select a tab concerns this
    /// client alone; the others are the window's to do.
    pub open spec fn tab_op(self, client: u64, ws: u64, op: TabOp) -> Step {
        let nothing = Step { hub: self, acts: seq![] };
        if self.feeders.len() == 0 {
            nothing
        } else {
            match op {
                TabOp::Select { idx } => match feeder_for_ws(self.feeders, ws) {
                    Some(k) => {
                        let f = self.feeders[k];
                        if idx < f.tabs.len() {
                            self.moved_to(client, f.id).pointed(
                                client,
                                f.ws,
                                f.tabs[idx as int].id,
                                false,
                            )
                        } else {
                            nothing
                        }
                    },
                    None => nothing,
                },
                TabOp::New => match self.new_tab_target(client, ws) {
                    Some(t) => {
                        let hub = match feeder_at(self.feeders, t) {
                            Some(k) => self.with_feeder(
                                k,
                                FeederModel { awaiting: Some(client), ..self.feeders[k] },
                            ),
                            None => self,
                        };
                        Step { hub, acts: hub.forwarded(t, FeedTabOp::New) }
                    },
                    None => nothing,
                },
                TabOp::Close { tab_id } => match self.target(client, ws) {
                    Some(t) => Step {
                        hub: self,
                        acts: self.forwarded(t, FeedTabOp::Close { tab_id }),
                    },
                    None => nothing,
                },
                TabOp::Reorder { origin, target } => match self.target(client, ws) {
                    Some(t) => Step {
                        hub: self,
                        acts: self.forwarded(
                            t,
                            FeedTabOp::Reorder {
                                origin: (origin as int % 0x1_0000_0000) as u32,
                                target: (target as int % 0x1_0000_0000) as u32,
                            },
                        ),
                    },
                    None => nothing,
                },
                TabOp::SetTitle { tab_id, title } => nothing,
            }
        }
    }

    /// With a window's workspace told.
    pub open spec fn ws_told(self, feeder: u64, ws: u64) -> HubModel {
        match feeder_at(self.feeders, feeder) {
            Some(k) => self.with_feeder(k, FeederModel { ws, ..self.feeders[k] }),
            None => self,
        }
    }

    /// After a window has told its size: the clients that watch it are told.
    pub open spec fn dims_told(self, feeder: u64, ws: u64, cols: u16, rows: u16) -> Step {
        match feeder_at(self.feeders, feeder) {
            Some(k) => Step {
                hub: self.with_feeder(
                    k,
                    FeederModel { ws, dims: Some((cols, rows)), ..self.feeders[k] },
                ),
                acts: chosen(self.clients, watches(feeder)).map_values(
                    |id: u64| Act::Tell { client: id, msg: Msg::Dims { cols, rows } },
                ),
            },
            None => Step { hub: self, acts: seq![] },
        }
    }

    /// After a frame from a window. One whose payload cannot be read, or that
    /// goes the other way, changes nothing.
    pub open spec fn frame_came(self, feeder: u64, frame: Frame) -> Step {
        match frame.kind {
            FrameKind::PtyOutput => {
                let hub = self.ws_told(feeder, frame.ws_id);
                if frame.payload.len() > 0 {
                    hub.output(frame.ws_id, frame.tab_id, frame.payload)
                } else {
                    Step { hub, acts: seq![] }
                }
            },
            FrameKind::FocusChange => self.focus_moved(feeder, frame.ws_id, frame.tab_id),
            FrameKind::Dims => match dims(frame.payload) {
                Some((cols, rows)) => self.dims_told(feeder, frame.ws_id, cols, rows),
                None => Step { hub: self, acts: seq![] },
            },
            FrameKind::TabList => match tab_list(frame.payload) {
                Some((active, es)) => self.tabs_told(feeder, frame.ws_id, active, listed(es)),
                None => Step { hub: self, acts: seq![] },
            },
            _ => Step { hub: self, acts: seq![] },
        }
    }
}

impl Hub {
    /// Takes output of a tab.
    pub fn fan_out_tab_bytes(&mut self, ws: u64, tab: u64, batch: &[u8], out: &mut Vec<Action>)
        requires
            old(self).inv(),
        ensures
            final(self).inv(),
            final(self)@ == old(self)@.output(ws, tab, batch@).hub,
            acts(final(out)@) == acts(old(out)@) + old(self)@.output(ws, tab, batch@).acts,
    {
        let ghost goal = old(self)@.output(ws, tab, batch@);
        let ghost start = acts(out@);
        match self.find_ring(ws, tab) {
            Some(i) => {
                assert(self@.rings[i as int] == self.rings@[i as int]@);
                let r = &mut self.rings[i];
                r.ring.push(batch);
                assert(self@.rings =~= goal.hub.rings);
            },
            None => {
                let mut ring: ByteRing = ByteRing::new(BYTE_RING_CAP);
                ring.push(batch);
                assert(Seq::<u8>::empty() + batch@ =~= batch@);
                self.rings.push(TabRing { ws, tab, ring });
                assert(self@.rings =~= goal.hub.rings);
            },
        }
        let n: usize = self.clients.len();
        let ghost all = goal.hub.clients;
        let ghost p = clogged(ws, tab);
        let mut i: usize = 0;
        reveal(Seq::filter);
        assert(drops(chosen(all.take(0), p)) =~= seq![]);
        assert(start + Seq::<Act>::empty() =~= start);
        while i < n
            invariant
                self.inv(),
                i <= n == self.clients@.len() == old(self)@.clients.len(),
                goal == old(self)@.output(ws, tab, batch@),
                all == goal.hub.clients,
                all.len() == n,
                p == clogged(ws, tab),
                self@ == (HubModel { clients: self@.clients, ..goal.hub }),
                forall|j: int| 0 <= j < i ==> #[trigger] self@.clients[j] == all[j],
                forall|j: int|
                    i <= j < n ==> #[trigger] self@.clients[j] == old(self)@.clients[j],
                acts(out@) == start + drops(chosen(all.take(i as int), p)),
            decreases n - i,
        {
            let ghost before = self@.clients;
            assert(before[i as int] == self.clients@[i as int]@);
            assert(before[i as int] == old(self)@.clients[i as int]);
            proof {
                lemma_chosen_take(all, p, i as int);
            }
            if self.clients[i].live && self.clients[i].viewed.0 == ws && self.clients[i].viewed.1
                == tab {
                let frame: OutFrame = OutFrame::Bytes(copied(batch));
                let c = &mut self.clients[i];
                c.outbox.push(frame);
                assert(self@.clients =~= before.update(i as int, all[i as int]));
                assert(self@.clients[i as int] == self.clients@[i as int]@);
                if self.clients[i].outbox.exceeds(WS_CLIENT_OUT_CAP) {
                    let drop = Action::DropClient { client: self.clients[i].id };
                    proof {
                        lemma_acts_push(out@, drop);
                        let ids = chosen(all.take(i as int), p);
                        assert((start + drops(ids)).push(drop@) =~= start + drops(
                            ids.push(all[i as int].id),
                        ));
                    }
                    out.push(drop);
                }
            } else {
                assert(all[i as int] == before[i as int]);
            }
            i = i + 1;
        }
        assert(self@.clients =~= all);
        assert(all.take(n as int) =~= all);
    }

    /// Routes input for a tab: to a terminal of the daemon's own, or in frames
    /// to the window whose workspace it is.
    pub fn route_input(&self, ws: u64, tab: u64, bytes: &[u8], out: &mut Vec<Action>)
        ensures
            acts(final(out)@) == acts(old(out)@) + self@.input(ws, tab, bytes@),
    {
        let ghost start = acts(out@);
        if self.session.is_some() {
            let a = Action::ToPty { tab_id: tab, bytes: copied(bytes) };
            proof {
                lemma_acts_push(out@, a);
                assert(start.push(a@) =~= start + seq![a@]);
            }
            out.push(a);
            return;
        }
        let k: usize = match self.find_feeder_for_ws(ws) {
            Some(k) => k,
            None => {
                assert(start + Seq::<Act>::empty() =~= start);
                return;
            },
        };
        assert(self@.feeders[k as int] == self.feeders@[k as int]@);
        let feeder: u64 = self.feeders[k].id;
        let n: usize = bytes.len();
        let mut at: usize = 0;
        assert(bytes@.skip(0) =~= bytes@);
        while at < n
            invariant
                at <= n == bytes@.len(),
                acts(out@) + input_frames(feeder, ws, tab, bytes@.skip(at as int)) == start
                    + input_frames(feeder, ws, tab, bytes@),
            decreases n - at,
        {
            let ghost rest = bytes@.skip(at as int);
            let size: usize = if n - at < FED_INPUT_CHUNK {
                n - at
            } else {
                FED_INPUT_CHUNK
            };
            let chunk: &[u8] = slice_subrange(bytes, at, at + size);
            assert(chunk@ =~= rest.take(size as int));
            let mut frame: Vec<u8> = Vec::new();
            encode_into(&mut frame, FrameKind::Input, ws, tab, chunk);
            let ghost f = Frame {
                kind: FrameKind::Input,
                ws_id: ws,
                tab_id: tab,
                payload: chunk@,
            };
            assert(frame@ =~= encoded(f));
            let a = Action::ToFeeder { feeder, frame };
            proof {
                lemma_acts_push(out@, a);
                let tail = input_frames(feeder, ws, tab, rest.skip(size as int));
                assert(acts(out@) + (seq![a@] + tail) =~= acts(out@).push(a@) + tail);
                assert(rest.skip(size as int) =~= bytes@.skip(at + size));
            }
            out.push(a);
            at = at + size;
        }
        assert(acts(out@) + input_frames(feeder, ws, tab, bytes@.skip(n as int)) =~= acts(out@));
    }

    /// Asks a window for an operation on its tabs.
    fn forward_tab_op_to_feeder(&self, feeder: u64, op: FeedTabOp, out: &mut Vec<Action>)
        ensures
            acts(final(out)@) == acts(old(out)@) + self@.forwarded(feeder, op),
    {
        let ghost start = acts(out@);
        match self.find_feeder(feeder) {
            None => {
                assert(start + Seq::<Act>::empty() =~= start);
            },
            Some(i) => {
                assert(self@.feeders[i as int] == self.feeders@[i as int]@);
                let ws: u64 = self.feeders[i].ws_id;
                let tab: u64 = match op {
                    FeedTabOp::Close { tab_id } => tab_id,
                    _ => 0,
                };
                let payload: Vec<u8> = encode_tab_op(op);
                proof {
                    lemma_tab_op_len(op);
                }
                let mut frame: Vec<u8> = Vec::new();
                encode_into(&mut frame, FrameKind::TabOp, ws, tab, payload.as_slice());
                let ghost f = Frame {
                    kind: FrameKind::TabOp,
                    ws_id: ws,
                    tab_id: tab,
                    payload: payload@,
                };
                assert(frame@ =~= encoded(f));
                let a = Action::ToFeeder { feeder, frame };
                proof {
                    lemma_acts_push(out@, a);
                    assert(start.push(a@) =~= start + seq![a@]);
                }
                out.push(a);
            },
        }
    }

    /// The window that a client watches.
    fn watched_by(&self, client: u64) -> (r: Option<u64>)
        ensures
            r == self@.watched(client),
    {
        match self.find_client(client) {
            Some(i) => {
                assert(self@.clients[i as int] == self.clients@[i as int]@);
                self.clients[i].feeder
            },
            None => None,
        }
    }

    /// The window that a client's operation is for.
    fn target_of(&self, client: u64, ws: u64) -> (r: Option<u64>)
        ensures
            r == self@.target(client, ws),
    {
        match self.find_feeder_for_ws(ws) {
            Some(k) => {
                assert(self@.feeders[k as int] == self.feeders@[k as int]@);
                Some(self.feeders[k].id)
            },
            None => self.watched_by(client),
        }
    }

    /// Takes a client's operation on tabs.
    pub fn handle_tab_op(&mut self, client: u64, ws: u64, op: TabOp, out: &mut Vec<Action>)
        requires
            old(self).inv(),
        ensures
            final(self).inv(),
            final(self)@ == old(self)@.tab_op(client, ws, op).hub,
            acts(final(out)@) == acts(old(out)@) + old(self)@.tab_op(client, ws, op).acts,
    {
        assert(acts(out@) + Seq::<Act>::empty() =~= acts(out@));
        if self.feeders.len() == 0 {
            return;
        }
        match op {
            TabOp::Select { idx } => {
                if let Some(k) = self.find_feeder_for_ws(ws) {
                    assert(self@.feeders[k as int] == self.feeders@[k as int]@);
                    if idx < self.feeders[k].tabs.len() {
                        let feeder: u64 = self.feeders[k].id;
                        let told: u64 = self.feeders[k].ws_id;
                        let tab: u64 = self.feeders[k].tabs[idx].tab_id;
                        assert(self@.feeders[k as int].tabs[idx as int]
                            == self.feeders@[k as int].tabs@[idx as int]@);
                        self.move_client(client, feeder);
                        self.point(client, told, tab, false, out);
                    }
                }
            },
            TabOp::New => {
                let target: Option<u64> = match self.find_feeder_for_ws(ws) {
                    Some(k) => {
                        assert(self@.feeders[k as int] == self.feeders@[k as int]@);
                        Some(self.feeders[k].id)
                    },
                    None => if self.anchor.is_some() {
                        self.anchor
                    } else {
                        self.watched_by(client)
                    },
                };
                if let Some(t) = target {
                    if let Some(k) = self.find_feeder(t) {
                        assert(self@.feeders[k as int] == self.feeders@[k as int]@);
                        let f = &mut self.feeders[k];
                        f.pending_new_select = Some(client);
                        assert(self@.feeders =~= old(self)@.feeders.update(
                            k as int,
                            FeederModel {
                                awaiting: Some(client),
                                ..old(self)@.feeders[k as int]
                            },
                        ));
                    }
                    self.forward_tab_op_to_feeder(t, FeedTabOp::New, out);
                }
            },
            TabOp::Close { tab_id } => {
                if let Some(t) = self.target_of(client, ws) {
                    self.forward_tab_op_to_feeder(t, FeedTabOp::Close { tab_id }, out);
                }
            },
            TabOp::Reorder { origin, target } => {
                if let Some(t) = self.target_of(client, ws) {
                    let origin: u32 = (origin as u64 % 0x1_0000_0000) as u32;
                    let target: u32 = (target as u64 % 0x1_0000_0000) as u32;
                    self.forward_tab_op_to_feeder(t, FeedTabOp::Reorder { origin, target }, out);
                }
            },
            TabOp::SetTitle { .. } => {},
        }
    }

    /// Takes that a window has told its size.
    fn feeder_dims_told(
        &mut self,
        feeder: u64,
        ws: u64,
        cols: u16,
        rows: u16,
        out: &mut Vec<Action>,
    )
        requires
            old(self).inv(),
        ensures
            final(self).inv(),
            final(self)@ == old(self)@.dims_told(feeder, ws, cols, rows).hub,
            acts(final(out)@) == acts(old(out)@) + old(self)@.dims_told(
                feeder,
                ws,
                cols,
                rows,
            ).acts,
    {
        let ghost start = acts(out@);
        let k: usize = match self.find_feeder(feeder) {
            Some(k) => k,
            None => {
                assert(start + Seq::<Act>::empty() =~= start);
                return;
            },
        };
        assert(self@.feeders[k as int] == self.feeders@[k as int]@);
        let f = &mut self.feeders[k];
        f.ws_id = ws;
        f.dims = Some((cols, rows));
        assert(self@.feeders =~= old(self)@.feeders.update(
            k as int,
            FeederModel { ws, dims: Some((cols, rows)), ..old(self)@.feeders[k as int] },
        ));
        let ids: Vec<u64> = self.choose_watchers(feeder);
        let ghost whole = ids@.map_values(
            |id: u64| Act::Tell { client: id, msg: Msg::Dims { cols, rows } },
        );
        let mut i: usize = 0;
        assert(start + whole.take(0) =~= start);
        while i < ids.len()
            invariant
                i <= ids@.len(),
                whole == ids@.map_values(
                    |id: u64| Act::Tell { client: id, msg: Msg::Dims { cols, rows } },
                ),
                acts(out@) == start + whole.take(i as int),
            decreases ids@.len() - i,
        {
            let a = Action::Tell { client: ids[i], msg: ServerMsg::Dims { cols, rows } };
            proof {
                lemma_acts_push(out@, a);
                assert(whole[i as int] == a@);
                assert((start + whole.take(i as int)).push(a@) =~= start + whole.take(i + 1));
            }
            out.push(a);
            i = i + 1;
        }
        assert(whole.take(whole.len() as int) =~= whole);
    }

    /// Takes a frame from a window.
    pub fn route_feeder_frame(&mut self, feeder: u64, frame: &FeedFrame, out: &mut Vec<Action>)
        requires
            old(self).inv(),
        ensures
            final(self).inv(),
            final(self)@ == old(self)@.frame_came(feeder, frame@).hub,
            acts(final(out)@) == acts(old(out)@) + old(self)@.frame_came(feeder, frame@).acts,
    {
        assert(acts(out@) + Seq::<Act>::empty() =~= acts(out@));
        match frame.kind {
            FrameKind::PtyOutput => {
                if let Some(k) = self.find_feeder(feeder) {
                    assert(self@.feeders[k as int] == self.feeders@[k as int]@);
                    let f = &mut self.feeders[k];
                    f.ws_id = frame.ws_id;
                    assert(self@.feeders =~= old(self)@.feeders.update(
                        k as int,
                        FeederModel { ws: frame.ws_id, ..old(self)@.feeders[k as int] },
                    ));
                }
                if frame.payload.len() > 0 {
                    self.fan_out_tab_bytes(
                        frame.ws_id,
                        frame.tab_id,
                        frame.payload.as_slice(),
                        out,
                    );
                }
            },
            FrameKind::FocusChange => {
                self.feeder_focus_changed(feeder, frame.ws_id, frame.tab_id, out);
            },
            FrameKind::Dims => {
                if let Some((cols, rows)) = decode_dims(frame.payload.as_slice()) {
                    self.feeder_dims_told(feeder, frame.ws_id, cols, rows, out);
                }
            },
            FrameKind::TabList => {
                if let Some((active, tabs)) = decode_tab_list(frame.payload.as_slice()) {
                    let metas: Vec<TabMeta> = list_tabs(&tabs);
                    proof {
                        let (a, es) = tab_list(frame.payload@)->0;
                        assert(tab_items(metas@) =~= listed(es));
                    }
                    self.feeder_tab_list_updated(feeder, frame.ws_id, active, metas, out);
                }
            },
            _ => {},
        }
    }
}

/// Tabs in a list.
fn list_tabs(tabs: &Vec<(u64, String)>) -> (r: Vec<TabMeta>)
    ensures
        r@.len() == tabs@.len(),
        forall|i: int|
            0 <= i < tabs@.len() ==> (#[trigger] r@[i])@ == (TabItem {
                id: tabs@[i].0,
                title: tabs@[i].1@,
            }),
{
    let mut out: Vec<TabMeta> = Vec::new();
    let mut i: usize = 0;
    while i < tabs.len()
        invariant
            i <= tabs@.len(),
            out@.len() == i,
            forall|j: int|
                0 <= j < i ==> (#[trigger] out@[j])@ == (TabItem {
                    id: tabs@[j].0,
                    title: tabs@[j].1@,
                }),
        decreases tabs@.len() - i,
    {
        out.push(TabMeta { tab_id: tabs[i].0, title: tabs[i].1.clone() });
        i = i + 1;
    }
    out
}

proof fn lemma_tab_op_len(op: FeedTabOp)
    ensures
        tab_op_payload(op).len() <= 9,
{
    match op {
        FeedTabOp::New => {},
        FeedTabOp::Close { tab_id } => {
            lemma_le_len(tab_id as int, 8);
        },
        FeedTabOp::Reorder { origin, target } => {
            lemma_le_len(origin as int, 4);
            lemma_le_len(target as int, 4);
        },
    }
}

/// The workspaces of the daemon's own, as a list: each titled as its active
/// tab.
pub open spec fn house_list(h: House) -> Msg {
    let active = h.rooms[h.active].id;
    Msg::Workspaces {
        list: h.rooms.map_values(
            |r: Room|
                MetaModel {
                    id: r.id,
                    title: r.tabs.tabs[r.tabs.active].title,
                    tab_count: r.tabs.tabs.len() as int,
                    active: r.id == active,
                },
        ),
        anchor: active,
    }
}

/// The tabs of a workspace of the daemon's own.
pub open spec fn room_info(r: Room) -> Msg {
    let facts = r.tabs.tabs[r.tabs.active].screen.facts;
    Msg::Workspace {
        id: r.id,
        tabs: r.tabs.tabs.map_values(|t: Tab| TabItem { id: t.id, title: t.title }),
        active: r.tabs.active,
        width: facts.columns as int,
        height: facts.lines as int,
    }
}

/// A size as a message, where there is one.
pub open spec fn dims_msg(dims: Option<(u16, u16)>) -> Seq<Msg> {
    match dims {
        Some((cols, rows)) => seq![Msg::Dims { cols, rows }],
        None => seq![],
    }
}

impl HubModel {
    /// What a client that has just become live is shown: the window, the
    /// workspace and the tab.
    pub open spec fn first_view(self) -> (Option<u64>, u64, u64) {
        if self.session is Some {
            (None, self.home.0, self.home.1)
        } else {
            match self.anchor {
                Some(a) => match feeder_at(self.feeders, a) {
                    Some(i) => (Some(a), self.feeders[i].ws, self.feeders[i].focus),
                    None => (None, 0, 0),
                },
                None => (None, 0, 0),
            }
        }
    }

    /// What a client that has just become live is told: all workspaces, their
    /// tabs, whose bytes follow, and the size.
    pub open spec fn greeting(self) -> Seq<Msg> {
        let (feeder, ws, tab) = self.first_view();
        match self.session {
            Some(h) => seq![house_list(h)] + (match room_at(h.rooms, ws) {
                Some(w) => seq![
                    room_info(h.rooms[w]),
                    Msg::StreamFocus {
                        workspace_id: ws,
                        tab_id: h.rooms[w].tabs.tabs[h.rooms[w].tabs.active].id,
                    },
                ],
                None => seq![],
            }) + dims_msg(self.home_dims),
            None => seq![self.workspaces()] + by_workspace(self.feeders).map_values(
                |f: FeederModel| feeder_info(f),
            ) + (match feeder {
                Some(a) => seq![Msg::StreamFocus { workspace_id: ws, tab_id: tab }] + dims_msg(
                    self.feeders[feeder_at(self.feeders, a)->0].dims,
                ),
                None => seq![],
            }),
        }
    }

    /// With a client live and shown its first tab. It holds the workspace
    /// where that is the daemon's own.
    pub open spec fn enlivened(self, client: u64) -> HubModel {
        let (feeder, ws, tab) = self.first_view();
        match client_at(self.clients, client) {
            None => self,
            Some(i) => HubModel {
                session: match self.session {
                    Some(h) => Some(h.held(ws, client)),
                    None => None,
                },
                ..self.with_client(
                    i,
                    ClientModel {
                        live: true,
                        viewed: (ws, tab),
                        feeder,
                        follow: true,
                        held: if self.session is Some {
                            Some(ws)
                        } else {
                            self.clients[i].held
                        },
                        ..self.clients[i]
                    },
                )
            },
        }
    }

    /// After a client has become live.
    pub open spec fn went_live(self, client: u64) -> Step {
        let (feeder, ws, tab) = self.first_view();
        match client_at(self.clients, client) {
            None => Step { hub: self, acts: seq![] },
            Some(i) => Step {
                hub: self.enlivened(client),
                acts: tells(client, self.greeting()) + (if self.memory(ws, tab).len() > 0 {
                    seq![Act::Replay { client, bytes: self.memory(ws, tab) }]
                } else {
                    seq![]
                }),
            },
        }
    }

    /// With a client no longer holding a workspace.
    pub open spec fn released(self, client: u64, explicit: bool) -> HubModel {
        match client_at(self.clients, client) {
            None => self,
            Some(i) => {
                let c = self.clients[i];
                HubModel {
                    session: match (self.session, c.held) {
                        (Some(h), Some(ws)) => Some(h.let_go(ws, client, explicit)),
                        _ => self.session,
                    },
                    ..self.with_client(i, ClientModel { held: None, ..c })
                }
            },
        }
    }

    /// Without a client. That its connection is closed ends no workspace.
    pub open spec fn without_client(self, client: u64) -> HubModel {
        let hub = self.released(client, false);
        match client_at(hub.clients, client) {
            None => hub,
            Some(i) => HubModel { clients: hub.clients.remove(i), ..hub },
        }
    }

    /// With a client holding a workspace of the daemon's own, if there is such
    /// a one.
    pub open spec fn holding(self, client: u64, ws: u64) -> HubModel {
        match self.session {
            Some(h) => if room_at(h.rooms, ws) is Some {
                HubModel {
                    session: Some(h.held(ws, client)),
                    clients: match client_at(self.clients, client) {
                        Some(i) => self.clients.update(
                            i,
                            ClientModel { held: Some(ws), ..self.clients[i] },
                        ),
                        None => self.clients,
                    },
                    ..self
                }
            } else {
                self
            },
            None => self,
        }
    }

    /// With one more connection, not live yet.
    pub open spec fn admitted(self, now: u64) -> HubModel {
        HubModel {
            clients: self.clients.push(
                ClientModel {
                    id: self.next_client,
                    live: false,
                    created: now,
                    held: None,
                    viewed: (0, 0),
                    feeder: None,
                    follow: true,
                    queue: seq![],
                },
            ),
            next_client: ((self.next_client + 1) % 0x1_0000_0000_0000_0000) as u64,
            ..self
        }
    }
}

/// A connection that has not become live in time.
pub open spec fn overdue(now: u64, deadline: u64) -> spec_fn(ClientModel) -> bool {
    |c: ClientModel| !c.live && now - c.created > deadline
}

proof fn lemma_release_keeps_house(h: House, ws: u64, holder: u64, explicit: bool)
    requires
        h.wf(),
        h.peopled(),
        anchored(h),
    ensures
        h.let_go(ws, holder, explicit).peopled(),
        anchored(h.let_go(ws, holder, explicit)),
        h.let_go(ws, holder, explicit).rooms.len() > 0,
{
    let a = choose|i: int| 0 <= i < h.rooms.len() && (#[trigger] h.rooms[i]).anchored;
    match room_at(h.rooms, ws) {
        None => {},
        Some(w) => {
            lemma_room_at_is(h.rooms, ws);
            let room = Room { holders: h.rooms[w].holders.remove(holder), ..h.rooms[w] };
            let next = h.with_room(w, room);
            assert(next.rooms[a].anchored);
            assert forall|i: int| 0 <= i < next.rooms.len() implies (
            #[trigger] next.rooms[i]).tabs.tabs.len() > 0 by {
                assert(h.rooms[i].tabs.tabs.len() > 0);
            }
            if explicit && next.rooms[w].refcount() == 0 {
                assert(w != a);
                let left = next.without(w);
                let b = if a < w {
                    a
                } else {
                    a - 1
                };
                assert(left.rooms[b] == next.rooms[a]);
                assert forall|i: int| 0 <= i < left.rooms.len() implies (
                #[trigger] left.rooms[i]).tabs.tabs.len() > 0 by {
                    let j = if i < w {
                        i
                    } else {
                        i + 1
                    };
                    assert(left.rooms[i] == next.rooms[j]);
                }
            }
        },
    }
}

proof fn lemma_hold_keeps_house(h: House, ws: u64, holder: u64)
    requires
        h.peopled(),
        anchored(h),
    ensures
        h.held(ws, holder).peopled(),
        anchored(h.held(ws, holder)),
{
    let a = choose|i: int| 0 <= i < h.rooms.len() && (#[trigger] h.rooms[i]).anchored;
    match room_at(h.rooms, ws) {
        None => {},
        Some(w) => {
            lemma_room_at_is(h.rooms, ws);
            let next = h.held(ws, holder);
            assert(next.rooms[a].anchored);
            assert forall|i: int| 0 <= i < next.rooms.len() implies (
            #[trigger] next.rooms[i]).tabs.tabs.len() > 0 by {
                assert(h.rooms[i].tabs.tabs.len() > 0);
            }
        },
    }
}

impl Hub {
    /// Admits a connection, unless there are too many. Returns its number.
    pub fn accept_ws_client(&mut self, now: u64) -> (r: Option<u64>)
        requires
            old(self).inv(),
        ensures
            final(self).inv(),
            match r {
                Some(id) => old(self)@.clients.len() < MAX_WS_CONNS && id == old(self)@.next_client
                    && final(self)@ == old(self)@.admitted(now),
                None => old(self)@.clients.len() >= MAX_WS_CONNS && final(self)@ == old(self)@,
            },
    {
        if self.clients.len() >= MAX_WS_CONNS {
            return None;
        }
        let id: u64 = self.next_client;
        self.next_client = self.next_client.wrapping_add(1);
        let c = Client {
            id,
            live: false,
            created: now,
            held_ws: None,
            viewed: (0, 0),
            feeder: None,
            follow: true,
            outbox: Outbox::new(),
        };
        let ghost fresh = c@;
        assert(fresh.queue =~= seq![]);
        self.clients.push(c);
        assert(self@.clients =~= old(self)@.clients.push(fresh));
        Some(id)
    }

    /// The connections that have not become live in time.
    pub fn reap_stale_clients(&self, now: u64, deadline: u64) -> (ids: Vec<u64>)
        ensures
            ids@ == chosen(self@.clients, overdue(now, deadline)),
    {
        let ghost all = self@.clients;
        let ghost p = overdue(now, deadline);
        let mut ids: Vec<u64> = Vec::new();
        let mut i: usize = 0;
        reveal(Seq::filter);
        assert(ids@ =~= chosen(all.take(0), p));
        while i < self.clients.len()
            invariant
                self@.clients == all,
                i <= self.clients@.len() == all.len(),
                p == overdue(now, deadline),
                ids@ == chosen(all.take(i as int), p),
            decreases self.clients@.len() - i,
        {
            let c: &Client = &self.clients[i];
            proof {
                assert(all[i as int] == c@);
                lemma_chosen_take(all, p, i as int);
            }
            if !c.live && now > c.created && now - c.created > deadline {
                ids.push(c.id);
            }
            i = i + 1;
        }
        assert(all.take(i as int) =~= all);
        ids
    }

    /// Takes a client's hold on a workspace away.
    pub fn release_holder(&mut self, client: u64, explicit: bool)
        requires
            old(self).inv(),
        ensures
            final(self).inv(),
            final(self)@ == old(self)@.released(client, explicit),
    {
        let i: usize = match self.find_client(client) {
            Some(i) => i,
            None => {
                return;
            },
        };
        assert(self@.clients[i as int] == self.clients@[i as int]@);
        let held: Option<u64> = self.clients[i].held_ws;
        let c = &mut self.clients[i];
        c.held_ws = None;
        assert(self@.clients =~= old(self)@.clients.update(
            i as int,
            ClientModel { held: None, ..old(self)@.clients[i as int] },
        ));
        if let Some(ws) = held {
            let mut taken: Option<Session> = None;
            core::mem::swap(&mut taken, &mut self.session);
            if let Some(mut session) = taken {
                proof {
                    lemma_session_wf(session);
                    lemma_release_keeps_house(session@, ws, client, explicit);
                }
                let _ = session.release(ws, client, explicit);
                self.session = Some(session);
            }
        }
    }

    /// Forgets a client whose connection is closed.
    pub fn drop_client(&mut self, client: u64)
        requires
            old(self).inv(),
        ensures
            final(self).inv(),
            final(self)@ == old(self)@.without_client(client),
    {
        self.release_holder(client, false);
        let ghost hub = self@;
        if let Some(i) = self.find_client(client) {
            let _ = self.clients.remove(i);
            assert(self@.clients =~= hub.clients.remove(i as int));
        }
    }

    /// Takes a client's wish to hold a workspace.
    pub fn hold(&mut self, client: u64, ws: u64)
        requires
            old(self).inv(),
        ensures
            final(self).inv(),
            final(self)@ == old(self)@.holding(client, ws),
    {
        let mut taken: Option<Session> = None;
        core::mem::swap(&mut taken, &mut self.session);
        if let Some(mut session) = taken {
            proof {
                lemma_hold_keeps_house(session@, ws, client);
            }
            let known: bool = session.hold(ws, client);
            self.session = Some(session);
            if known {
                if let Some(i) = self.find_client(client) {
                    assert(self@.clients[i as int] == self.clients@[i as int]@);
                    let c = &mut self.clients[i];
                    c.held_ws = Some(ws);
                    assert(self@.clients =~= old(self)@.clients.update(
                        i as int,
                        ClientModel { held: Some(ws), ..old(self)@.clients[i as int] },
                    ));
                }
            }
        }
    }
}

impl HubModel {
    /// After a wish to resize a workspace of the daemon's own: its screens are
    /// resized, and its terminals are to be.
    pub open spec fn may_resize(self, ws: u64, cols: u16, rows: u16, next: HubModel) -> bool {
        match self.session {
            Some(h) => match room_at(h.rooms, ws) {
                Some(w) => {
                    &&& next.session is Some
                    &&& next == (HubModel { session: next.session, ..self })
                    &&& next.session->0 == h.with_tabs(w, next.session->0.rooms[w].tabs)
                    &&& next.session->0.rooms[w].tabs.active == h.rooms[w].tabs.active
                    &&& next.session->0.rooms[w].tabs.tabs.len() == h.rooms[w].tabs.tabs.len()
                    &&& forall|i: int|
                        0 <= i < h.rooms[w].tabs.tabs.len() ==> {
                            let before = h.rooms[w].tabs.tabs[i];
                            let after = #[trigger] next.session->0.rooms[w].tabs.tabs[i];
                            &&& after == (Tab { screen: after.screen, ..before })
                            &&& before.screen.after_resize(
                                cols as int,
                                rows as int,
                                after.screen,
                            )
                        }
                },
                None => next == self,
            },
            None => next == self,
        }
    }

    /// What a wish to resize leads to.
    pub open spec fn resize_acts(self, ws: u64, cols: u16, rows: u16) -> Seq<Act> {
        match self.session {
            Some(h) => if room_at(h.rooms, ws) is Some {
                seq![Act::ResizePtys { workspace_id: ws, cols, rows }]
            } else {
                seq![]
            },
            None => seq![],
        }
    }
}

impl HubModel {
    /// The state after a message from a client.
    pub open spec fn told(self, client: u64, msg: ClientMsg, next: HubModel) -> bool {
        match msg {
            ClientMsg::Hold { workspace_id } => next == self.holding(client, workspace_id),
            ClientMsg::Release { workspace_id } => next == self.released(client, true),
            ClientMsg::Input { workspace_id, tab_id, bytes } => next == self,
            ClientMsg::Resize { workspace_id, cols, rows } => self.may_resize(
                workspace_id,
                cols,
                rows,
                next,
            ),
            ClientMsg::TabOp { workspace_id, op } => next == self.tab_op(
                client,
                workspace_id,
                op,
            ).hub,
        }
    }

    /// What a message from a client leads to.
    pub open spec fn told_acts(self, client: u64, msg: ClientMsg) -> Seq<Act> {
        match msg {
            ClientMsg::Input { workspace_id, tab_id, bytes } => self.input(
                workspace_id,
                tab_id,
                bytes@,
            ),
            ClientMsg::Resize { workspace_id, cols, rows } => self.resize_acts(
                workspace_id,
                cols,
                rows,
            ),
            ClientMsg::TabOp { workspace_id, op } => self.tab_op(client, workspace_id, op).acts,
            _ => seq![],
        }
    }
}

/// Every message of a list to one client.
fn tell_each(client: u64, msgs: Vec<ServerMsg>, out: &mut Vec<Action>)
    ensures
        acts(final(out)@) == acts(old(out)@) + tells(client, msgs@.map_values(|m: ServerMsg| m@)),
{
    let ghost whole = tells(client, msgs@.map_values(|m: ServerMsg| m@));
    let ghost start = acts(out@);
    let ghost all = msgs@;
    let mut left: Vec<ServerMsg> = Vec::new();
    let mut rest: Vec<ServerMsg> = msgs;
    // Turn the list round, so that it can be emptied from its end.
    while rest.len() > 0
        invariant
            rest@.len() <= all.len(),
            rest@ == all.take(rest@.len() as int),
            left@.len() == all.len() - rest@.len(),
            forall|k: int|
                0 <= k < left@.len() ==> #[trigger] left@[k] == all[all.len() - 1 - k],
        decreases rest@.len(),
    {
        if let Some(m) = rest.pop() {
            left.push(m);
        }
    }
    assert(start + whole.take(0) =~= start);
    while left.len() > 0
        invariant
            left@.len() <= all.len(),
            whole == tells(client, all.map_values(|m: ServerMsg| m@)),
            forall|k: int|
                0 <= k < left@.len() ==> #[trigger] left@[k] == all[all.len() - 1 - k],
            acts(out@) == start + whole.take(all.len() - left@.len()),
        decreases left@.len(),
    {
        let ghost done = all.len() - left@.len();
        if let Some(m) = left.pop() {
            let a = Action::Tell { client, msg: m };
            proof {
                assert(m == all[done]);
                assert(whole[done] == a@);
                lemma_acts_push(out@, a);
                assert((start + whole.take(done)).push(a@) =~= start + whole.take(done + 1));
            }
            out.push(a);
        }
    }
    assert(whole.take(all.len() as int) =~= whole);
}

proof fn lemma_resize_keeps_house(h: House, next: House, w: int)
    requires
        0 <= w < h.rooms.len(),
        h.peopled(),
        anchored(h),
        next == h.with_tabs(w, next.rooms[w].tabs),
        next.rooms[w].tabs.tabs.len() == h.rooms[w].tabs.tabs.len(),
    ensures
        next.peopled(),
        anchored(next),
{
    let a = choose|i: int| 0 <= i < h.rooms.len() && (#[trigger] h.rooms[i]).anchored;
    assert(next.rooms[a].anchored);
    assert forall|i: int| 0 <= i < next.rooms.len() implies (
    #[trigger] next.rooms[i]).tabs.tabs.len() > 0 by {
        assert(h.rooms[i].tabs.tabs.len() > 0);
    }
}

impl Hub {
    /// The messages that greet a client where the terminals are the daemon's
    /// own.
    fn build_control_text_local(&self, session: &Session) -> (r: Vec<ServerMsg>)
        requires
            self.inv(),
            self.session == Some(*session),
        ensures
            r@.map_values(|m: ServerMsg| m@) == self@.greeting(),
    {
        let ws: u64 = self.home.0;
        let ghost h = session@;
        let mut out: Vec<ServerMsg> = Vec::new();
        proof {
            lemma_session_wf(*session);
            let a = choose|i: int| 0 <= i < h.rooms.len() && (#[trigger] h.rooms[i]).anchored;
        }
        let list: WorkspaceList = session.workspace_list();
        proof {
            let goal = h.rooms.map_values(
                |r: Room|
                    MetaModel {
                        id: r.id,
                        title: r.tabs.tabs[r.tabs.active].title,
                        tab_count: r.tabs.tabs.len() as int,
                        active: r.id == h.rooms[h.active].id,
                    },
            );
            assert forall|i: int| 0 <= i < goal.len() implies metas(list.workspaces@)[i]
                == #[trigger] goal[i] by {
                assert(summarizes(list.workspaces@[i], h.rooms[i], list.active));
                assert(list.workspaces@[i]@ =~= goal[i]);
            }
            assert(metas(list.workspaces@) =~= goal);
        }
        out.push(ServerMsg::Workspaces(list));
        let ghost first = house_list(h);
        assert(out@[0]@ == first);
        proof {
            lemma_room_at_is(h.rooms, ws);
        }
        if let Some(info) = session.workspace_info(ws) {
            proof {
                let w = room_at(h.rooms, ws)->0;
                lemma_room_at_is(h.rooms, ws);
                lemma_session_tabs(*session, w);
                let room = h.rooms[w];
                assert(room.tabs.tabs.len() > 0);
                assert(describes(info, room));
                let goal = room.tabs.tabs.map_values(
                    |t: Tab| TabItem { id: t.id, title: t.title },
                );
                assert forall|i: int| 0 <= i < goal.len() implies tab_items(info.tabs@)[i]
                    == #[trigger] goal[i] by {
                    assert(lists(info.tabs@[i], room.tabs.tabs[i]));
                    assert(info.tabs@[i]@ =~= goal[i]);
                }
                assert(tab_items(info.tabs@) =~= goal);
                assert(lists(info.tabs@[room.tabs.active], room.tabs.tabs[room.tabs.active]));
            }
            let tab: u64 = info.tabs[info.active].tab_id;
            out.push(ServerMsg::Workspace(info));
            out.push(ServerMsg::StreamFocus { workspace_id: ws, tab_id: tab });
        }
        if let Some((cols, rows)) = self.home_dims {
            out.push(ServerMsg::Dims { cols, rows });
        }
        assert(out@.map_values(|m: ServerMsg| m@) =~= self@.greeting());
        out
    }

    /// The messages that greet a client where windows feed the daemon.
    fn build_control_text_feeder(&self) -> (r: Vec<ServerMsg>)
        requires
            self.session is None,
        ensures
            r@.map_values(|m: ServerMsg| m@) == self@.greeting(),
    {
        let mut out: Vec<ServerMsg> = Vec::new();
        out.push(ServerMsg::Workspaces(self.aggregate_workspace_list()));
        let order: Vec<usize> = self.order();
        let ghost sorted = by_workspace(self@.feeders);
        let ghost infos = sorted.map_values(|f: FeederModel| feeder_info(f));
        let ghost first = seq![self@.workspaces()];
        let mut i: usize = 0;
        assert(out@.map_values(|m: ServerMsg| m@) =~= first + infos.take(0));
        while i < order.len()
            invariant
                i <= order@.len() == sorted.len(),
                sorted == order@.map_values(|k: usize| self@.feeders[k as int]),
                infos == sorted.map_values(|f: FeederModel| feeder_info(f)),
                forall|k: int|
                    0 <= k < order@.len() ==> (#[trigger] order@[k]) < self.feeders@.len(),
                out@.map_values(|m: ServerMsg| m@) == first + infos.take(i as int),
            decreases order@.len() - i,
        {
            let ghost before = out@;
            let m: ServerMsg = ServerMsg::Workspace(self.info_of(order[i]));
            proof {
                assert(sorted[i as int] == self@.feeders[order@[i as int] as int]);
                assert(infos[i as int] == m@);
                assert(before.push(m).map_values(|m: ServerMsg| m@) =~= before.map_values(
                    |m: ServerMsg| m@,
                ).push(m@));
                assert((first + infos.take(i as int)).push(m@) =~= first + infos.take(i + 1));
            }
            out.push(m);
            i = i + 1;
        }
        assert(infos.take(infos.len() as int) =~= infos);
        let ghost most = out@;
        if let Some(a) = self.anchor {
            if let Some(k) = self.find_feeder(a) {
                assert(self@.feeders[k as int] == self.feeders@[k as int]@);
                let f: &Feeder = &self.feeders[k];
                out.push(
                    ServerMsg::StreamFocus { workspace_id: f.ws_id, tab_id: f.focus_tab },
                );
                if let Some((cols, rows)) = f.dims {
                    out.push(ServerMsg::Dims { cols, rows });
                }
            }
        }
        proof {
            assert(most.map_values(|m: ServerMsg| m@) == first + infos);
            assert forall|j: int| 0 <= j < most.len() implies out@[j] == #[trigger] most[j] by {}
            assert(out@.map_values(|m: ServerMsg| m@).take(most.len() as int) =~= first + infos);
            assert(out@.map_values(|m: ServerMsg| m@) =~= self@.greeting());
        }
        out
    }

    /// Takes that a client has become live.
    pub fn ws_go_live(&mut self, client: u64, out: &mut Vec<Action>)
        requires
            old(self).inv(),
        ensures
            final(self).inv(),
            final(self)@ == old(self)@.went_live(client).hub,
            acts(final(out)@) == acts(old(out)@) + old(self)@.went_live(client).acts,
    {
        let ghost start = acts(out@);
        let i: usize = match self.find_client(client) {
            Some(i) => i,
            None => {
                assert(start + Seq::<Act>::empty() =~= start);
                return;
            },
        };
        assert(self@.clients[i as int] == self.clients@[i as int]@);
        let (feeder, ws, tab): (Option<u64>, u64, u64) = if self.session.is_some() {
            (None, self.home.0, self.home.1)
        } else {
            match self.anchor {
                Some(a) => match self.find_feeder(a) {
                    Some(k) => {
                        assert(self@.feeders[k as int] == self.feeders@[k as int]@);
                        (Some(a), self.feeders[k].ws_id, self.feeders[k].focus_tab)
                    },
                    None => (None, 0, 0),
                },
                None => (None, 0, 0),
            }
        };
        let msgs: Vec<ServerMsg> = match &self.session {
            Some(session) => self.build_control_text_local(session),
            None => self.build_control_text_feeder(),
        };
        let replay: Vec<u8> = self.remembered(ws, tab);
        let held: Option<u64> = if self.session.is_some() {
            Some(ws)
        } else {
            self.clients[i].held_ws
        };
        let mut taken: Option<Session> = None;
        core::mem::swap(&mut taken, &mut self.session);
        if let Some(mut session) = taken {
            proof {
                lemma_hold_keeps_house(session@, ws, client);
            }
            let _ = session.hold(ws, client);
            self.session = Some(session);
        }
        let c = &mut self.clients[i];
        c.live = true;
        c.viewed = (ws, tab);
        c.feeder = feeder;
        c.follow = true;
        c.held_ws = held;
        proof {
            let goal = old(self)@.enlivened(client);
            assert(self@.clients =~= goal.clients);
            assert(self@ == goal);
        }
        tell_each(client, msgs, out);
        let ghost told = tells(client, old(self)@.greeting());
        if replay.len() > 0 {
            let a = Action::Replay { client, bytes: replay };
            proof {
                lemma_acts_push(out@, a);
                assert((start + told).push(a@) =~= start + (told + seq![a@]));
            }
            out.push(a);
        } else {
            assert(start + told =~= start + (told + Seq::<Act>::empty()));
        }
    }

    /// Takes a wish to resize a workspace of the daemon's own.
    pub fn resize(&mut self, ws: u64, cols: u16, rows: u16, out: &mut Vec<Action>)
        requires
            old(self).inv(),
            old(self)@.session matches Some(h) ==> h.takes_width(ws, cols as int),
        ensures
            final(self).inv(),
            old(self)@.may_resize(ws, cols, rows, final(self)@),
            acts(final(out)@) == acts(old(out)@) + old(self)@.resize_acts(ws, cols, rows),
    {
        let ghost start = acts(out@);
        assert(start + Seq::<Act>::empty() =~= start);
        let mut taken: Option<Session> = None;
        core::mem::swap(&mut taken, &mut self.session);
        if let Some(mut session) = taken {
            let ghost h = session@;
            let done = session.resize(ws, cols, rows);
            proof {
                lemma_room_at_is(h.rooms, ws);
                if room_at(h.rooms, ws) is Some {
                    lemma_resize_keeps_house(h, session@, room_at(h.rooms, ws)->0);
                }
            }
            self.session = Some(session);
            if done.is_ok() {
                let a = Action::ResizePtys { workspace_id: ws, cols, rows };
                proof {
                    lemma_acts_push(out@, a);
                    assert(start.push(a@) =~= start + seq![a@]);
                }
                out.push(a);
            }
        }
    }

    /// Takes that the daemon's own terminals have been resized: all clients
    /// are told.
    pub fn ptys_resized(&mut self, cols: u16, rows: u16, out: &mut Vec<Action>)
        requires
            old(self).inv(),
        ensures
            final(self).inv(),
            final(self)@ == (HubModel { home_dims: Some((cols, rows)), ..old(self)@ }),
            acts(final(out)@) == acts(old(out)@).push(
                Act::TellAll { msg: Msg::Dims { cols, rows } },
            ),
    {
        self.home_dims = Some((cols, rows));
        let a = Action::TellAll { msg: ServerMsg::Dims { cols, rows } };
        proof {
            lemma_acts_push(out@, a);
        }
        out.push(a);
    }

    /// Takes a message from a client. Returns whether its connection is to be
    /// closed: that is how it lets go of its workspace for good.
    pub fn handle_client_msg(&mut self, client: u64, msg: ClientMsg, out: &mut Vec<Action>) -> (close:
        bool)
        requires
            old(self).inv(),
            old(self)@.session matches Some(h) ==> msg matches ClientMsg::Resize {
                workspace_id,
                cols,
                ..
            } ==> h.takes_width(workspace_id, cols as int),
        ensures
            final(self).inv(),
            close == (msg is Release),
            old(self)@.told(client, msg, final(self)@),
            acts(final(out)@) == acts(old(out)@) + old(self)@.told_acts(client, msg),
    {
        match msg {
            ClientMsg::Hold { workspace_id } => {
                assert(acts(out@) =~= acts(out@) + Seq::<Act>::empty());
                self.hold(client, workspace_id);
                false
            },
            ClientMsg::Release { .. } => {
                assert(acts(out@) =~= acts(out@) + Seq::<Act>::empty());
                self.release_holder(client, true);
                true
            },
            ClientMsg::Input { workspace_id, tab_id, bytes } => {
                self.route_input(workspace_id, tab_id, bytes.as_slice(), out);
                false
            },
            ClientMsg::Resize { workspace_id, cols, rows } => {
                self.resize(workspace_id, cols, rows, out);
                false
            },
            ClientMsg::TabOp { workspace_id, op } => {
                self.handle_tab_op(client, workspace_id, op, out);
                false
            },
        }
    }

    /// Takes bytes that a client has typed: input for the tab that it is shown.
    pub fn client_typed(&self, client: u64, bytes: &[u8], out: &mut Vec<Action>)
        ensures
            ({
                let (ws, tab) = match client_at(self@.clients, client) {
                    Some(i) => self@.clients[i].viewed,
                    None => self@.home,
                };
                acts(final(out)@) == acts(old(out)@) + self@.input(ws, tab, bytes@)
            }),
    {
        let (ws, tab): (u64, u64) = match self.find_client(client) {
            Some(i) => {
                assert(self@.clients[i as int] == self.clients@[i as int]@);
                self.clients[i].viewed
            },
            None => self.home,
        };
        self.route_input(ws, tab, bytes, out);
    }

    /// Queues a frame for a client, if it is live. Tells whether it is.
    pub fn enqueue(&mut self, client: u64, frame: OutFrame) -> (queued: bool)
        requires
            old(self).inv(),
        ensures
            final(self).inv(),
            match client_at(old(self)@.clients, client) {
                Some(i) => queued == old(self)@.clients[i].live && final(self)@ == (if queued {
                    old(self)@.with_client(
                        i,
                        ClientModel {
                            queue: old(self)@.clients[i].queue.push(frame@),
                            ..old(self)@.clients[i]
                        },
                    )
                } else {
                    old(self)@
                }),
                None => !queued && final(self)@ == old(self)@,
            },
    {
        match self.find_client(client) {
            None => false,
            Some(i) => {
                assert(self@.clients[i as int] == self.clients@[i as int]@);
                if !self.clients[i].live {
                    return false;
                }
                let c = &mut self.clients[i];
                c.outbox.push(frame);
                assert(self@.clients =~= old(self)@.clients.update(
                    i as int,
                    ClientModel {
                        queue: old(self)@.clients[i as int].queue.push(frame@),
                        ..old(self)@.clients[i as int]
                    },
                ));
                true
            },
        }
    }

    /// Takes the next frame for a client off its queue.
    pub fn dequeue(&mut self, client: u64) -> (r: Option<OutFrame>)
        requires
            old(self).inv(),
        ensures
            final(self).inv(),
            match client_at(old(self)@.clients, client) {
                Some(i) => match r {
                    Some(f) => old(self)@.clients[i].queue.len() > 0 && f@
                        == old(self)@.clients[i].queue[0] && final(self)@ == old(
                        self,
                    )@.with_client(
                        i,
                        ClientModel {
                            queue: old(self)@.clients[i].queue.skip(1),
                            ..old(self)@.clients[i]
                        },
                    ),
                    None => old(self)@.clients[i].queue.len() == 0 && final(self)@ == old(self)@,
                },
                None => r is None && final(self)@ == old(self)@,
            },
    {
        match self.find_client(client) {
            None => None,
            Some(i) => {
                assert(self@.clients[i as int] == self.clients@[i as int]@);
                let c = &mut self.clients[i];
                let r: Option<OutFrame> = c.outbox.pop();
                proof {
                    if r is Some {
                        assert(self@.clients =~= old(self)@.clients.update(
                            i as int,
                            ClientModel {
                                queue: old(self)@.clients[i as int].queue.skip(1),
                                ..old(self)@.clients[i as int]
                            },
                        ));
                    } else {
                        assert(self@.clients =~= old(self)@.clients);
                    }
                }
                r
            },
        }
    }

    /// The numbers of the live clients.
    pub fn live_clients(&self) -> (ids: Vec<u64>)
        ensures
            ids@ == chosen(self@.clients, |c: ClientModel| c.live),
    {
        let ghost all = self@.clients;
        let ghost p = |c: ClientModel| c.live;
        let mut ids: Vec<u64> = Vec::new();
        let mut i: usize = 0;
        reveal(Seq::filter);
        assert(ids@ =~= chosen(all.take(0), p));
        while i < self.clients.len()
            invariant
                self@.clients == all,
                i <= self.clients@.len() == all.len(),
                p == (|c: ClientModel| c.live),
                ids@ == chosen(all.take(i as int), p),
            decreases self.clients@.len() - i,
        {
            let c: &Client = &self.clients[i];
            proof {
                assert(all[i as int] == c@);
                lemma_chosen_take(all, p, i as int);
            }
            if c.live {
                ids.push(c.id);
            }
            i = i + 1;
        }
        assert(all.take(i as int) =~= all);
        ids
    }
}

} // verus!
