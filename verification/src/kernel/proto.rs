//! The messages between the daemon and its clients.

use crate::term::{CellRef, Color, CursorShape};
use vstd::prelude::*;
use vstd::std_specs::convert::FromSpecImpl;

verus! {

/// A colour.
#[derive(Debug, Clone, Copy, PartialEq, Eq, Structural)]
pub struct ColorWire {
    pub r: u8,
    pub g: u8,
    pub b: u8,
}

/// The message form of a colour.
pub open spec fn color_wire(c: Color) -> ColorWire {
    ColorWire { r: c.r, g: c.g, b: c.b }
}

/// The colour that a message tells.
pub open spec fn wire_color(c: ColorWire) -> Color {
    Color { r: c.r, g: c.g, b: c.b }
}

impl From<Color> for ColorWire {
    fn from(c: Color) -> (r: Self) {
        ColorWire { r: c.r, g: c.g, b: c.b }
    }
}

impl FromSpecImpl<Color> for ColorWire {
    open spec fn obeys_from_spec() -> bool {
        true
    }

    open spec fn from_spec(c: Color) -> Self {
        color_wire(c)
    }
}

impl From<ColorWire> for Color {
    fn from(c: ColorWire) -> (r: Self) {
        Color { r: c.r, g: c.g, b: c.b }
    }
}

impl FromSpecImpl<ColorWire> for Color {
    open spec fn obeys_from_spec() -> bool {
        true
    }

    open spec fn from_spec(c: ColorWire) -> Self {
        wire_color(c)
    }
}

/// A cell of the screen.
#[derive(Debug, Clone, Copy, PartialEq, Eq, Structural)]
pub struct CellWire {
    pub col: usize,
    pub line: usize,
    pub c: char,
    pub fg: ColorWire,
    pub bg: ColorWire,
}

/// The message form of a cell.
pub open spec fn cell_wire(c: CellRef) -> CellWire {
    CellWire {
        col: c.pos.col,
        line: c.pos.line,
        c: c.c,
        fg: color_wire(c.fg),
        bg: color_wire(c.bg),
    }
}

impl From<CellRef> for CellWire {
    fn from(c: CellRef) -> (r: Self) {
        CellWire {
            col: c.pos.col,
            line: c.pos.line,
            c: c.c,
            fg: ColorWire::from(c.fg),
            bg: ColorWire::from(c.bg),
        }
    }
}

impl FromSpecImpl<CellRef> for CellWire {
    open spec fn obeys_from_spec() -> bool {
        true
    }

    open spec fn from_spec(c: CellRef) -> Self {
        cell_wire(c)
    }
}

/// The shape of the cursor.
#[derive(Debug, Clone, Copy, PartialEq, Eq, Structural)]
pub enum CursorShapeWire {
    Block,
    Underline,
    Beam,
    HollowBlock,
    Hidden,
}

/// The message form of a cursor's shape.
pub open spec fn shape_wire(s: CursorShape) -> CursorShapeWire {
    match s {
        CursorShape::Block => CursorShapeWire::Block,
        CursorShape::Underline => CursorShapeWire::Underline,
        CursorShape::Beam => CursorShapeWire::Beam,
        CursorShape::HollowBlock => CursorShapeWire::HollowBlock,
        CursorShape::Hidden => CursorShapeWire::Hidden,
    }
}

impl From<CursorShape> for CursorShapeWire {
    fn from(s: CursorShape) -> (r: Self) {
        match s {
            CursorShape::Block => CursorShapeWire::Block,
            CursorShape::Underline => CursorShapeWire::Underline,
            CursorShape::Beam => CursorShapeWire::Beam,
            CursorShape::HollowBlock => CursorShapeWire::HollowBlock,
            CursorShape::Hidden => CursorShapeWire::Hidden,
        }
    }
}

impl FromSpecImpl<CursorShape> for CursorShapeWire {
    open spec fn obeys_from_spec() -> bool {
        true
    }

    open spec fn from_spec(s: CursorShape) -> Self {
        shape_wire(s)
    }
}

/// The cursor.
#[derive(Debug, Clone, Copy, PartialEq, Eq, Structural)]
pub struct CursorWire {
    pub col: usize,
    pub line: usize,
    pub visible: bool,
    pub shape: CursorShapeWire,
}

/// All that is to be drawn of one tab.
#[derive(Debug, Clone, PartialEq, Eq)]
pub struct Snapshot {
    pub workspace_id: u64,
    pub tab_id: u64,
    pub cols: usize,
    pub rows: usize,
    pub cells: Vec<CellWire>,
    pub row_texts: Vec<String>,
    pub cursor: CursorWire,
    pub title: String,
}

/// A tab in a list.
#[derive(Debug, PartialEq, Eq)]
pub struct TabMeta {
    pub tab_id: u64,
    pub title: String,
}

impl Clone for TabMeta {
    fn clone(&self) -> (r: Self)
        ensures
            r == *self,
    {
        TabMeta { tab_id: self.tab_id, title: self.title.clone() }
    }
}

/// The tabs of a workspace.
#[derive(Debug, PartialEq, Eq)]
pub struct WorkspaceInfo {
    pub workspace_id: u64,
    pub tabs: Vec<TabMeta>,
    pub active: usize,
    pub cols: usize,
    pub rows: usize,
}

/// A workspace in a list.
#[derive(Debug, PartialEq, Eq)]
pub struct WorkspaceMeta {
    pub id: u64,
    pub title: String,
    pub tab_count: usize,
    pub active: bool,
}

/// All workspaces, and which of them is active.
#[derive(Debug, PartialEq, Eq)]
pub struct WorkspaceList {
    pub workspaces: Vec<WorkspaceMeta>,
    pub active: u64,
}

/// What the daemon tells a client.
#[derive(Debug, PartialEq, Eq)]
pub enum ServerMsg {
    Snapshot(Snapshot),
    Workspace(WorkspaceInfo),
    Workspaces(WorkspaceList),
    TabAdded { workspace_id: u64, tab: TabMeta },
    TabRemoved { workspace_id: u64, tab_id: u64 },
    /// The bytes that follow belong to this tab.
    StreamFocus { workspace_id: u64, tab_id: u64 },
    /// The size of the terminal in the window.
    Dims { cols: u16, rows: u16 },
}

/// An operation on the tabs of a workspace.
#[derive(Debug, Clone, PartialEq, Eq)]
pub enum TabOp {
    New,
    Close { tab_id: u64 },
    Select { idx: usize },
    Reorder { origin: usize, target: usize },
    SetTitle { tab_id: u64, title: String },
}

/// What a client tells the daemon.
#[derive(Debug, Clone, PartialEq, Eq)]
pub enum ClientMsg {
    Input { workspace_id: u64, tab_id: u64, bytes: Vec<u8> },
    Resize { workspace_id: u64, cols: u16, rows: u16 },
    TabOp { workspace_id: u64, op: TabOp },
    Hold { workspace_id: u64 },
    Release { workspace_id: u64 },
}

/// A colour survives the way through a message.
pub proof fn law_color_roundtrip(c: Color)
    ensures
        wire_color(color_wire(c)) == c,
{
}

} // verus!
