//! What goes over the wires, byte by byte, and what is read of any bytes.

use crate::kernel::feed::{
    byte_kind, dims, dims_payload, encoded, front, kind_byte, law_kind_bytes_differ,
    tab_list_payload, tab_op_payload, tabs_bytes, FeedError, FeedTabOp, Frame, FrameKind, Front,
    TabEntry,
};
use crate::kernel::le::{le, lemma_pow256, lemma_value_bound, lemma_value_le, value};
use crate::kernel::proto::{cell_wire, shape_wire};
use crate::kernel::ring::last_n;
use crate::term::{CellRef, CursorShape};
use vstd::prelude::*;

verus! {

/// What bytes are worth, the first least.
pub open spec fn worth(s: Seq<u8>) -> int
    decreases s.len(),
{
    if s.len() == 0 {
        0
    } else {
        s[0] + 256 * worth(s.skip(1))
    }
}

proof fn lemma_worth(s: Seq<u8>)
    ensures
        worth(s) == value(s),
    decreases s.len(),
{
    if s.len() > 0 {
        lemma_worth(s.skip(1));
    }
}

proof fn lemma_worth_le(v: int, n: nat)
    requires
        0 <= v,
        n == 2 && v <= 0xffff || n == 4 && v <= 0xffff_ffff || n == 8 && v
            <= 0xffff_ffff_ffff_ffff,
    ensures
        worth(le(v, n)) == v,
        le(v, n).len() == n,
{
    lemma_pow256();
    lemma_value_le(v, n);
    lemma_worth(le(v, n));
}

/// The number by which a kind of frame is known.
pub open spec fn known_as(kind: FrameKind) -> int {
    match kind {
        FrameKind::PtyOutput => 1,
        FrameKind::Input => 2,
        FrameKind::FocusChange => 3,
        FrameKind::WorkspaceAdd => 4,
        FrameKind::WorkspaceRemove => 5,
        FrameKind::Dims => 6,
        FrameKind::TabList => 7,
        FrameKind::TabOp => 8,
    }
}

/// A frame is a byte for its kind, eight for the workspace, eight for the tab,
/// four for the length of the payload, and the payload.
pub proof fn law_frame_as_written(f: Frame)
    requires
        f.payload.len() <= 0xffff_ffff,
    ensures
        encoded(f).len() == 21 + f.payload.len(),
        encoded(f)[0] == known_as(f.kind),
        worth(encoded(f).subrange(1, 9)) == f.ws_id,
        worth(encoded(f).subrange(9, 17)) == f.tab_id,
        worth(encoded(f).subrange(17, 21)) == f.payload.len(),
        encoded(f).skip(21) == f.payload,
{
    let e = encoded(f);
    lemma_worth_le(f.ws_id as int, 8);
    lemma_worth_le(f.tab_id as int, 8);
    lemma_worth_le(f.payload.len() as int, 4);
    assert(e.subrange(1, 9) =~= le(f.ws_id as int, 8));
    assert(e.subrange(9, 17) =~= le(f.tab_id as int, 8));
    assert(e.subrange(17, 21) =~= le(f.payload.len() as int, 4));
    assert(e.skip(21) =~= f.payload);
}

/// What is read of any bytes. Less than a header is waited for. Then the kind
/// is judged, then the length, which is at most 16777216, and only then the
/// payload is waited for. A whole frame is what its bytes say.
pub proof fn law_frame_as_read(s: Seq<u8>)
    ensures
        s.len() < 21 ==> front(s) is Short,
        s.len() >= 21 && (s[0] == 0 || s[0] > 8) ==> front(s) == Front::Bad(
            FeedError::InvalidKind(s[0]),
        ),
        s.len() >= 21 && 1 <= s[0] <= 8 ==> ({
            let len = worth(s.subrange(17, 21));
            &&& len > 16777216 ==> front(s) == Front::Bad(FeedError::PayloadTooLarge(len as usize))
            &&& len <= 16777216 && s.len() < 21 + len ==> front(s) is Short
            &&& len <= 16777216 && s.len() >= 21 + len ==> match front(s) {
                Front::Whole(f, n) => {
                    &&& n == 21 + len
                    &&& known_as(f.kind) == s[0]
                    &&& f.ws_id == worth(s.subrange(1, 9))
                    &&& f.tab_id == worth(s.subrange(9, 17))
                    &&& f.payload == s.subrange(21, 21 + len)
                },
                _ => false,
            }
        }),
{
    if s.len() >= 21 {
        lemma_pow256();
        lemma_worth(s.subrange(17, 21));
        lemma_worth(s.subrange(1, 9));
        lemma_worth(s.subrange(9, 17));
        lemma_value_bound(s.subrange(1, 9));
        lemma_value_bound(s.subrange(9, 17));
        lemma_value_bound(s.subrange(17, 21));
        if 1 <= s[0] <= 8 {
            let kind = if s[0] == 1 {
                FrameKind::PtyOutput
            } else if s[0] == 2 {
                FrameKind::Input
            } else if s[0] == 3 {
                FrameKind::FocusChange
            } else if s[0] == 4 {
                FrameKind::WorkspaceAdd
            } else if s[0] == 5 {
                FrameKind::WorkspaceRemove
            } else if s[0] == 6 {
                FrameKind::Dims
            } else if s[0] == 7 {
                FrameKind::TabList
            } else {
                FrameKind::TabOp
            };
            assert(kind_byte(kind) == s[0]);
            law_kind_bytes_differ(kind, kind);
            assert(byte_kind(s[0]) == Some(kind));
        }
    }
}

/// A size is its columns, then its rows, two bytes each; four bytes are read as
/// a size, and nothing else is.
pub proof fn law_size_bytes(cols: u16, rows: u16, p: Seq<u8>)
    ensures
        ({
            let d = dims_payload(cols, rows);
            &&& d.len() == 4
            &&& d[0] + 256 * d[1] == cols
            &&& d[2] + 256 * d[3] == rows
        }),
        p.len() != 4 ==> dims(p) is None,
        p.len() == 4 ==> match dims(p) {
            Some((c, r)) => c == p[0] + 256 * p[1] && r == p[2] + 256 * p[3],
            None => false,
        },
{
    reveal_with_fuel(le, 3);
    reveal_with_fuel(value, 3);
    let d = dims_payload(cols, rows);
    assert(d =~= seq![
        (cols % 256) as u8,
        (cols as int / 256 % 256) as u8,
        (rows % 256) as u8,
        (rows as int / 256 % 256) as u8,
    ]);
    if p.len() == 4 {
        let a = p.subrange(0, 2);
        let b = p.subrange(2, 4);
        assert(a[0] == p[0] && a.skip(1)[0] == p[1] && b[0] == p[2] && b.skip(1)[0] == p[3]);
        assert(a.skip(1).skip(1).len() == 0 && b.skip(1).skip(1).len() == 0);
        assert(value(a) == p[0] + 256 * p[1]);
        assert(value(b) == p[2] + 256 * p[3]);
    }
}

/// A list of tabs is the number of the active one, how many there are, and then
/// one behind the other the number of each, the length of its title and its
/// title.
pub proof fn law_tab_list_as_written(active: int, tabs: Seq<TabEntry>)
    requires
        0 <= active <= 0xffff_ffff,
        tabs.len() <= 0xffff_ffff,
        forall|i: int| 0 <= i < tabs.len() ==> (#[trigger] tabs[i]).title.len() <= 0xffff_ffff,
    ensures
        ({
            let p = tab_list_payload(active, tabs);
            &&& p.len() >= 8
            &&& worth(p.subrange(0, 4)) == active
            &&& worth(p.subrange(4, 8)) == tabs.len()
            &&& tabs.len() == 0 ==> p.len() == 8
            &&& tabs.len() > 0 ==> {
                let n = 20 + tabs[0].title.len() as int;
                &&& p.len() >= n
                &&& worth(p.subrange(8, 16)) == tabs[0].id
                &&& worth(p.subrange(16, 20)) == tabs[0].title.len()
                &&& p.subrange(20, n) == tabs[0].title
                &&& p.skip(n) == tab_list_payload(active, tabs.skip(1)).skip(8)
            }
        }),
{
    let p = tab_list_payload(active, tabs);
    lemma_worth_le(active, 4);
    lemma_worth_le(tabs.len() as int, 4);
    assert(p.subrange(0, 4) =~= le(active, 4));
    assert(p.subrange(4, 8) =~= le(tabs.len() as int, 4));
    if tabs.len() > 0 {
        let t = tabs[0];
        let n = 20 + t.title.len() as int;
        lemma_worth_le(t.id as int, 8);
        lemma_worth_le(t.title.len() as int, 4);
        lemma_worth_le(tabs.skip(1).len() as int, 4);
        assert(p.subrange(8, 16) =~= le(t.id as int, 8));
        assert(p.subrange(16, 20) =~= le(t.title.len() as int, 4));
        assert(p.subrange(20, n) =~= t.title);
        assert(p.skip(n) =~= tabs_bytes(tabs.skip(1)));
        assert(tab_list_payload(active, tabs.skip(1)).skip(8) =~= tabs_bytes(tabs.skip(1)));
    }
}

/// The operations on tabs: a byte that tells which it is, then the tab's number,
/// or the two places.
pub proof fn law_operations_bytes(tab_id: u64, origin: u32, target: u32)
    ensures
        tab_op_payload(FeedTabOp::New) == seq![1u8],
        ({
            let close = tab_op_payload(FeedTabOp::Close { tab_id });
            let reorder = tab_op_payload(FeedTabOp::Reorder { origin, target });
            &&& close.len() == 9 && close[0] == 2 && worth(close.skip(1)) == tab_id
            &&& reorder.len() == 9 && reorder[0] == 3
            &&& worth(reorder.subrange(1, 5)) == origin
            &&& worth(reorder.subrange(5, 9)) == target
        }),
{
    let close = tab_op_payload(FeedTabOp::Close { tab_id });
    let reorder = tab_op_payload(FeedTabOp::Reorder { origin, target });
    lemma_worth_le(tab_id as int, 8);
    lemma_worth_le(origin as int, 4);
    lemma_worth_le(target as int, 4);
    assert(close.skip(1) =~= le(tab_id as int, 8));
    assert(reorder.subrange(1, 5) =~= le(origin as int, 4));
    assert(reorder.subrange(5, 9) =~= le(target as int, 4));
}

/// A ring keeps as many of the last bytes as its limit allows, each where it
/// was counted from the end.
pub proof fn law_ring_keeps_the_end(s: Seq<u8>, cap: nat)
    ensures
        s.len() <= cap ==> last_n(s, cap) == s,
        s.len() > cap ==> last_n(s, cap).len() == cap && forall|i: int|
            0 <= i < cap ==> #[trigger] last_n(s, cap)[i] == s[s.len() - cap + i],
{
}

/// A cell is told with its place, its character and its colours as they are,
/// and the cursor's shape by its name.
pub proof fn law_cells_are_told_as_they_are(c: CellRef, s: CursorShape)
    ensures
        ({
            let w = cell_wire(c);
            &&& w.col == c.pos.col && w.line == c.pos.line && w.c == c.c
            &&& w.fg.r == c.fg.r && w.fg.g == c.fg.g && w.fg.b == c.fg.b
            &&& w.bg.r == c.bg.r && w.bg.g == c.bg.g && w.bg.b == c.bg.b
        }),
        s is Block <==> shape_wire(s) is Block,
        s is Underline <==> shape_wire(s) is Underline,
        s is Beam <==> shape_wire(s) is Beam,
        s is HollowBlock <==> shape_wire(s) is HollowBlock,
        s is Hidden <==> shape_wire(s) is Hidden,
{
}

} // verus!
