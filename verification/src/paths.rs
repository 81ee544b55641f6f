//! Paths as bytes: their parts, and which directory holds what.

use crate::text::same_bytes;
use vstd::prelude::*;
use vstd::slice::slice_subrange;

verus! {

/// Where the part that begins at `i` ends.
pub open spec fn part_end(s: Seq<u8>, i: int) -> int
    decreases s.len() - i,
{
    if i >= s.len() || s[i] == 0x2f {
        i
    } else {
        part_end(s, i + 1)
    }
}

/// The parts of a path from `i` on. A part `.` is none.
pub open spec fn parts(s: Seq<u8>, i: int) -> Seq<Seq<u8>>
    decreases s.len() - i,
{
    if i < 0 || i >= s.len() {
        seq![]
    } else if s[i] == 0x2f {
        parts(s, i + 1)
    } else {
        let e = part_end(s, i + 1);
        if e <= i || e > s.len() {
            seq![]
        } else if s.subrange(i, e) == seq![0x2eu8] {
            parts(s, e)
        } else {
            seq![s.subrange(i, e)] + parts(s, e)
        }
    }
}

/// Whether a path begins at the root.
pub open spec fn is_absolute(s: Seq<u8>) -> bool {
    s.len() > 0 && s[0] == 0x2f
}

/// Whether a path begins with a part `.`, which counts there.
pub open spec fn starts_here(s: Seq<u8>) -> bool {
    s.len() > 0 && s[0] == 0x2e && (s.len() == 1 || s[1] == 0x2f)
}

/// What a path names, however many separators it is written with.
#[verifier::ext_equal]
pub ghost struct Place {
    pub absolute: bool,
    pub here: bool,
    pub parts: Seq<Seq<u8>>,
}

/// What a path names.
pub open spec fn place(s: Seq<u8>) -> Place {
    Place { absolute: is_absolute(s), here: starts_here(s), parts: parts(s, 0) }
}

/// Whether an absolute path is a directory's or one below it: it has the
/// directory's parts, and maybe more. Every path is below the empty one.
pub open spec fn within(path: Seq<u8>, dir: Seq<u8>) -> bool {
    dir.len() == 0 || (is_absolute(dir) && {
        let p = parts(path, 0);
        let d = parts(dir, 0);
        d.len() <= p.len() && p.take(d.len() as int) == d
    })
}

/// What the slices hold.
pub open spec fn byte_views(s: Seq<&[u8]>) -> Seq<Seq<u8>> {
    s.map_values(|x: &[u8]| x@)
}

proof fn lemma_part_end(s: Seq<u8>, i: int)
    requires
        0 <= i <= s.len(),
    ensures
        i <= part_end(s, i) <= s.len(),
    decreases s.len() - i,
{
    if i < s.len() && s[i] != 0x2f {
        lemma_part_end(s, i + 1);
    }
}

/// The parts of a path.
pub fn split_path<'a>(s: &'a [u8]) -> (r: Vec<&'a [u8]>)
    ensures
        byte_views(r@) == parts(s@, 0),
{
    let mut out: Vec<&'a [u8]> = Vec::new();
    let mut i: usize = 0;
    assert(byte_views(out@) + parts(s@, 0) =~= parts(s@, 0));
    while i < s.len()
        invariant
            i <= s@.len(),
            byte_views(out@) + parts(s@, i as int) == parts(s@, 0),
        decreases s@.len() - i,
    {
        if s[i] == 0x2f {
            i = i + 1;
        } else {
            let mut e: usize = i + 1;
            proof {
                lemma_part_end(s@, i + 1);
            }
            while e < s.len() && s[e] != 0x2f
                invariant
                    i < e <= s@.len(),
                    part_end(s@, e as int) == part_end(s@, i + 1),
                decreases s@.len() - e,
            {
                e = e + 1;
            }
            let part: &'a [u8] = slice_subrange(s, i, e);
            let ghost before = byte_views(out@);
            if part.len() == 1 && part[0] == 0x2e {
                assert(part@ =~= seq![0x2eu8]);
            } else {
                assert(part@ != seq![0x2eu8]);
                out.push(part);
                assert(byte_views(out@) =~= before.push(part@));
                assert(before + (seq![part@] + parts(s@, e as int)) =~= before.push(part@) + parts(
                    s@,
                    e as int,
                ));
            }
            i = e;
        }
    }
    assert(byte_views(out@) + seq![] =~= byte_views(out@));
    out
}

/// Whether two paths name the same, part by part.
pub fn same_place(a: &[u8], b: &[u8]) -> (r: bool)
    ensures
        r == (place(a@) == place(b@)),
{
    let absolute: bool = (a.len() > 0 && a[0] == 0x2f) == (b.len() > 0 && b[0] == 0x2f);
    let here_a: bool = a.len() > 0 && a[0] == 0x2e && (a.len() == 1 || a[1] == 0x2f);
    let here_b: bool = b.len() > 0 && b[0] == 0x2e && (b.len() == 1 || b[1] == 0x2f);
    if !absolute || here_a != here_b {
        return false;
    }
    let p: Vec<&[u8]> = split_path(a);
    let q: Vec<&[u8]> = split_path(b);
    assert(byte_views(p@).len() == p@.len() && byte_views(q@).len() == q@.len());
    if p.len() != q.len() {
        return false;
    }
    let mut i: usize = 0;
    while i < p.len()
        invariant
            i <= p@.len() == q@.len(),
            byte_views(p@) == parts(a@, 0),
            byte_views(q@) == parts(b@, 0),
            forall|j: int| 0 <= j < i ==> #[trigger] byte_views(p@)[j] == byte_views(q@)[j],
        decreases p@.len() - i,
    {
        assert(byte_views(p@)[i as int] == p@[i as int]@);
        assert(byte_views(q@)[i as int] == q@[i as int]@);
        if !same_bytes(p[i], q[i]) {
            return false;
        }
        i = i + 1;
    }
    assert(byte_views(p@) =~= byte_views(q@));
    true
}

/// Whether an absolute path is a directory's or one below it.
pub fn is_within(path: &[u8], dir: &[u8]) -> (b: bool)
    requires
        is_absolute(path@),
    ensures
        b == within(path@, dir@),
{
    if dir.len() == 0 {
        return true;
    }
    if dir[0] != 0x2f {
        return false;
    }
    let p: Vec<&[u8]> = split_path(path);
    let d: Vec<&[u8]> = split_path(dir);
    let ghost ps = parts(path@, 0);
    let ghost ds = parts(dir@, 0);
    assert(ps.len() == p@.len() && ds.len() == d@.len());
    if d.len() > p.len() {
        return false;
    }
    let mut i: usize = 0;
    while i < d.len()
        invariant
            byte_views(p@) == ps,
            byte_views(d@) == ds,
            ps.len() == p@.len(),
            ds.len() == d@.len(),
            ps == parts(path@, 0),
            ds == parts(dir@, 0),
            i <= d@.len() <= p@.len(),
            is_absolute(dir@),
            forall|j: int| 0 <= j < i ==> ps[j] == ds[j],
        decreases d@.len() - i,
    {
        assert(ps[i as int] == p@[i as int]@ && ds[i as int] == d@[i as int]@);
        if !same_bytes(p[i], d[i]) {
            assert(ps.take(ds.len() as int)[i as int] != ds[i as int]);
            return false;
        }
        i = i + 1;
    }
    assert(ps.take(ds.len() as int) =~= ds);
    true
}

/// Whether an absolute path is below one of the directories.
pub open spec fn within_any(path: Seq<u8>, dirs: Seq<Vec<u8>>) -> bool {
    exists|i: int| 0 <= i < dirs.len() && within(path, (#[trigger] dirs[i])@)
}

/// Whether a program may be asked: it is below one of the directories.
pub fn path_is_allowed(binary_path: &[u8], allow_paths: &Vec<Vec<u8>>) -> (b: bool)
    requires
        is_absolute(binary_path@),
    ensures
        b == within_any(binary_path@, allow_paths@),
{
    let mut i: usize = 0;
    while i < allow_paths.len()
        invariant
            is_absolute(binary_path@),
            i <= allow_paths@.len(),
            forall|j: int| 0 <= j < i ==> !within(binary_path@, (#[trigger] allow_paths@[j])@),
        decreases allow_paths@.len() - i,
    {
        if is_within(binary_path, allow_paths[i].as_slice()) {
            return true;
        }
        i = i + 1;
    }
    false
}

proof fn lemma_parts_add(s: Seq<u8>, t: Seq<u8>, i: int)
    requires
        0 <= i <= s.len(),
    ensures
        parts(s + seq![0x2fu8] + t, i) == parts(s, i) + parts(s + seq![0x2fu8] + t, s.len() as int),
    decreases s.len() - i,
{
    let w = s + seq![0x2fu8] + t;
    if i == s.len() {
        assert(parts(s, i) + parts(w, s.len() as int) =~= parts(w, s.len() as int));
    } else if s[i] == 0x2f {
        assert(w[i] == s[i]);
        lemma_parts_add(s, t, i + 1);
    } else {
        assert(w[i] == s[i]);
        lemma_part_end(s, i + 1);
        lemma_part_end_add(s, t, i + 1);
        let e = part_end(s, i + 1);
        assert(w.subrange(i, e) =~= s.subrange(i, e));
        lemma_parts_add(s, t, e);
        let rest = parts(w, s.len() as int);
        assert(seq![s.subrange(i, e)] + (parts(s, e) + rest) =~= (seq![s.subrange(i, e)] + parts(
            s,
            e,
        )) + rest);
    }
}

proof fn lemma_part_end_add(s: Seq<u8>, t: Seq<u8>, i: int)
    requires
        0 <= i <= s.len(),
    ensures
        part_end(s + seq![0x2fu8] + t, i) == part_end(s, i),
    decreases s.len() - i,
{
    let w = s + seq![0x2fu8] + t;
    if i < s.len() {
        assert(w[i] == s[i]);
        lemma_part_end_add(s, t, i + 1);
    } else {
        assert(w[i] == 0x2f);
    }
}

/// What lies in an absolute directory is within it.
pub proof fn law_within_dir(dir: Seq<u8>, name: Seq<u8>)
    requires
        is_absolute(dir),
    ensures
        within(dir, dir),
        within(dir + seq![0x2fu8] + name, dir),
{
    let d = parts(dir, 0);
    assert(d.take(d.len() as int) =~= d);
    lemma_parts_add(dir, name, 0);
    let p = parts(dir + seq![0x2fu8] + name, 0);
    assert(p.take(d.len() as int) =~= d);
}

/// So many separators.
pub open spec fn slashes(n: nat) -> Seq<u8> {
    Seq::new(n, |i: int| 0x2fu8)
}

/// A part of a path as it is written: it holds no separator.
pub open spec fn is_part(p: Seq<u8>) -> bool {
    p.len() > 0 && !p.contains(0x2f)
}

/// A path written as its parts, each behind so many separators, and with so
/// many at the end.
pub open spec fn written(ps: Seq<Seq<u8>>, gaps: Seq<nat>, behind: nat) -> Seq<u8>
    decreases ps.len(),
{
    if ps.len() == 0 {
        slashes(behind)
    } else {
        slashes(gaps[0]) + ps[0] + written(ps.skip(1), gaps.skip(1), behind)
    }
}

/// The parts that count: all but `.`.
pub open spec fn counted(ps: Seq<Seq<u8>>) -> Seq<Seq<u8>>
    decreases ps.len(),
{
    if ps.len() == 0 {
        seq![]
    } else if ps[0].len() == 1 && ps[0][0] == 0x2e {
        counted(ps.skip(1))
    } else {
        seq![ps[0]] + counted(ps.skip(1))
    }
}

proof fn lemma_skip_slashes(s: Seq<u8>, i: int, n: nat)
    requires
        0 <= i,
        i + n <= s.len(),
        forall|j: int| i <= j < i + n ==> #[trigger] s[j] == 0x2f,
    ensures
        parts(s, i) == parts(s, i + n),
    decreases n,
{
    if n > 0 {
        assert(s[i] == 0x2f);
        lemma_skip_slashes(s, i + 1, (n - 1) as nat);
    }
}

proof fn lemma_part_end_is(s: Seq<u8>, i: int, k: int)
    requires
        0 <= i <= k <= s.len(),
        forall|j: int| i <= j < k ==> #[trigger] s[j] != 0x2f,
        k < s.len() ==> s[k] == 0x2f,
    ensures
        part_end(s, i) == k,
    decreases k - i,
{
    if i < k {
        assert(s[i] != 0x2f);
        lemma_part_end_is(s, i + 1, k);
    }
}

proof fn lemma_written(front: Seq<u8>, ps: Seq<Seq<u8>>, gaps: Seq<nat>, behind: nat)
    requires
        gaps.len() == ps.len(),
        forall|i: int| 0 <= i < ps.len() ==> is_part(#[trigger] ps[i]),
        forall|i: int| 0 < i < gaps.len() ==> #[trigger] gaps[i] > 0,
    ensures
        parts(front + written(ps, gaps, behind), front.len() as int) == counted(ps),
    decreases ps.len(),
{
    let w = written(ps, gaps, behind);
    let s = front + w;
    let n = front.len() as int;
    if ps.len() == 0 {
        assert forall|j: int| n <= j < n + behind implies #[trigger] s[j] == 0x2f by {
            assert(s[j] == slashes(behind)[j - n]);
        }
        lemma_skip_slashes(s, n, behind);
        assert(parts(s, n) =~= counted(ps));
    } else {
        let p = ps[0];
        let g = gaps[0];
        let rest = ps.skip(1);
        let more = gaps.skip(1);
        let tail = written(rest, more, behind);
        assert(is_part(p));
        assert forall|j: int| n <= j < n + g implies #[trigger] s[j] == 0x2f by {
            assert(s[j] == slashes(g)[j - n]);
        }
        lemma_skip_slashes(s, n, g);
        let a = n + g;
        let e = a + p.len();
        assert(s.subrange(a, e) =~= p);
        assert forall|j: int| a <= j < e implies #[trigger] s[j] != 0x2f by {
            assert(s[j] == p[j - a]);
            assert(p.contains(p[j - a]));
        }
        let next = front + slashes(g) + p;
        assert(s =~= next + tail);
        assert forall|i: int| 0 <= i < rest.len() implies is_part(#[trigger] rest[i]) by {
            assert(rest[i] == ps[i + 1]);
        }
        assert forall|i: int| 0 <= i < more.len() implies #[trigger] more[i] > 0 by {
            assert(more[i] == gaps[i + 1]);
        }
        if e < s.len() {
            assert(s[e] == tail[0]);
            if rest.len() > 0 {
                assert(more[0] > 0);
                assert(tail[0] == slashes(more[0])[0]);
            } else {
                assert(tail[0] == slashes(behind)[0]);
            }
        }
        lemma_part_end_is(s, a + 1, e);
        lemma_written(next, rest, more, behind);
        if p.len() == 1 && p[0] == 0x2e {
            assert(p =~= seq![0x2eu8]);
        } else {
            assert(p != seq![0x2eu8]) by {
                if p == seq![0x2eu8] {
                    assert(p.len() == 1 && p[0] == 0x2e);
                }
            }
        }
    }
}

/// The parts of a path are those it is written with, however many separators
/// stand between them, and without those that are `.`.
pub proof fn law_parts_are_read(ps: Seq<Seq<u8>>, gaps: Seq<nat>, behind: nat)
    requires
        gaps.len() == ps.len(),
        forall|i: int| 0 <= i < ps.len() ==> is_part(#[trigger] ps[i]),
        forall|i: int| 0 < i < gaps.len() ==> #[trigger] gaps[i] > 0,
    ensures
        parts(written(ps, gaps, behind), 0) == counted(ps),
{
    let none = Seq::<u8>::empty();
    lemma_written(none, ps, gaps, behind);
    assert(none + written(ps, gaps, behind) =~= written(ps, gaps, behind));
}

/// A path is within a directory where it goes on from it part by part: a name
/// that only begins alike is another directory.
pub proof fn law_within_goes_by_parts(
    ps: Seq<Seq<u8>>,
    p_gaps: Seq<nat>,
    p_behind: nat,
    ds: Seq<Seq<u8>>,
    d_gaps: Seq<nat>,
    d_behind: nat,
)
    requires
        p_gaps.len() == ps.len(),
        d_gaps.len() == ds.len(),
        forall|i: int| 0 <= i < ps.len() ==> is_part(#[trigger] ps[i]),
        forall|i: int| 0 <= i < ds.len() ==> is_part(#[trigger] ds[i]),
        forall|i: int| 0 <= i < p_gaps.len() ==> #[trigger] p_gaps[i] > 0,
        forall|i: int| 0 <= i < d_gaps.len() ==> #[trigger] d_gaps[i] > 0,
        ds.len() > 0 || d_behind > 0,
    ensures
        within(written(ps, p_gaps, p_behind), written(ds, d_gaps, d_behind)) <==> {
            let (p, d) = (counted(ps), counted(ds));
            d.len() <= p.len() && forall|i: int| 0 <= i < d.len() ==> #[trigger] p[i] == d[i]
        },
{
    let dir = written(ds, d_gaps, d_behind);
    law_parts_are_read(ps, p_gaps, p_behind);
    law_parts_are_read(ds, d_gaps, d_behind);
    assert(is_absolute(dir)) by {
        if ds.len() > 0 {
            assert(d_gaps[0] > 0);
            assert(dir[0] == slashes(d_gaps[0])[0]);
        } else {
            assert(dir[0] == slashes(d_behind)[0]);
        }
    }
    let (p, d) = (counted(ps), counted(ds));
    if d.len() <= p.len() {
        let n = d.len() as int;
        if p.take(n) == d {
            assert forall|i: int| 0 <= i < d.len() implies #[trigger] p[i] == d[i] by {
                assert(p.take(n)[i] == p[i]);
            }
        }
        if forall|i: int| 0 <= i < d.len() ==> #[trigger] p[i] == d[i] {
            assert(p.take(n) =~= d);
        }
    }
}

/// Two paths name the same where they begin alike, at the root, in `.` or
/// neither, and have the same parts.
pub proof fn law_same_place(a: Seq<u8>, b: Seq<u8>)
    ensures
        place(a) == place(b) <==> {
            &&& (a.len() > 0 && a[0] == 0x2f) == (b.len() > 0 && b[0] == 0x2f)
            &&& (a.len() > 0 && a[0] == 0x2e && (a.len() == 1 || a[1] == 0x2f)) == (b.len() > 0
                && b[0] == 0x2e && (b.len() == 1 || b[1] == 0x2f))
            &&& parts(a, 0) == parts(b, 0)
        },
{
}

} // verus!
