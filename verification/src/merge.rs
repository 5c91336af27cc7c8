//! Colinear merging of unit edges into longer segments.
//!
//! Unit edges that run along one axis, share their two fixed coordinates
//! and their color, and touch end to start are coalesced into one longer
//! segment. Edges are grouped by (axis, fixed coordinates, color), each
//! group is sorted by the coordinate that varies, and each sorted group is
//! walked once, emitting a segment whenever the chain breaks. Two emitted
//! segments of one group therefore always leave a gap between them.

use crate::edges::{same_edge, Line};
use crate::pos::{Axis, BlockPos};
use vstd::prelude::*;

verus! {

/// The axis a nondegenerate axis-aligned line runs along.
pub open spec fn line_axis(l: Line) -> Axis {
    if l.start.x < l.end.x {
        Axis::X
    } else if l.start.y < l.end.y {
        Axis::Y
    } else {
        Axis::Z
    }
}

/// The coordinate of a point along an axis.
pub open spec fn point_var(a: Axis, p: BlockPos) -> int {
    match a {
        Axis::X => p.x as int,
        Axis::Y => p.y as int,
        Axis::Z => p.z as int,
    }
}

/// Whether a line is a unit edge: its end is one step from its start
/// along exactly one axis.
pub open spec fn is_unit_edge(l: Line) -> bool {
    ||| (l.end.x == l.start.x + 1 && l.end.y == l.start.y && l.end.z == l.start.z)
    ||| (l.end.x == l.start.x && l.end.y == l.start.y + 1 && l.end.z == l.start.z)
    ||| (l.end.x == l.start.x && l.end.y == l.start.y && l.end.z == l.start.z + 1)
}

/// Whether a line is an axis-aligned segment of at least one unit,
/// running toward positive coordinates.
pub open spec fn is_segment(l: Line) -> bool {
    ||| (l.start.x < l.end.x && l.end.y == l.start.y && l.end.z == l.start.z)
    ||| (l.end.x == l.start.x && l.start.y < l.end.y && l.end.z == l.start.z)
    ||| (l.end.x == l.start.x && l.end.y == l.start.y && l.start.z < l.end.z)
}

/// The number of unit edges a segment spans.
pub open spec fn seg_len(l: Line) -> int {
    (l.end.x - l.start.x) + (l.end.y - l.start.y) + (l.end.z - l.start.z)
}

/// Whether both endpoints fit the packed coordinate range, with one unit
/// of slack for the far corners of boundary cells.
pub open spec fn line_in_bounds(l: Line) -> bool {
    &&& -0x2000000 <= l.start.x <= 0x2000000
    &&& -0x2000000 <= l.start.y <= 0x2000000
    &&& -0x2000000 <= l.start.z <= 0x2000000
    &&& -0x2000000 <= l.end.x <= 0x2000000
    &&& -0x2000000 <= l.end.y <= 0x2000000
    &&& -0x2000000 <= l.end.z <= 0x2000000
}

/// The group a line merges within: its axis, its two fixed coordinates
/// and its color.
pub open spec fn group_key(l: Line) -> (Axis, int, int, u32) {
    match line_axis(l) {
        Axis::X => (Axis::X, l.start.y as int, l.start.z as int, l.color),
        Axis::Y => (Axis::Y, l.start.x as int, l.start.z as int, l.color),
        Axis::Z => (Axis::Z, l.start.x as int, l.start.y as int, l.color),
    }
}

/// The coordinate of a segment's start along its own axis.
pub open spec fn seg_start_var(l: Line) -> int {
    point_var(line_axis(l), l.start)
}

/// The coordinate of a segment's end along its own axis.
pub open spec fn seg_end_var(l: Line) -> int {
    point_var(line_axis(l), l.end)
}

/// The `u`-th unit edge of a segment, counted from its start.
pub open spec fn seg_unit(l: Line, u: int) -> Line {
    match line_axis(l) {
        Axis::X => Line {
            start: BlockPos { x: (l.start.x + u) as i32, y: l.start.y, z: l.start.z },
            end: BlockPos { x: (l.start.x + u + 1) as i32, y: l.start.y, z: l.start.z },
            color: l.color,
        },
        Axis::Y => Line {
            start: BlockPos { x: l.start.x, y: (l.start.y + u) as i32, z: l.start.z },
            end: BlockPos { x: l.start.x, y: (l.start.y + u + 1) as i32, z: l.start.z },
            color: l.color,
        },
        Axis::Z => Line {
            start: BlockPos { x: l.start.x, y: l.start.y, z: (l.start.z + u) as i32 },
            end: BlockPos { x: l.start.x, y: l.start.y, z: (l.start.z + u + 1) as i32 },
            color: l.color,
        },
    }
}

/// A unit edge is its own single unit.
proof fn lemma_unit_of_unit(l: Line)
    requires
        is_unit_edge(l),
    ensures
        seg_len(l) == 1,
        seg_unit(l, 0) == l,
{
}

/// Whether some line among the first `i` shares a line's group.
pub open spec fn grouped_before(lines: Seq<Line>, t: int, i: int) -> bool {
    exists|j: int| 0 <= j < i && group_key(#[trigger] lines[j]) == group_key(lines[t])
}

/// Whether a line is spanned by one of the segments: it is one of some
/// segment's units.
pub open spec fn line_covered(out: Seq<Line>, x: Line) -> bool {
    exists|j: int, u: int|
        #![trigger seg_unit(out[j], u)]
        0 <= j < out.len() && 0 <= u < seg_len(out[j]) && seg_unit(out[j], u) == x
}

/// Whether a segment's group is the group of one of the first `i` lines.
pub open spec fn seg_originates(lines: Seq<Line>, i: int, sgmt: Line) -> bool {
    exists|l: int| 0 <= l < i && group_key(sgmt) == group_key(#[trigger] lines[l])
}

/// A covered line stays covered when segments are appended on the right.
proof fn lemma_covered_push(s: Seq<Line>, l: Line, x: Line)
    requires
        line_covered(s, x),
    ensures
        line_covered(s.push(l), x),
{
    let (j, u): (int, int) = choose|j: int, u: int|
        #![trigger seg_unit(s[j], u)]
        0 <= j < s.len() && 0 <= u < seg_len(s[j]) && seg_unit(s[j], u) == x;
    assert(s.push(l)[j] == s[j]);
    assert(seg_unit(s.push(l)[j], u) == x);
}

/// A covered line stays covered in a concatenation, from either side.
proof fn lemma_covered_cat_left(prev: Seq<Line>, more: Seq<Line>, x: Line)
    requires
        line_covered(prev, x),
    ensures
        line_covered(prev + more, x),
{
    let (j, u): (int, int) = choose|j: int, u: int|
        #![trigger seg_unit(prev[j], u)]
        0 <= j < prev.len() && 0 <= u < seg_len(prev[j]) && seg_unit(prev[j], u) == x;
    assert((prev + more)[j] == prev[j]);
    assert(seg_unit((prev + more)[j], u) == x);
}

/// A covered line stays covered in a concatenation, from either side.
proof fn lemma_covered_cat_right(prev: Seq<Line>, more: Seq<Line>, x: Line)
    requires
        line_covered(more, x),
    ensures
        line_covered(prev + more, x),
{
    let (j, u): (int, int) = choose|j: int, u: int|
        #![trigger seg_unit(more[j], u)]
        0 <= j < more.len() && 0 <= u < seg_len(more[j]) && seg_unit(more[j], u) == x;
    assert((prev + more)[prev.len() + j] == more[j]);
    assert(seg_unit((prev + more)[prev.len() + j], u) == x);
}

/// The axis a line runs along.
fn axis_of_line(l: &Line) -> (a: Axis)
    ensures
        a == line_axis(*l),
{
    if l.start.x < l.end.x {
        Axis::X
    } else if l.start.y < l.end.y {
        Axis::Y
    } else {
        Axis::Z
    }
}

/// Whether two lines merge within the same group.
fn same_group(a: &Line, b: &Line) -> (r: bool)
    ensures
        r == (group_key(*a) == group_key(*b)),
{
    let aa = axis_of_line(a);
    let ab = axis_of_line(b);
    if !matches!((aa, ab), (Axis::X, Axis::X) | (Axis::Y, Axis::Y) | (Axis::Z, Axis::Z)) {
        return false;
    }
    if a.color != b.color {
        return false;
    }
    match aa {
        Axis::X => a.start.y == b.start.y && a.start.z == b.start.z,
        Axis::Y => a.start.x == b.start.x && a.start.z == b.start.z,
        Axis::Z => a.start.x == b.start.x && a.start.y == b.start.y,
    }
}

/// The coordinate of a point along an axis.
fn var_of(axis: Axis, p: &BlockPos) -> (r: i32)
    ensures
        r as int == point_var(axis, *p),
{
    match axis {
        Axis::X => p.x,
        Axis::Y => p.y,
        Axis::Z => p.z,
    }
}

/// Every line sharing the leader's group, in input order.
fn collect_group(lines: &Vec<Line>, leader: &Line) -> (members: Vec<Line>)
    requires
        forall|i: int, j: int| 0 <= i < j < lines@.len() ==> !same_edge(lines@[i], lines@[j]),
    ensures
        members@.no_duplicates(),
        forall|t: int|
            0 <= t < members@.len() ==> lines@.contains(#[trigger] members@[t]) && group_key(
                members@[t],
            ) == group_key(*leader),
        forall|i: int|
            0 <= i < lines@.len() && group_key(#[trigger] lines@[i]) == group_key(*leader)
                ==> members@.contains(lines@[i]),
{
    let n = lines.len();
    let mut members: Vec<Line> = Vec::new();
    let mut i: usize = 0;
    while i < n
        invariant
            i <= n,
            n == lines@.len(),
            forall|i2: int, j2: int|
                0 <= i2 < j2 < lines@.len() ==> !same_edge(lines@[i2], lines@[j2]),
            forall|t: int|
                0 <= t < members@.len() ==> lines@.contains(#[trigger] members@[t]) && group_key(
                    members@[t],
                ) == group_key(*leader),
            forall|t: int|
                0 <= t < members@.len() ==> exists|j2: int|
                    0 <= j2 < i && #[trigger] members@[t] == lines@[j2],
            forall|j2: int|
                0 <= j2 < i && group_key(#[trigger] lines@[j2]) == group_key(*leader)
                    ==> members@.contains(lines@[j2]),
            members@.no_duplicates(),
        decreases n - i,
    {
        let ghost prev = members@;
        let li = lines[i];
        if same_group(&li, leader) {
            proof {
                assert(lines@.contains(lines@[i as int]));
                // a duplicate would be an earlier input with the same
                // endpoints
                if members@.contains(li) {
                    let t = choose|t: int| 0 <= t < members@.len() && members@[t] == li;
                    let j2 = choose|j2: int| 0 <= j2 < i && members@[t] == lines@[j2];
                    assert(same_edge(lines@[j2], lines@[i as int]));
                    assert(false);
                }
            }
            members.push(li);
            proof {
                assert forall|t: int| 0 <= t < members@.len() implies exists|j2: int|
                    0 <= j2 < i + 1 && #[trigger] members@[t] == lines@[j2] by {
                    if t < prev.len() {
                        let j2 = choose|j2: int| 0 <= j2 < i && #[trigger] prev[t] == lines@[j2];
                        assert(members@[t] == lines@[j2]);
                    } else {
                        assert(members@[t] == lines@[i as int]);
                    }
                }
                assert forall|j2: int|
                    0 <= j2 < i + 1 && group_key(#[trigger] lines@[j2]) == group_key(
                    *leader,
                ) implies members@.contains(lines@[j2]) by {
                    if j2 < i {
                        assert(prev.contains(lines@[j2]));
                        let t = choose|t: int| 0 <= t < prev.len() && prev[t] == lines@[j2];
                        assert(members@[t] == lines@[j2]);
                    } else {
                        assert(members@[members@.len() - 1] == li);
                    }
                }
            }
        } else {
            proof {
                assert forall|t: int| 0 <= t < members@.len() implies exists|j2: int|
                    0 <= j2 < i + 1 && #[trigger] members@[t] == lines@[j2] by {
                    let j2 = choose|j2: int| 0 <= j2 < i && #[trigger] members@[t] == lines@[j2];
                    assert(members@[t] == lines@[j2]);
                }
            }
        }
        i = i + 1;
    }
    members
}

/// The first position whose start coordinate lies beyond `v`, or the
/// length if there is none.
fn insert_pos(out: &Vec<Line>, axis: Axis, v: i32) -> (pos: usize)
    ensures
        pos <= out@.len(),
        forall|r: int| 0 <= r < pos ==> point_var(axis, (#[trigger] out@[r]).start) <= v as int,
        pos < out@.len() ==> point_var(axis, out@[pos as int].start) > v as int,
{
    let n = out.len();
    let mut pos: usize = 0;
    while pos < n
        invariant
            pos <= n,
            n == out@.len(),
            forall|r: int| 0 <= r < pos ==> point_var(axis, (#[trigger] out@[r]).start) <= v as int,
        decreases n - pos,
    {
        if var_of(axis, &out[pos].start) > v {
            return pos;
        }
        pos = pos + 1;
    }
    pos
}

/// The members ordered by their coordinate along the group's axis.
fn sort_group(members: &Vec<Line>, axis: Axis) -> (out: Vec<Line>)
    requires
        members@.no_duplicates(),
    ensures
        out@.len() == members@.len(),
        out@.no_duplicates(),
        forall|x: Line| out@.contains(x) <==> members@.contains(x),
        forall|r1: int, r2: int|
            0 <= r1 < r2 < out@.len() ==> point_var(axis, (#[trigger] out@[r1]).start) <= point_var(
                axis,
                (#[trigger] out@[r2]).start,
            ),
{
    let n = members.len();
    let mut out: Vec<Line> = Vec::new();
    let mut i: usize = 0;
    while i < n
        invariant
            i <= n,
            n == members@.len(),
            members@.no_duplicates(),
            out@.len() == i,
            out@.no_duplicates(),
            forall|x: Line| out@.contains(x) <==> members@.take(i as int).contains(x),
            forall|r1: int, r2: int|
                0 <= r1 < r2 < out@.len() ==> point_var(axis, (#[trigger] out@[r1]).start)
                    <= point_var(axis, (#[trigger] out@[r2]).start),
        decreases n - i,
    {
        let mi = members[i];
        proof {
            assert(members@.take(i as int + 1) =~= members@.take(i as int).push(
                members@[i as int],
            ));
            // the new element is not yet present
            if out@.contains(mi) {
                assert(members@.take(i as int).contains(mi));
                let j2 = choose|j2: int|
                    0 <= j2 < i && members@.take(i as int)[j2] == mi;
                assert(members@[j2] == members@[i as int]);
                assert(false);
            }
        }
        // find the first position whose start lies beyond the new line's
        let v = var_of(axis, &mi.start);
        let pos = insert_pos(&out, axis, v);
        let ghost prev = out@;
        out.insert(pos, mi);
        proof {
            prev.insert_ensures(pos as int, mi);
            assert(out@ == prev.insert(pos as int, mi));
            // ordering is preserved around the insertion point
            assert forall|r1: int, r2: int|
                0 <= r1 < r2 < out@.len() implies point_var(axis, (#[trigger] out@[r1]).start)
                <= point_var(axis, (#[trigger] out@[r2]).start) by {
                if r2 < pos {
                } else if r1 >= pos + 1 {
                    assert(out@[r1] == prev[r1 - 1] && out@[r2] == prev[r2 - 1]);
                } else if r1 < pos && r2 == pos {
                    assert(out@[r1] == prev[r1]);
                } else if r1 < pos && r2 > pos {
                    assert(out@[r1] == prev[r1] && out@[r2] == prev[r2 - 1]);
                    if r2 - 1 >= pos {
                        assert(point_var(axis, prev[pos as int].start) <= point_var(
                            axis,
                            prev[r2 - 1].start,
                        ));
                    }
                } else if r1 == pos {
                    assert(out@[r2] == prev[r2 - 1]);
                    if r2 - 1 >= pos {
                        assert(point_var(axis, prev[pos as int].start) <= point_var(
                            axis,
                            prev[r2 - 1].start,
                        ));
                    }
                }
            }
            // membership is the old membership plus the new element
            assert forall|x: Line| #[trigger] out@.contains(x) implies members@.take(
                i as int + 1,
            ).contains(x) by {
                let r = choose|r: int| 0 <= r < out@.len() && out@[r] == x;
                if r < pos {
                    assert(prev[r] == x);
                    assert(prev.contains(x));
                    assert(members@.take(i as int).contains(x));
                } else if r == pos {
                    assert(x == mi);
                    assert(members@.take(i as int + 1)[i as int] == mi);
                } else {
                    assert(prev[r - 1] == x);
                    assert(prev.contains(x));
                    assert(members@.take(i as int).contains(x));
                }
            }
            assert forall|x: Line| members@.take(i as int + 1).contains(x) implies
                #[trigger] out@.contains(x) by {
                if x == mi {
                    assert(out@[pos as int] == mi);
                } else {
                    let t = members@.take(i as int + 1);
                    let r = choose|r: int| 0 <= r < t.len() && t[r] == x;
                    assert(members@.take(i as int)[r] == x);
                    assert(prev.contains(x));
                    let r2 = choose|r2: int| 0 <= r2 < prev.len() && prev[r2] == x;
                    if r2 < pos {
                        assert(out@[r2] == x);
                    } else {
                        assert(out@[r2 + 1] == x);
                    }
                }
            }
            // distinctness: the old lines keep their positions, shifted
            assert forall|r1: int, r2: int|
                0 <= r1 < r2 < out@.len() implies out@[r1] != out@[r2] by {
                let a1: Line = if r1 < pos {
                    prev[r1]
                } else if r1 == pos {
                    mi
                } else {
                    prev[r1 - 1]
                };
                let a2: Line = if r2 < pos {
                    prev[r2]
                } else if r2 == pos {
                    mi
                } else {
                    prev[r2 - 1]
                };
                assert(out@[r1] == a1 && out@[r2] == a2);
                if r1 == pos {
                    assert(!prev.contains(mi));
                    assert(prev[r2 - 1] == a2);
                    if a2 == mi {
                        assert(prev.contains(mi));
                    }
                } else if r2 == pos {
                    assert(!prev.contains(mi));
                    if a1 == mi {
                        assert(prev.contains(mi));
                    }
                }
            }
        }
        i = i + 1;
    }
    proof {
        assert(members@.take(n as int) =~= members@);
    }
    out
}

/// Two distinct group members have strictly increasing start coordinates
/// once sorted: equal starts would make them the same edge.
proof fn lemma_strictly_increasing(sorted: Seq<Line>, axis: Axis, r1: int, r2: int)
    requires
        0 <= r1 < r2 < sorted.len(),
        forall|r: int|
            0 <= r < sorted.len() ==> is_unit_edge(#[trigger] sorted[r]) && group_key(sorted[r])
                == group_key(sorted[0]),
        axis == line_axis(sorted[0]),
        sorted.no_duplicates(),
        point_var(axis, sorted[r1].start) <= point_var(axis, sorted[r2].start),
    ensures
        point_var(axis, sorted[r1].start) < point_var(axis, sorted[r2].start),
{
    if point_var(axis, sorted[r1].start) == point_var(axis, sorted[r2].start) {
        assert(sorted[r1].start == sorted[r2].start);
        assert(sorted[r1].end == sorted[r2].end);
        assert(sorted[r1] == sorted[r2]);
        assert(false);
    }
}

/// One sorted group walked into maximal runs: consecutive units coalesce,
/// and a new segment starts at every gap.
#[verifier::rlimit(100)]
fn merge_run(sorted: &Vec<Line>, axis: Axis) -> (segs: Vec<Line>)
    requires
        sorted@.len() >= 1,
        forall|r: int|
            0 <= r < sorted@.len() ==> is_unit_edge(#[trigger] sorted@[r]) && line_in_bounds(
                sorted@[r],
            ) && group_key(sorted@[r]) == group_key(sorted@[0]),
        axis == line_axis(sorted@[0]),
        sorted@.no_duplicates(),
        forall|r1: int, r2: int|
            0 <= r1 < r2 < sorted@.len() ==> point_var(axis, (#[trigger] sorted@[r1]).start)
                <= point_var(axis, (#[trigger] sorted@[r2]).start),
    ensures
        segs@.len() >= 1,
        forall|j: int|
            0 <= j < segs@.len() ==> is_segment(#[trigger] segs@[j]) && line_in_bounds(segs@[j])
                && group_key(segs@[j]) == group_key(sorted@[0]),
        forall|j: int, u: int|
            0 <= j < segs@.len() && 0 <= u < seg_len(segs@[j]) ==> sorted@.contains(
                #[trigger] seg_unit(segs@[j], u),
            ),
        forall|r: int|
            #![trigger sorted@[r]]
            0 <= r < sorted@.len() ==> line_covered(segs@, sorted@[r]),
        forall|j1: int, j2: int|
            0 <= j1 < j2 < segs@.len() ==> seg_end_var(segs@[j1]) < seg_start_var(segs@[j2]),
{
    let n = sorted.len();
    let first = sorted[0];
    let color0 = first.color;
    let mut scur: BlockPos = first.start;
    let mut ecur: BlockPos = first.end;
    let mut segs: Vec<Line> = Vec::new();
    let ghost gk = group_key(sorted@[0]);
    let ghost mut a: int = 0;
    proof {
        lemma_unit_of_unit(sorted@[0]);
    }
    let mut t: usize = 1;
    while t < n
        invariant
            1 <= t <= n,
            n == sorted@.len(),
            0 <= a < t,
            gk == group_key(sorted@[0]),
            axis == line_axis(sorted@[0]),
            color0 == sorted@[0].color,
            sorted@.no_duplicates(),
            forall|r: int|
                0 <= r < sorted@.len() ==> is_unit_edge(#[trigger] sorted@[r]) && line_in_bounds(
                    sorted@[r],
                ) && group_key(sorted@[r]) == gk,
            forall|r1: int, r2: int|
                0 <= r1 < r2 < sorted@.len() ==> point_var(axis, (#[trigger] sorted@[r1]).start)
                    <= point_var(axis, (#[trigger] sorted@[r2]).start),
            is_segment((Line { start: scur, end: ecur, color: color0 })),
            line_in_bounds((Line { start: scur, end: ecur, color: color0 })),
            group_key((Line { start: scur, end: ecur, color: color0 })) == gk,
            seg_len((Line { start: scur, end: ecur, color: color0 })) == t - a,
            ecur == sorted@[t - 1].end,
            forall|u: int|
                0 <= u < t - a ==> #[trigger] seg_unit(
                    (Line { start: scur, end: ecur, color: color0 }),
                    u,
                ) == sorted@[a + u],
            forall|j: int|
                0 <= j < segs@.len() ==> is_segment(#[trigger] segs@[j]) && line_in_bounds(
                    segs@[j],
                ) && group_key(segs@[j]) == gk,
            forall|j: int, u: int|
                0 <= j < segs@.len() && 0 <= u < seg_len(segs@[j]) ==> sorted@.contains(
                    #[trigger] seg_unit(segs@[j], u),
                ),
            forall|r: int|
                #![trigger sorted@[r]]
                0 <= r < a ==> line_covered(segs@, sorted@[r]),
            forall|j1: int, j2: int|
                0 <= j1 < j2 < segs@.len() ==> seg_end_var(segs@[j1]) < seg_start_var(segs@[j2]),
            forall|j: int|
                0 <= j < segs@.len() ==> seg_end_var(#[trigger] segs@[j]) < point_var(axis, scur),
        decreases n - t,
    {
        let st = sorted[t];
        let ghost cur = Line { start: scur, end: ecur, color: color0 };
        proof {
            lemma_unit_of_unit(sorted@[t as int]);
        }
        if st.start.x == ecur.x && st.start.y == ecur.y && st.start.z == ecur.z {
            let ghost ncur = Line { start: scur, end: st.end, color: color0 };
            proof {
                assert(seg_unit(cur, 0) == sorted@[a]);
                assert(line_axis(ncur) == axis);
                assert(seg_len(ncur) == t + 1 - a);
                assert forall|u: int| 0 <= u < t + 1 - a implies #[trigger] seg_unit(ncur, u)
                    == sorted@[a + u] by {
                    if u < t - a {
                        assert(seg_unit(cur, u) == sorted@[a + u]);
                        assert(seg_unit(ncur, u) == seg_unit(cur, u));
                    } else {
                        assert(seg_unit(cur, 0) == sorted@[a]);
                        assert(point_var(axis, ecur) == point_var(axis, scur) + (t - a));
                        assert(seg_unit(ncur, u).start == st.start);
                        assert(seg_unit(ncur, u).end == st.end);
                        assert(seg_unit(ncur, u) == sorted@[t as int]);
                    }
                }
            }
            ecur = st.end;
        } else {
            let done = Line { start: scur, end: ecur, color: color0 };
            let ghost prev_segs = segs@;
            segs.push(done);
            proof {
                let last = segs@.len() - 1;
                assert(segs@[last] == done);
                // the finished run answers for its members
                assert forall|r: int| #![trigger sorted@[r]] 0 <= r < t implies line_covered(
                    segs@,
                    sorted@[r],
                ) by {
                    if r < a {
                        lemma_covered_push(prev_segs, done, sorted@[r]);
                    } else {
                        assert(seg_unit(segs@[last], r - a) == sorted@[r]);
                        assert(line_covered(segs@, sorted@[r]));
                    }
                }
                // soundness of the new segment
                assert forall|j: int, u: int|
                    0 <= j < segs@.len() && 0 <= u < seg_len(segs@[j]) implies sorted@.contains(
                    #[trigger] seg_unit(segs@[j], u),
                ) by {
                    if j < last {
                        assert(segs@[j] == prev_segs[j]);
                    } else {
                        assert(seg_unit(done, u) == sorted@[a + u]);
                        assert(sorted@.contains(sorted@[a + u]));
                    }
                }
                // the next run starts strictly past the finished one
                assert(point_var(axis, sorted@[t - 1].start) <= point_var(
                    axis,
                    sorted@[t as int].start,
                ));
                lemma_strictly_increasing(sorted@, axis, t - 1, t as int);
                assert(point_var(axis, ecur) == point_var(axis, sorted@[t - 1].start) + 1);
                assert(st.start != ecur);
                assert(point_var(axis, st.start) != point_var(axis, ecur));
                assert(point_var(axis, st.start) > point_var(axis, ecur));
                assert(seg_end_var(done) == point_var(axis, ecur));
                assert forall|j1: int, j2: int|
                    0 <= j1 < j2 < segs@.len() implies seg_end_var(segs@[j1]) < seg_start_var(
                    segs@[j2],
                ) by {
                    if j2 == last && j1 < last {
                        assert(seg_end_var(prev_segs[j1]) < point_var(axis, scur));
                        assert(seg_start_var(done) == point_var(axis, scur));
                    } else if j2 < last {
                        assert(segs@[j1] == prev_segs[j1] && segs@[j2] == prev_segs[j2]);
                    }
                }
            }
            scur = st.start;
            ecur = st.end;
            proof {
                a = t as int;
                lemma_unit_of_unit(sorted@[t as int]);
                assert(seg_unit((Line { start: scur, end: ecur, color: color0 }), 0)
                    == sorted@[t as int]);
            }
        }
        t = t + 1;
    }
    let done = Line { start: scur, end: ecur, color: color0 };
    let ghost prev_segs = segs@;
    segs.push(done);
    proof {
        let last = segs@.len() - 1;
        assert(segs@[last] == done);
        assert forall|r: int| #![trigger sorted@[r]] 0 <= r < n implies line_covered(
            segs@,
            sorted@[r],
        ) by {
            if r < a {
                lemma_covered_push(prev_segs, done, sorted@[r]);
            } else {
                assert(seg_unit(segs@[last], r - a) == sorted@[r]);
                assert(line_covered(segs@, sorted@[r]));
            }
        }
        assert forall|j: int, u: int|
            0 <= j < segs@.len() && 0 <= u < seg_len(segs@[j]) implies sorted@.contains(
            #[trigger] seg_unit(segs@[j], u),
        ) by {
            if j < last {
                assert(segs@[j] == prev_segs[j]);
            } else {
                assert(seg_unit(done, u) == sorted@[a + u]);
                assert(sorted@.contains(sorted@[a + u]));
            }
        }
        assert forall|j1: int, j2: int|
            0 <= j1 < j2 < segs@.len() implies seg_end_var(segs@[j1]) < seg_start_var(
            segs@[j2],
        ) by {
            if j2 == last && j1 < last {
                assert(seg_end_var(prev_segs[j1]) < point_var(axis, scur));
                assert(seg_start_var(done) == point_var(axis, scur));
            } else if j2 < last {
                assert(segs@[j1] == prev_segs[j1] && segs@[j2] == prev_segs[j2]);
            }
        }
    }
    segs
}

/// Whether an earlier input line shares this line's group.
fn has_groupmate_before(lines: &Vec<Line>, i: usize) -> (b: bool)
    requires
        i < lines@.len(),
    ensures
        b == grouped_before(lines@, i as int, i as int),
{
    let li = lines[i];
    let mut j: usize = 0;
    while j < i
        invariant
            j <= i < lines@.len(),
            li == lines@[i as int],
            forall|j2: int|
                0 <= j2 < j ==> group_key(#[trigger] lines@[j2]) != group_key(lines@[i as int]),
        decreases i - j,
    {
        let lj = lines[j];
        if same_group(&lj, &li) {
            proof {
                assert(group_key(lines@[j as int]) == group_key(lines@[i as int]));
            }
            return true;
        }
        j = j + 1;
    }
    false
}

/// Whether every entry is an axis-aligned segment with in-range
/// endpoints.
pub open spec fn segs_wf(out: Seq<Line>) -> bool {
    forall|j: int| 0 <= j < out.len() ==> is_segment(#[trigger] out[j]) && line_in_bounds(out[j])
}

/// Whether every segment's group is the group of one of the first `i`
/// input lines.
pub open spec fn segs_from(out: Seq<Line>, lines: Seq<Line>, i: int) -> bool {
    forall|j: int| 0 <= j < out.len() ==> seg_originates(lines, i, #[trigger] out[j])
}

/// Whether every unit of every segment is an input line, color included.
pub open spec fn units_sound(out: Seq<Line>, lines: Seq<Line>) -> bool {
    forall|j: int, u: int|
        0 <= j < out.len() && 0 <= u < seg_len(out[j]) ==> lines.contains(
            #[trigger] seg_unit(out[j], u),
        )
}

/// Whether every input line whose group was reached among the first `i`
/// lines is spanned by some segment.
pub open spec fn covered_upto(out: Seq<Line>, lines: Seq<Line>, i: int) -> bool {
    forall|t: int|
        #![trigger lines[t]]
        0 <= t < lines.len() && grouped_before(lines, t, i) ==> line_covered(out, lines[t])
}

/// Whether every input line is spanned by some segment.
pub open spec fn covers_all(out: Seq<Line>, lines: Seq<Line>) -> bool {
    forall|t: int|
        #![trigger lines[t]]
        0 <= t < lines.len() ==> line_covered(out, lines[t])
}

/// Once every line's group has been reached, processed-group coverage is
/// full coverage: every line is a groupmate of itself.
proof fn lemma_covers_all(out: Seq<Line>, lines: Seq<Line>)
    requires
        covered_upto(out, lines, lines.len() as int),
    ensures
        covers_all(out, lines),
{
    assert forall|t: int| #![trigger lines[t]] 0 <= t < lines.len() implies line_covered(
        out,
        lines[t],
    ) by {
        assert(group_key(lines[t]) == group_key(lines[t]));
        assert(grouped_before(lines, t, lines.len() as int));
    }
}

/// Whether any two segments of one group leave a gap: neither touches nor
/// overlaps the other, so no further merge is possible.
pub open spec fn gaps_ok(out: Seq<Line>) -> bool {
    forall|j1: int, j2: int|
        0 <= j1 < out.len() && 0 <= j2 < out.len() && j1 != j2 && group_key(out[j1]) == group_key(
            out[j2],
        ) ==> seg_end_var(out[j1]) < seg_start_var(#[trigger] out[j2]) || seg_end_var(out[j2])
            < seg_start_var(#[trigger] out[j1])
}

/// Well-formedness of a concatenation of well-formed segment lists.
proof fn lemma_cat_wf(prev: Seq<Line>, gsegs: Seq<Line>)
    requires
        segs_wf(prev),
        forall|j: int|
            0 <= j < gsegs.len() ==> is_segment(#[trigger] gsegs[j]) && line_in_bounds(gsegs[j]),
    ensures
        segs_wf(prev + gsegs),
{
    assert forall|j: int| 0 <= j < (prev + gsegs).len() implies is_segment(#[trigger] (prev + gsegs)[j])
        && line_in_bounds((prev + gsegs)[j]) by {
        if j < prev.len() {
            assert((prev + gsegs)[j] == prev[j]);
        } else {
            assert((prev + gsegs)[j] == gsegs[j - prev.len()]);
        }
    }
}

/// Group origins of a concatenation: the new segments all come from the
/// group of line `i`.
proof fn lemma_cat_from(prev: Seq<Line>, gsegs: Seq<Line>, lines: Seq<Line>, i: int)
    requires
        0 <= i < lines.len(),
        segs_from(prev, lines, i),
        forall|j: int|
            0 <= j < gsegs.len() ==> group_key(#[trigger] gsegs[j]) == group_key(lines[i]),
    ensures
        segs_from(prev + gsegs, lines, i + 1),
{
    assert forall|j: int| 0 <= j < (prev + gsegs).len() implies seg_originates(
        lines,
        i + 1,
        #[trigger] (prev + gsegs)[j],
    ) by {
        if j < prev.len() {
            assert((prev + gsegs)[j] == prev[j]);
            assert(seg_originates(lines, i, prev[j]));
            let l = choose|l: int|
                0 <= l < i && group_key(prev[j]) == group_key(#[trigger] lines[l]);
            assert(0 <= l < i + 1 && group_key((prev + gsegs)[j]) == group_key(lines[l]));
            assert(seg_originates(lines, i + 1, (prev + gsegs)[j]));
        } else {
            assert((prev + gsegs)[j] == gsegs[j - prev.len()]);
            assert(group_key((prev + gsegs)[j]) == group_key(lines[i]));
            assert(seg_originates(lines, i + 1, (prev + gsegs)[j]));
        }
    }
}

/// Unit soundness of a concatenation: the new segments' units came
/// through the sorted group from the input.
proof fn lemma_cat_sound(
    prev: Seq<Line>,
    gsegs: Seq<Line>,
    lines: Seq<Line>,
    members: Seq<Line>,
    sorted: Seq<Line>,
)
    requires
        units_sound(prev, lines),
        forall|j: int, u: int|
            0 <= j < gsegs.len() && 0 <= u < seg_len(gsegs[j]) ==> sorted.contains(
                #[trigger] seg_unit(gsegs[j], u),
            ),
        forall|x: Line| sorted.contains(x) <==> members.contains(x),
        forall|t: int| 0 <= t < members.len() ==> lines.contains(#[trigger] members[t]),
    ensures
        units_sound(prev + gsegs, lines),
{
    assert forall|j: int, u: int|
        0 <= j < (prev + gsegs).len() && 0 <= u < seg_len((prev + gsegs)[j]) implies lines.contains(
        #[trigger] seg_unit((prev + gsegs)[j], u),
    ) by {
        if j < prev.len() {
            assert((prev + gsegs)[j] == prev[j]);
            assert(lines.contains(seg_unit(prev[j], u)));
        } else {
            assert((prev + gsegs)[j] == gsegs[j - prev.len()]);
            assert(sorted.contains(seg_unit(gsegs[j - prev.len()], u)));
            assert(members.contains(seg_unit(gsegs[j - prev.len()], u)));
            let t0 = choose|t0: int|
                0 <= t0 < members.len() && members[t0] == seg_unit(gsegs[j - prev.len()], u);
            assert(lines.contains(members[t0]));
        }
    }
}

/// Coverage after merging the group of line `i`: every line of that
/// group is now spanned.
proof fn lemma_cat_covered(
    prev: Seq<Line>,
    gsegs: Seq<Line>,
    lines: Seq<Line>,
    members: Seq<Line>,
    sorted: Seq<Line>,
    i: int,
)
    requires
        0 <= i < lines.len(),
        covered_upto(prev, lines, i),
        forall|l: int|
            0 <= l < lines.len() && group_key(#[trigger] lines[l]) == group_key(lines[i])
                ==> members.contains(lines[l]),
        forall|x: Line| sorted.contains(x) <==> members.contains(x),
        forall|r: int|
            #![trigger sorted[r]]
            0 <= r < sorted.len() ==> line_covered(gsegs, sorted[r]),
    ensures
        covered_upto(prev + gsegs, lines, i + 1),
{
    assert forall|t: int|
        #![trigger lines[t]]
        0 <= t < lines.len() && grouped_before(lines, t, i + 1) implies line_covered(
        prev + gsegs,
        lines[t],
    ) by {
        if grouped_before(lines, t, i) {
            lemma_covered_cat_left(prev, gsegs, lines[t]);
        } else {
            // the groupmate is line i itself
            let l = choose|l: int|
                0 <= l < i + 1 && group_key(#[trigger] lines[l]) == group_key(lines[t]);
            assert(l == i);
            assert(members.contains(lines[t]));
            assert(sorted.contains(lines[t]));
            let r = choose|r: int| 0 <= r < sorted.len() && sorted[r] == lines[t];
            assert(line_covered(gsegs, sorted[r]));
            lemma_covered_cat_right(prev, gsegs, lines[t]);
        }
    }
}

/// Gaps in a concatenation: old and new segments never share a group,
/// and each side keeps its own gaps.
proof fn lemma_cat_gaps(prev: Seq<Line>, gsegs: Seq<Line>, lines: Seq<Line>, i: int)
    requires
        0 <= i < lines.len(),
        gaps_ok(prev),
        segs_from(prev, lines, i),
        !grouped_before(lines, i, i),
        forall|j: int|
            0 <= j < gsegs.len() ==> group_key(#[trigger] gsegs[j]) == group_key(lines[i]),
        forall|j1: int, j2: int|
            0 <= j1 < j2 < gsegs.len() ==> seg_end_var(gsegs[j1]) < seg_start_var(gsegs[j2]),
        forall|j: int| 0 <= j < gsegs.len() ==> is_segment(#[trigger] gsegs[j]),
    ensures
        gaps_ok(prev + gsegs),
{
    assert forall|j1: int, j2: int|
        0 <= j1 < (prev + gsegs).len() && 0 <= j2 < (prev + gsegs).len() && j1 != j2 && group_key((prev + gsegs)[j1]) == group_key(
            (prev + gsegs)[j2],
        ) implies seg_end_var((prev + gsegs)[j1]) < seg_start_var(#[trigger] (prev + gsegs)[j2]) || seg_end_var((prev + gsegs)[j2])
        < seg_start_var(#[trigger] (prev + gsegs)[j1]) by {
        if j1 < prev.len() && j2 < prev.len() {
            assert((prev + gsegs)[j1] == prev[j1] && (prev + gsegs)[j2] == prev[j2]);
        } else if j1 >= prev.len() && j2 >= prev.len() {
            assert((prev + gsegs)[j1] == gsegs[j1 - prev.len()] && (prev + gsegs)[j2] == gsegs[j2 - prev.len()]);
        } else {
            // one old, one new: their groups must differ, because no line
            // before this leader shares its group
            let (jo, jn): (int, int) = if j1 < prev.len() {
                (j1, j2)
            } else {
                (j2, j1)
            };
            assert((prev + gsegs)[jo] == prev[jo]);
            assert((prev + gsegs)[jn] == gsegs[jn - prev.len()]);
            let l = choose|l: int|
                0 <= l < i && group_key(prev[jo]) == group_key(#[trigger] lines[l]);
            assert(group_key(lines[l]) != group_key(lines[i]));
            assert(group_key((prev + gsegs)[jn]) == group_key(lines[i]));
            assert(false);
        }
    }
}

/// A line whose group was not reached earlier, reached now: merges its
/// whole group and appends the resulting runs.
fn process_leader(lines: &Vec<Line>, out: &mut Vec<Line>, i: usize)
    requires
        i < lines@.len(),
        forall|i2: int|
            0 <= i2 < lines@.len() ==> is_unit_edge(#[trigger] lines@[i2]) && line_in_bounds(
                lines@[i2],
            ),
        forall|i2: int, j2: int|
            0 <= i2 < j2 < lines@.len() ==> !same_edge(lines@[i2], lines@[j2]),
        !grouped_before(lines@, i as int, i as int),
        segs_wf(old(out)@),
        segs_from(old(out)@, lines@, i as int),
        units_sound(old(out)@, lines@),
        covered_upto(old(out)@, lines@, i as int),
        gaps_ok(old(out)@),
    ensures
        segs_wf(final(out)@),
        segs_from(final(out)@, lines@, i as int + 1),
        units_sound(final(out)@, lines@),
        covered_upto(final(out)@, lines@, i as int + 1),
        gaps_ok(final(out)@),
{
    let li = lines[i];
    let ghost prev_out = out@;
    let members = collect_group(lines, &li);
    let axis = axis_of_line(&li);
    proof {
        assert(lines@.contains(lines@[i as int]));
        assert(members@.contains(lines@[i as int]));
        let t0 = choose|t0: int| 0 <= t0 < members@.len() && members@[t0] == lines@[i as int];
        assert(members@.len() >= 1);
    }
    let sorted = sort_group(&members, axis);
    proof {
        assert(members@.contains(lines@[i as int]));
        assert(sorted@.contains(lines@[i as int]));
        assert(sorted@.len() >= 1);
        assert(sorted@.contains(sorted@[0]));
        assert(members@.contains(sorted@[0]));
        assert(group_key(sorted@[0]) == group_key(li));
        assert(line_axis(sorted@[0]) == line_axis(li));
        assert forall|r: int|
            0 <= r < sorted@.len() implies is_unit_edge(#[trigger] sorted@[r]) && line_in_bounds(
            sorted@[r],
        ) && group_key(sorted@[r]) == group_key(sorted@[0]) by {
            assert(sorted@.contains(sorted@[r]));
            assert(members@.contains(sorted@[r]));
            let t0 = choose|t0: int| 0 <= t0 < members@.len() && members@[t0] == sorted@[r];
            assert(lines@.contains(members@[t0]));
            let l0 = choose|l0: int| 0 <= l0 < lines@.len() && lines@[l0] == members@[t0];
        }
    }
    let mut segs = merge_run(&sorted, axis);
    let ghost gsegs = segs@;
    out.append(&mut segs);
    proof {
        assert(out@ == prev_out + gsegs);
        assert forall|j: int| 0 <= j < gsegs.len() implies group_key(#[trigger] gsegs[j])
            == group_key(lines@[i as int]) by {
            assert(group_key(gsegs[j]) == group_key(sorted@[0]));
        }
        lemma_cat_wf(prev_out, gsegs);
        lemma_cat_from(prev_out, gsegs, lines@, i as int);
        lemma_cat_sound(prev_out, gsegs, lines@, members@, sorted@);
        lemma_cat_covered(prev_out, gsegs, lines@, members@, sorted@, i as int);
        lemma_cat_gaps(prev_out, gsegs, lines@, i as int);
    }
}

/// A line whose group was already merged adds nothing new.
proof fn lemma_follower_step(lines: Seq<Line>, out: Seq<Line>, i: int)
    requires
        0 <= i < lines.len(),
        grouped_before(lines, i, i),
        covered_upto(out, lines, i),
    ensures
        covered_upto(out, lines, i + 1),
{
    assert forall|t: int|
        #![trigger lines[t]]
        0 <= t < lines.len() && grouped_before(lines, t, i + 1) implies line_covered(
        out,
        lines[t],
    ) by {
        if !grouped_before(lines, t, i) {
            // the only new groupmate is line i, which itself has an
            // earlier groupmate
            let l = choose|l: int|
                0 <= l < i + 1 && group_key(#[trigger] lines[l]) == group_key(lines[t]);
            assert(l == i);
            let l2 = choose|l2: int|
                0 <= l2 < i && group_key(#[trigger] lines[l2]) == group_key(lines[i]);
            assert(group_key(lines[l2]) == group_key(lines[t]));
            assert(grouped_before(lines, t, i));
            assert(false);
        }
        assert(line_covered(out, lines[t]));
    }
}

/// Merges colinear, contiguous, same-color unit edges into maximal runs.
///
/// Every unit of every returned segment is an input edge with the
/// segment's color; every input edge is spanned by some segment; and two
/// segments that could merge further never touch: segments of one group
/// always leave a gap.
pub fn combine_lines(lines: &Vec<Line>) -> (out: Vec<Line>)
    requires
        forall|i: int|
            0 <= i < lines@.len() ==> is_unit_edge(#[trigger] lines@[i]) && line_in_bounds(
                lines@[i],
            ),
        forall|i: int, j: int| 0 <= i < j < lines@.len() ==> !same_edge(lines@[i], lines@[j]),
    ensures
        segs_wf(out@),
        units_sound(out@, lines@),
        covers_all(out@, lines@),
        gaps_ok(out@),
{
    let n = lines.len();
    let mut out: Vec<Line> = Vec::new();
    let mut i: usize = 0;
    while i < n
        invariant
            i <= n,
            n == lines@.len(),
            forall|i2: int|
                0 <= i2 < lines@.len() ==> is_unit_edge(#[trigger] lines@[i2]) && line_in_bounds(
                    lines@[i2],
                ),
            forall|i2: int, j2: int|
                0 <= i2 < j2 < lines@.len() ==> !same_edge(lines@[i2], lines@[j2]),
            segs_wf(out@),
            segs_from(out@, lines@, i as int),
            units_sound(out@, lines@),
            covered_upto(out@, lines@, i as int),
            gaps_ok(out@),
        decreases n - i,
    {
        if !has_groupmate_before(lines, i) {
            process_leader(lines, &mut out, i);
        } else {
            proof {
                lemma_follower_step(lines@, out@, i as int);
                assert forall|j: int| 0 <= j < out@.len() implies seg_originates(
                    lines@,
                    i as int + 1,
                    #[trigger] out@[j],
                ) by {
                    assert(seg_originates(lines@, i as int, out@[j]));
                    let l = choose|l: int|
                        0 <= l < i && group_key(out@[j]) == group_key(#[trigger] lines@[l]);
                    assert(0 <= l < i + 1 && group_key(out@[j]) == group_key(lines@[l]));
                }
            }
        }
        i = i + 1;
    }
    proof {
        lemma_covers_all(out@, lines@);
    }
    out
}

/// A deduplicated edge from the extractor is a unit edge whose endpoints
/// stay within one unit of the packed coordinate range.
pub proof fn lemma_valid_edge_shape(m: Map<u64, u32>, l: Line)
    requires
        crate::edges::line_is_valid_edge(m, l),
    ensures
        is_unit_edge(l),
        line_in_bounds(l),
{
    let (k, e): (u64, int) = choose|k: u64, e: int|
        m.contains_key(k) && 0 <= e < 12 && #[trigger] crate::edges::edge_emitted(m, k, e)
            && crate::edges::line_matches_edge(l, k, e) && l.color
            == crate::edges::edge_color_spec(m, k, e);
    crate::pos::lemma_unpack_in_range(k);
}

/// The shape of one unit of a segment: a unit edge of the segment's
/// group, one step further along the axis per position.
proof fn lemma_seg_unit_shape(l: Line, u: int)
    requires
        is_segment(l),
        line_in_bounds(l),
        0 <= u < seg_len(l),
    ensures
        is_unit_edge(seg_unit(l, u)),
        line_axis(seg_unit(l, u)) == line_axis(l),
        group_key(seg_unit(l, u)) == group_key(l),
        seg_start_var(seg_unit(l, u)) == seg_start_var(l) + u,
        seg_unit(l, u).color == l.color,
{
}

/// Merging a fully contiguous same-color run collapses it into the one
/// segment spanning the whole run: with every input edge one unit of a
/// single segment `full`, any output satisfying the merge contract is
/// exactly `full`.
#[verifier::rlimit(100)]
pub proof fn lemma_contiguous_run_collapses(lines: Seq<Line>, out: Seq<Line>, full: Line)
    requires
        is_segment(full),
        line_in_bounds(full),
        lines.len() == seg_len(full),
        forall|i: int| #![trigger lines[i]] 0 <= i < lines.len() ==> lines[i] == seg_unit(full, i),
        segs_wf(out),
        units_sound(out, lines),
        covers_all(out, lines),
        gaps_ok(out),
    ensures
        out.len() == 1,
        out[0] == full,
{
    let n = seg_len(full);
    let b = seg_start_var(full);
    let gk = group_key(full);
    assert(n >= 1);
    // every output segment lies inside the run and shares its group
    assert forall|j: int| 0 <= j < out.len() implies group_key(#[trigger] out[j]) == gk
        && b <= seg_start_var(out[j]) && seg_end_var(out[j]) <= b + n by {
        let sj = out[j];
        assert(is_segment(sj) && line_in_bounds(sj));
        assert(seg_len(sj) >= 1);
        assert(lines.contains(seg_unit(sj, 0)));
        let i0 = choose|i0: int| 0 <= i0 < lines.len() && lines[i0] == seg_unit(sj, 0);
        lemma_seg_unit_shape(sj, 0);
        lemma_seg_unit_shape(full, i0);
        assert(group_key(sj) == gk);
        assert(seg_start_var(sj) == b + i0);
        let last = seg_len(sj) - 1;
        assert(lines.contains(seg_unit(sj, last)));
        let i1 = choose|i1: int| 0 <= i1 < lines.len() && lines[i1] == seg_unit(sj, last);
        lemma_seg_unit_shape(sj, last);
        lemma_seg_unit_shape(full, i1);
        assert(seg_start_var(sj) + last == b + i1);
        assert(seg_end_var(sj) == seg_start_var(sj) + seg_len(sj));
        assert(seg_end_var(sj) == b + i1 + 1 <= b + n);
    }

    // at least one output
    assert(line_covered(out, lines[0]));
    let (j0, u0): (int, int) = choose|j0: int, u0: int|
        #![trigger seg_unit(out[j0], u0)]
        0 <= j0 < out.len() && 0 <= u0 < seg_len(out[j0]) && seg_unit(out[j0], u0) == lines[0];
    assert(out.len() >= 1);

    // at most one output: two would leave a gap inside a covered run
    if out.len() >= 2 {
        let (a, c): (int, int) = if seg_end_var(out[0]) < seg_start_var(out[1]) {
            (0, 1)
        } else {
            (1, 0)
        };
        assert(seg_end_var(out[a]) < seg_start_var(out[c]));
        let mid = seg_end_var(out[a]) - b;
        assert(seg_start_var(out[a]) >= b && seg_end_var(out[a]) >= seg_start_var(out[a]) + 1);
        assert(seg_start_var(out[c]) <= seg_end_var(out[c]) - 1 <= b + n - 1);
        assert(1 <= mid < n);
        // the unit just past segment a is covered by some third segment
        assert(line_covered(out, lines[mid]));
        let (j3, u3): (int, int) = choose|j3: int, u3: int|
            #![trigger seg_unit(out[j3], u3)]
            0 <= j3 < out.len() && 0 <= u3 < seg_len(out[j3]) && seg_unit(out[j3], u3)
                == lines[mid];
        lemma_seg_unit_shape(out[j3], u3);
        lemma_seg_unit_shape(full, mid);
        assert(seg_start_var(out[j3]) + u3 == b + mid);
        // that segment neither gaps with a on either side nor is a itself
        if j3 == a {
            assert(seg_start_var(out[a]) + u3 < seg_end_var(out[a]));
            assert(false);
        } else {
            assert(seg_end_var(out[a]) < seg_start_var(out[j3]) || seg_end_var(out[j3])
                < seg_start_var(out[a]));
            assert(seg_start_var(out[j3]) <= b + mid == seg_end_var(out[a]));
            assert(seg_end_var(out[j3]) >= seg_start_var(out[j3]) + seg_len(out[j3]) >= b + mid
                + 1);
            assert(seg_start_var(out[a]) < seg_end_var(out[a]) == b + mid);
            assert(false);
        }
    }
    assert(out.len() == 1);

    // the single segment spans the whole run
    let s = out[0];
    assert(group_key(s) == gk && b <= seg_start_var(s) && seg_end_var(s) <= b + n);
    // its coverage of the first and last unit pins both ends
    assert(line_covered(out, lines[0]));
    let (ja, ua): (int, int) = choose|ja: int, ua: int|
        #![trigger seg_unit(out[ja], ua)]
        0 <= ja < out.len() && 0 <= ua < seg_len(out[ja]) && seg_unit(out[ja], ua) == lines[0];
    assert(ja == 0);
    lemma_seg_unit_shape(s, ua);
    lemma_seg_unit_shape(full, 0);
    assert(seg_start_var(s) + ua == b);
    assert(seg_start_var(s) == b && ua == 0);
    assert(line_covered(out, lines[n - 1]));
    let (jb, ub): (int, int) = choose|jb: int, ub: int|
        #![trigger seg_unit(out[jb], ub)]
        0 <= jb < out.len() && 0 <= ub < seg_len(out[jb]) && seg_unit(out[jb], ub) == lines[n - 1];
    assert(jb == 0);
    lemma_seg_unit_shape(s, ub);
    lemma_seg_unit_shape(full, n - 1);
    assert(seg_start_var(s) + ub == b + n - 1);
    assert(seg_end_var(s) >= b + n);
    assert(seg_end_var(s) == b + n);
    // same group, same span: the same segment
    assert(line_axis(s) == line_axis(full));
    match line_axis(full) {
        Axis::X => {
            assert(s.start.y == full.start.y && s.start.z == full.start.z);
            assert(s.start.x as int == b && full.start.x as int == b);
            assert(s.end.y == s.start.y && s.end.z == s.start.z);
            assert(s.end.x as int == b + n && full.end.x as int == b + n);
        },
        Axis::Y => {
            assert(s.start.x == full.start.x && s.start.z == full.start.z);
            assert(s.start.y as int == b && full.start.y as int == b);
            assert(s.end.x == s.start.x && s.end.z == s.start.z);
            assert(s.end.y as int == b + n && full.end.y as int == b + n);
        },
        Axis::Z => {
            assert(s.start.x == full.start.x && s.start.y == full.start.y);
            assert(s.start.z as int == b && full.start.z as int == b);
            assert(s.end.x == s.start.x && s.end.y == s.start.y);
            assert(s.end.z as int == b + n && full.end.z as int == b + n);
        },
    }
    assert(s.color == full.color);
    assert(s == full);
}

} // verus!
