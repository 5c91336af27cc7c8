//! The quad pipeline for one direction: extract the visible faces, mesh
//! each (color, plane) group greedily, and place the rectangles back into
//! space as quads.

use crate::faces::{
    cell_of, collect_faces, face_in, group_complete, group_sound, group_wf, proj_key, visible_key,
    FaceGroup,
};
use crate::greedy::{greedy_mesh_2d, rect_covers, rects_disjoint, Cell};
use crate::quad::{quad_in_bounds, Quad};
use crate::pos::Direction;
use std::collections::HashMap;
use vstd::prelude::*;

verus! {

/// Whether every cell the quad covers is a visible face of the quad's
/// direction, color and plane.
pub open spec fn quad_sound(m: Map<u64, u32>, q: Quad) -> bool {
    forall|c: Cell| #[trigger] rect_covers(q.rect, c) ==> face_in(m, q.dir, q.color, q.plane as int, c)
}

/// Whether some quad of the list covers the face that the cell under key
/// `k` exposes toward `d`.
pub open spec fn face_covered(m: Map<u64, u32>, qs: Seq<Quad>, k: u64, d: Direction) -> bool {
    exists|i: int|
        0 <= i < qs.len() && (#[trigger] qs[i]).dir == d && qs[i].color == m[k] && qs[i].plane
            as int == proj_key(k, d).0 && rect_covers(qs[i].rect, cell_of(k, d))
}

/// Whether a quad's color and plane are those of one of the first `g`
/// groups.
pub open spec fn quad_from_groups(groups: Seq<FaceGroup>, g: int, q: Quad) -> bool {
    exists|g2: int|
        0 <= g2 < g && q.color == (#[trigger] groups[g2]).color && q.plane == groups[g2].plane
}

/// A copy of a cell list.
fn copy_cells(cells: &Vec<Cell>) -> (out: Vec<Cell>)
    ensures
        out@ == cells@,
{
    let n = cells.len();
    let mut out: Vec<Cell> = Vec::new();
    let mut i: usize = 0;
    while i < n
        invariant
            i <= n,
            n == cells@.len(),
            out@ == cells@.take(i as int),
        decreases n - i,
    {
        out.push(cells[i]);
        proof {
            assert(out@ =~= cells@.take(i as int + 1));
        }
        i = i + 1;
    }
    proof {
        assert(cells@.take(n as int) =~= cells@);
    }
    out
}

/// All quads of one direction.
///
/// Every returned quad faces `dir`, covers only visible faces of its
/// color and plane, every visible face of the direction is covered, and
/// quads of one color and plane never overlap.
#[verifier::rlimit(100)]
pub fn quads_for_direction(blocks: &HashMap<u64, u32>, keys: &Vec<u64>, dir: Direction) -> (quads:
    Vec<Quad>)
    requires
        keys@.no_duplicates(),
        keys@.to_set() == blocks@.dom(),
    ensures
        forall|i: int|
            0 <= i < quads@.len() ==> (#[trigger] quads@[i]).dir == dir && quad_in_bounds(
                quads@[i],
            ) && quad_sound(blocks@, quads@[i]),
        forall|k: u64|
            #[trigger] visible_key(blocks@, k, dir) && blocks@.contains_key(k) ==> face_covered(
                blocks@,
                quads@,
                k,
                dir,
            ),
        forall|i: int, j: int|
            0 <= i < j < quads@.len() && quads@[i].color == quads@[j].color && quads@[i].plane
                == quads@[j].plane ==> rects_disjoint(quads@[i].rect, quads@[j].rect),
{
    let groups = collect_faces(blocks, keys, dir);
    let gn = groups.len();
    let mut quads: Vec<Quad> = Vec::new();
    let mut g: usize = 0;
    while g < gn
        invariant
            g <= gn,
            gn == groups@.len(),
            keys@.no_duplicates(),
            keys@.to_set() == blocks@.dom(),
            forall|g2: int|
                0 <= g2 < groups@.len() ==> group_wf(#[trigger] groups@[g2]) && group_sound(
                    blocks@,
                    dir,
                    groups@[g2],
                ) && group_complete(blocks@, dir, groups@[g2]),
            forall|g1: int, g2: int|
                0 <= g1 < g2 < groups@.len() ==> !((#[trigger] groups@[g1]).color == (
                #[trigger] groups@[g2]).color && groups@[g1].plane == groups@[g2].plane),
            forall|k: u64|
                #[trigger] visible_key(blocks@, k, dir) && blocks@.contains_key(k) ==> exists|
                    g2: int,
                |
                    0 <= g2 < groups@.len() && (#[trigger] groups@[g2]).color == blocks@[k]
                        && groups@[g2].plane as int == proj_key(k, dir).0,
            forall|i: int|
                0 <= i < quads@.len() ==> (#[trigger] quads@[i]).dir == dir && quad_in_bounds(
                    quads@[i],
                ) && quad_sound(blocks@, quads@[i]),
            forall|i: int| 0 <= i < quads@.len() ==> quad_from_groups(groups@, g as int, #[trigger] quads@[i]),
            forall|k: u64, g2: int|
                0 <= g2 < g && #[trigger] visible_key(blocks@, k, dir) && blocks@.contains_key(k)
                    && (#[trigger] groups@[g2]).color == blocks@[k] && groups@[g2].plane as int
                    == proj_key(k, dir).0 ==> face_covered(blocks@, quads@, k, dir),
            forall|i: int, j: int|
                0 <= i < j < quads@.len() && quads@[i].color == quads@[j].color && quads@[i].plane
                    == quads@[j].plane ==> rects_disjoint(quads@[i].rect, quads@[j].rect),
        decreases gn - g,
    {
        let color = groups[g].color;
        let plane = groups[g].plane;
        let cells = copy_cells(&groups[g].cells);
        let ghost cells_view = cells@;
        let rects = greedy_mesh_2d(cells);
        let rn = rects.len();
        let ghost group_start = quads@.len();
        let ghost prev_quads_outer = quads@;
        let mut r: usize = 0;
        while r < rn
            invariant
                r <= rn,
                rn == rects@.len(),
                g < gn == groups@.len(),
                color == groups@[g as int].color,
                plane == groups@[g as int].plane,
                cells_view == groups@[g as int].cells@,
                group_wf(groups@[g as int]),
                group_sound(blocks@, dir, groups@[g as int]),
                forall|i: int|
                    0 <= i < rects@.len() ==> crate::greedy::rect_in_bounds(#[trigger] rects@[i]),
                forall|i: int, c: Cell|
                    0 <= i < rects@.len() && #[trigger] rect_covers(rects@[i], c)
                        ==> cells_view.contains(c),
                forall|i: int, j: int|
                    0 <= i < j < rects@.len() ==> rects_disjoint(rects@[i], rects@[j]),
                group_start == prev_quads_outer.len(),
                quads@.len() == group_start + r,
                forall|i: int| 0 <= i < group_start ==> quads@[i] == prev_quads_outer[i],
                forall|i: int|
                    group_start <= i < quads@.len() ==> quads@[i] == (Quad {
                        dir,
                        color,
                        plane,
                        rect: rects@[i - group_start],
                    }),
                forall|i: int|
                    0 <= i < prev_quads_outer.len() ==> (#[trigger] prev_quads_outer[i]).dir == dir
                        && quad_in_bounds(prev_quads_outer[i]) && quad_sound(
                        blocks@,
                        prev_quads_outer[i],
                    ),
                forall|i: int|
                    0 <= i < prev_quads_outer.len() ==> quad_from_groups(
                        groups@,
                        g as int,
                        #[trigger] prev_quads_outer[i],
                    ),
                forall|g1: int, g2: int|
                    0 <= g1 < g2 < groups@.len() ==> !((#[trigger] groups@[g1]).color == (
                    #[trigger] groups@[g2]).color && groups@[g1].plane == groups@[g2].plane),
                forall|i: int, j: int|
                    0 <= i < j < prev_quads_outer.len() && prev_quads_outer[i].color
                        == prev_quads_outer[j].color && prev_quads_outer[i].plane
                        == prev_quads_outer[j].plane ==> rects_disjoint(
                        prev_quads_outer[i].rect,
                        prev_quads_outer[j].rect,
                    ),
            decreases rn - r,
        {
            let q = Quad { dir, color, plane, rect: rects[r] };
            proof {
                // the new quad covers only visible faces of this group
                assert forall|c: Cell| #[trigger] rect_covers(q.rect, c) implies face_in(
                    blocks@,
                    dir,
                    color,
                    plane as int,
                    c,
                ) by {
                    assert(cells_view.contains(c));
                    let idx = choose|idx: int|
                        0 <= idx < cells_view.len() && cells_view[idx] == c;
                    assert(face_in(blocks@, dir, color, plane as int, cells_view[idx]));
                }
            }
            quads.push(q);
            r = r + 1;
        }
        proof {
            let qv = quads@;
            // well-formedness and soundness of everything emitted so far
            assert forall|i: int| 0 <= i < qv.len() implies (#[trigger] qv[i]).dir == dir
                && quad_in_bounds(qv[i]) && quad_sound(blocks@, qv[i]) by {
                if i >= group_start {
                    assert(qv[i] == (Quad { dir, color, plane, rect: rects@[i - group_start] }));
                    assert forall|c: Cell| #[trigger] rect_covers(qv[i].rect, c) implies face_in(
                        blocks@,
                        dir,
                        color,
                        plane as int,
                        c,
                    ) by {
                        assert(cells_view.contains(c));
                        let idx = choose|idx: int|
                            0 <= idx < cells_view.len() && cells_view[idx] == c;
                        assert(face_in(blocks@, dir, color, plane as int, cells_view[idx]));
                    }
                } else {
                    assert(qv[i] == prev_quads_outer[i]);
                }
            }
            // origin tracking for one more group
            assert forall|i: int| 0 <= i < qv.len() implies quad_from_groups(
                groups@,
                g as int + 1,
                #[trigger] qv[i],
            ) by {
                if i < group_start {
                    let g2 = choose|g2: int|
                        0 <= g2 < g && prev_quads_outer[i].color == (#[trigger] groups@[g2]).color
                            && prev_quads_outer[i].plane == groups@[g2].plane;
                    assert(qv[i].color == groups@[g2].color && qv[i].plane == groups@[g2].plane);
                } else {
                    assert(qv[i].color == groups@[g as int].color && qv[i].plane
                        == groups@[g as int].plane);
                }
            }
            // coverage for keys of the groups handled so far
            assert forall|k: u64, g2: int|
                0 <= g2 < g + 1 && #[trigger] visible_key(blocks@, k, dir)
                    && blocks@.contains_key(k) && (#[trigger] groups@[g2]).color == blocks@[k]
                    && groups@[g2].plane as int == proj_key(k, dir).0 implies face_covered(
                blocks@,
                qv,
                k,
                dir,
            ) by {
                if g2 < g {
                    let i = choose|i: int|
                        0 <= i < prev_quads_outer.len() && (#[trigger] prev_quads_outer[i]).dir
                            == dir && prev_quads_outer[i].color == blocks@[k]
                            && prev_quads_outer[i].plane as int == proj_key(k, dir).0
                            && rect_covers(prev_quads_outer[i].rect, cell_of(k, dir));
                    assert(qv[i] == prev_quads_outer[i]);
                    assert(face_covered(blocks@, qv, k, dir));
                } else {
                    // this group's cells were meshed just now
                    assert(group_complete(blocks@, dir, groups@[g as int]));
                    assert(groups@[g as int].cells@.contains(cell_of(k, dir)));
                    assert(cells_view.contains(cell_of(k, dir)));
                    let ri = choose|ri: int|
                        0 <= ri < rects@.len() && rect_covers(
                            #[trigger] rects@[ri],
                            cell_of(k, dir),
                        );
                    assert(qv[group_start + ri] == (Quad {
                        dir,
                        color,
                        plane,
                        rect: rects@[ri],
                    }));
                    assert(face_covered(blocks@, qv, k, dir));
                }
            }
            // quads of one color and plane never overlap
            assert forall|i: int, j: int|
                0 <= i < j < qv.len() && qv[i].color == qv[j].color && qv[i].plane
                    == qv[j].plane implies rects_disjoint(qv[i].rect, qv[j].rect) by {
                if j < group_start {
                    assert(qv[i] == prev_quads_outer[i] && qv[j] == prev_quads_outer[j]);
                } else if i >= group_start {
                    assert(qv[i] == (Quad { dir, color, plane, rect: rects@[i - group_start] }));
                    assert(qv[j] == (Quad { dir, color, plane, rect: rects@[j - group_start] }));
                    assert(rects_disjoint(rects@[i - group_start], rects@[j - group_start]));
                } else {
                    assert(qv[i] == prev_quads_outer[i]);
                    // an older quad belongs to an earlier group, whose
                    // (color, plane) differs from this group's
                    let g2 = choose|g2: int|
                        0 <= g2 < g && prev_quads_outer[i].color == (#[trigger] groups@[g2]).color
                            && prev_quads_outer[i].plane == groups@[g2].plane;
                    assert(qv[j].color == groups@[g as int].color && qv[j].plane
                        == groups@[g as int].plane);
                    assert(!(groups@[g2].color == groups@[g as int].color && groups@[g2].plane
                        == groups@[g as int].plane));
                    assert(false);
                }
            }
        }
        g = g + 1;
    }
    proof {
        assert forall|k: u64|
            #[trigger] visible_key(blocks@, k, dir) && blocks@.contains_key(k) implies face_covered(
            blocks@,
            quads@,
            k,
            dir,
        ) by {
            let g2 = choose|g2: int|
                0 <= g2 < groups@.len() && (#[trigger] groups@[g2]).color == blocks@[k]
                    && groups@[g2].plane as int == proj_key(k, dir).0;
        }
    }
    quads
}

} // verus!
