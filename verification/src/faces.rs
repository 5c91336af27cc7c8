//! Face extraction: which cells expose a visible face in a direction, and
//! the grouping of those faces by color and plane for greedy meshing.
//!
//! A solid cell has a visible face toward a direction exactly when the
//! neighboring position in that direction is absent from the registry or
//! holds a different color. A visible face is projected to 2D plane
//! coordinates: the direction's axis supplies the plane index and the two
//! remaining axes supply (u, v), in a fixed per-axis order.

use crate::greedy::{cell_in_bounds, cells_in_bounds, Cell};
use crate::pos::{
    axis_spec, in_packed_range, pack_spec, step_spec, unpack_x, unpack_y, unpack_z, Axis, BlockPos,
    Direction,
};
use std::collections::HashMap;
use vstd::prelude::*;

verus! {

/// The key of the neighboring position one step in the given direction.
pub open spec fn neighbor_key_spec(k: u64, d: Direction) -> u64 {
    pack_spec(
        unpack_x(k) + step_spec(d).0,
        unpack_y(k) + step_spec(d).1,
        unpack_z(k) + step_spec(d).2,
    )
}

/// Whether the cell stored under key `k` exposes a visible face toward
/// `d`: its neighbor there is absent or differently colored.
pub open spec fn visible_key(m: Map<u64, u32>, k: u64, d: Direction) -> bool {
    let nk = neighbor_key_spec(k, d);
    !(m.contains_key(nk) && m[nk] == m[k])
}

/// Projection of a position onto the plane of a direction's axis:
/// (plane, u, v).
pub open spec fn proj_of(x: int, y: int, z: int, d: Direction) -> (int, int, int) {
    match axis_spec(d) {
        Axis::X => (x, z, y),
        Axis::Y => (y, x, z),
        Axis::Z => (z, x, y),
    }
}

/// Projection of the position stored under a key.
pub open spec fn proj_key(k: u64, d: Direction) -> (int, int, int) {
    proj_of(unpack_x(k), unpack_y(k), unpack_z(k), d)
}

/// The 2D cell a key projects to.
pub open spec fn cell_of(k: u64, d: Direction) -> Cell {
    Cell { u: proj_key(k, d).1 as i32, v: proj_key(k, d).2 as i32 }
}

/// Whether some solid cell of color `color` exposes a visible face toward
/// `d` that projects to plane `plane` at 2D cell `c`.
pub open spec fn face_in(m: Map<u64, u32>, d: Direction, color: u32, plane: int, c: Cell) -> bool {
    exists|k: u64|
        #[trigger] visible_key(m, k, d) && m.contains_key(k) && m[k] == color && proj_key(k, d)
            == (plane, c.u as int, c.v as int)
}

/// The projection is injective: two keys that project to the same
/// (plane, u, v) for one direction are the same key.
pub proof fn lemma_proj_injective(k1: u64, k2: u64, d: Direction)
    requires
        proj_key(k1, d) == proj_key(k2, d),
    ensures
        k1 == k2,
{
    crate::pos::lemma_unpack_pack(k1);
    crate::pos::lemma_unpack_pack(k2);
}

/// All visible faces of one direction, color and plane: the input to one
/// run of the greedy mesher.
pub struct FaceGroup {
    pub color: u32,
    pub plane: i32,
    pub cells: Vec<Cell>,
}

/// Whether a group holds every visible face of its direction, color and
/// plane.
pub open spec fn group_complete(m: Map<u64, u32>, d: Direction, gr: FaceGroup) -> bool {
    forall|k: u64|
        #[trigger] visible_key(m, k, d) && m.contains_key(k) && m[k] == gr.color && proj_key(
            k,
            d,
        ).0 == gr.plane ==> gr.cells@.contains(cell_of(k, d))
}

/// Whether every cell of a group is a visible face of its direction,
/// color and plane.
pub open spec fn group_sound(m: Map<u64, u32>, d: Direction, gr: FaceGroup) -> bool {
    forall|idx: int|
        0 <= idx < gr.cells@.len() ==> face_in(m, d, gr.color, gr.plane as int, #[trigger] gr.cells@[idx])
}

/// Whether a group is well-formed: duplicate-free in-range cells and an
/// in-range plane.
pub open spec fn group_wf(gr: FaceGroup) -> bool {
    &&& gr.cells@.no_duplicates()
    &&& cells_in_bounds(gr.cells@)
    &&& -0x2000000 <= gr.plane < 0x2000000
}

/// The color stored at a key, if the key is present.
pub(crate) fn lookup(blocks: &HashMap<u64, u32>, k: u64) -> (r: Option<u32>)
    ensures
        r == if blocks@.contains_key(k) {
            Some(blocks@[k])
        } else {
            None::<u32>
        },
{
    match blocks.get(&k) {
        Some(c) => Some(*c),
        None => None,
    }
}

/// Whether the cell at `pos`, holding `color`, exposes a visible face
/// toward `dir`.
pub(crate) fn visible_at(
    blocks: &HashMap<u64, u32>,
    pos: BlockPos,
    color: u32,
    dir: Direction,
) -> (b: bool)
    requires
        in_packed_range(pos.x as int, pos.y as int, pos.z as int),
    ensures
        b == ({
            let nk = pack_spec(
                pos.x + step_spec(dir).0,
                pos.y + step_spec(dir).1,
                pos.z + step_spec(dir).2,
            );
            !(blocks@.contains_key(nk) && blocks@[nk] == color)
        }),
{
    let nk = pos.relative(dir).pack();
    match lookup(blocks, nk) {
        Some(c2) => c2 != color,
        None => true,
    }
}

/// The (plane, u, v) projection of a position for a direction.
pub(crate) fn project(pos: BlockPos, dir: Direction) -> (r: (i32, i32, i32))
    ensures
        (r.0 as int, r.1 as int, r.2 as int) == proj_of(
            pos.x as int,
            pos.y as int,
            pos.z as int,
            dir,
        ),
{
    match dir.axis() {
        Axis::X => (pos.x, pos.z, pos.y),
        Axis::Y => (pos.y, pos.x, pos.z),
        Axis::Z => (pos.z, pos.x, pos.y),
    }
}

/// Whether a cell is the projection of one of the first `j` keys, on the
/// given plane.
pub open spec fn cell_from_processed(keys: Seq<u64>, j: int, d: Direction, plane: int, c: Cell) -> bool {
    exists|j2: int|
        0 <= j2 < j && c == #[trigger] cell_of(keys[j2], d) && proj_key(keys[j2], d).0 == plane
}

/// Every visible cell of the given direction, color and plane, one entry
/// per solid cell.
fn collect_cells(
    blocks: &HashMap<u64, u32>,
    keys: &Vec<u64>,
    dir: Direction,
    color: u32,
    plane: i32,
) -> (cells: Vec<Cell>)
    requires
        keys@.no_duplicates(),
        keys@.to_set() == blocks@.dom(),
    ensures
        cells@.no_duplicates(),
        cells_in_bounds(cells@),
        forall|idx: int|
            0 <= idx < cells@.len() ==> face_in(
                blocks@,
                dir,
                color,
                plane as int,
                #[trigger] cells@[idx],
            ),
        forall|k: u64|
            #[trigger] visible_key(blocks@, k, dir) && blocks@.contains_key(k) && blocks@[k]
                == color && proj_key(k, dir).0 == plane ==> cells@.contains(cell_of(k, dir)),
{
    let m = keys.len();
    let mut cells: Vec<Cell> = Vec::new();
    let mut j: usize = 0;
    while j < m
        invariant
            j <= m,
            m == keys@.len(),
            keys@.no_duplicates(),
            keys@.to_set() == blocks@.dom(),
            cells@.no_duplicates(),
            cells_in_bounds(cells@),
            forall|idx: int|
                0 <= idx < cells@.len() ==> face_in(
                    blocks@,
                    dir,
                    color,
                    plane as int,
                    #[trigger] cells@[idx],
                ),
            forall|idx: int|
                0 <= idx < cells@.len() ==> cell_from_processed(
                    keys@,
                    j as int,
                    dir,
                    plane as int,
                    #[trigger] cells@[idx],
                ),
            forall|j2: int|
                0 <= j2 < j && #[trigger] visible_key(blocks@, keys@[j2], dir) && blocks@[keys@[j2]]
                    == color && proj_key(keys@[j2], dir).0 == plane ==> cells@.contains(
                    cell_of(keys@[j2], dir),
                ),
        decreases m - j,
    {
        let ghost prev = cells@;
        let kj = keys[j];
        proof {
            assert(keys@.contains(keys@[j as int]));
            assert(blocks@.dom().contains(kj));
        }
        let cj = lookup(blocks, kj).unwrap();
        let pos = BlockPos::unpack(kj);
        proof {
            crate::pos::lemma_unpack_in_range(kj);
        }
        if cj == color {
            if visible_at(blocks, pos, cj, dir) {
                let pr = project(pos, dir);
                if pr.0 == plane {
                    let c = Cell { u: pr.1, v: pr.2 };
                    proof {
                        assert(c == cell_of(kj, dir));
                        assert(visible_key(blocks@, kj, dir));
                        // a duplicate would come from an earlier key that
                        // projects identically, which forces key equality
                        if cells@.contains(c) {
                            let idx = choose|idx: int| 0 <= idx < cells@.len() && cells@[idx] == c;
                            assert(cell_from_processed(keys@, j as int, dir, plane as int, c));
                            let j2 = choose|j2: int|
                                0 <= j2 < j && c == #[trigger] cell_of(keys@[j2], dir) && proj_key(
                                    keys@[j2],
                                    dir,
                                ).0 == plane;
                            crate::pos::lemma_unpack_in_range(keys@[j2]);
                            assert(proj_key(keys@[j2], dir).1 == proj_key(kj, dir).1);
                            assert(proj_key(keys@[j2], dir).2 == proj_key(kj, dir).2);
                            assert(proj_key(keys@[j2], dir) == proj_key(kj, dir));
                            lemma_proj_injective(keys@[j2], kj, dir);
                            assert(keys@[j2] == keys@[j as int]);
                            assert(false);
                        }
                        assert(face_in(blocks@, dir, color, plane as int, c));
                        assert(cell_in_bounds(c));
                    }
                    cells.push(c);
                }
            }
        }
        proof {
            assert forall|idx: int| 0 <= idx < cells@.len() implies cell_from_processed(
                keys@,
                j as int + 1,
                dir,
                plane as int,
                #[trigger] cells@[idx],
            ) by {
                if idx < prev.len() {
                    assert(cells@[idx] == prev[idx]);
                    assert(cell_from_processed(keys@, j as int, dir, plane as int, prev[idx]));
                    let j2 = choose|j2: int|
                        0 <= j2 < j && prev[idx] == #[trigger] cell_of(keys@[j2], dir) && proj_key(
                            keys@[j2],
                            dir,
                        ).0 == plane;
                    assert(0 <= j2 < j + 1 && cells@[idx] == cell_of(keys@[j2], dir));
                } else {
                    assert(cells@[idx] == cell_of(keys@[j as int], dir));
                    assert(0 <= j < j + 1 && cells@[idx] == cell_of(keys@[j as int], dir)
                        && proj_key(keys@[j as int], dir).0 == plane);
                }
            }
            assert forall|j2: int|
                0 <= j2 < j + 1 && #[trigger] visible_key(blocks@, keys@[j2], dir)
                    && blocks@[keys@[j2]] == color && proj_key(keys@[j2], dir).0
                    == plane implies cells@.contains(cell_of(keys@[j2], dir)) by {
                if j2 < j {
                    assert(prev.contains(cell_of(keys@[j2], dir)));
                    let idx = choose|idx: int|
                        0 <= idx < prev.len() && prev[idx] == cell_of(keys@[j2], dir);
                    assert(cells@[idx] == cell_of(keys@[j2], dir));
                } else {
                    // this key matched, so its cell was pushed this iteration
                    assert(cells@[cells@.len() - 1] == cell_of(keys@[j as int], dir));
                }
            }
        }
        j = j + 1;
    }
    cells
}

/// Whether a group for the given color and plane already exists.
fn has_group(groups: &Vec<FaceGroup>, color: u32, plane: i32) -> (b: bool)
    ensures
        b == exists|g: int|
            0 <= g < groups@.len() && (#[trigger] groups@[g]).color == color && groups@[g].plane
                == plane,
{
    let n = groups.len();
    let mut g: usize = 0;
    while g < n
        invariant
            g <= n,
            n == groups@.len(),
            forall|g2: int|
                0 <= g2 < g ==> !((#[trigger] groups@[g2]).color == color && groups@[g2].plane
                    == plane),
        decreases n - g,
    {
        if groups[g].color == color && groups[g].plane == plane {
            return true;
        }
        g = g + 1;
    }
    false
}

/// Groups every visible face of one direction by color and plane.
///
/// Each returned group is well-formed, holds only visible faces of its
/// color and plane, and holds all of them; no two groups share a
/// (color, plane) pair.
pub fn collect_faces(blocks: &HashMap<u64, u32>, keys: &Vec<u64>, dir: Direction) -> (groups: Vec<
    FaceGroup,
>)
    requires
        keys@.no_duplicates(),
        keys@.to_set() == blocks@.dom(),
    ensures
        forall|g: int|
            0 <= g < groups@.len() ==> group_wf(#[trigger] groups@[g]) && group_sound(
                blocks@,
                dir,
                groups@[g],
            ) && group_complete(blocks@, dir, groups@[g]),
        forall|g1: int, g2: int|
            0 <= g1 < g2 < groups@.len() ==> !((#[trigger] groups@[g1]).color == (
            #[trigger] groups@[g2]).color && groups@[g1].plane == groups@[g2].plane),
        forall|k: u64|
            #[trigger] visible_key(blocks@, k, dir) && blocks@.contains_key(k) ==> exists|g: int|
                0 <= g < groups@.len() && (#[trigger] groups@[g]).color == blocks@[k]
                    && groups@[g].plane as int == proj_key(k, dir).0,
{
    let n = keys.len();
    let mut groups: Vec<FaceGroup> = Vec::new();
    let mut i: usize = 0;
    while i < n
        invariant
            i <= n,
            n == keys@.len(),
            keys@.no_duplicates(),
            keys@.to_set() == blocks@.dom(),
            forall|g: int|
                0 <= g < groups@.len() ==> group_wf(#[trigger] groups@[g]) && group_sound(
                    blocks@,
                    dir,
                    groups@[g],
                ) && group_complete(blocks@, dir, groups@[g]),
            forall|g1: int, g2: int|
                0 <= g1 < g2 < groups@.len() ==> !((#[trigger] groups@[g1]).color == (
                #[trigger] groups@[g2]).color && groups@[g1].plane == groups@[g2].plane),
            forall|j: int|
                0 <= j < i && #[trigger] visible_key(blocks@, keys@[j], dir) ==> exists|g: int|
                    0 <= g < groups@.len() && (#[trigger] groups@[g]).color == blocks@[keys@[j]]
                        && groups@[g].plane as int == proj_key(keys@[j], dir).0,
        decreases n - i,
    {
        let ki = keys[i];
        proof {
            assert(keys@.contains(keys@[i as int]));
            assert(blocks@.dom().contains(ki));
        }
        let ci = lookup(blocks, ki).unwrap();
        let pos = BlockPos::unpack(ki);
        proof {
            crate::pos::lemma_unpack_in_range(ki);
        }
        let ghost prev_groups = groups@;
        if visible_at(blocks, pos, ci, dir) {
            proof {
                assert(visible_key(blocks@, ki, dir));
            }
            let pr = project(pos, dir);
            if !has_group(&groups, ci, pr.0) {
                let cells = collect_cells(blocks, keys, dir, ci, pr.0);
                groups.push(FaceGroup { color: ci, plane: pr.0, cells });
                proof {
                    let last = groups@.len() - 1;
                    assert(groups@[last].color == ci && groups@[last].plane == pr.0);
                    assert forall|g: int| 0 <= g < groups@.len() implies group_wf(
                        #[trigger] groups@[g],
                    ) && group_sound(blocks@, dir, groups@[g]) && group_complete(
                        blocks@,
                        dir,
                        groups@[g],
                    ) by {
                        if g < last {
                            assert(groups@[g] == prev_groups[g]);
                        }
                    }
                }
            }
        }
        proof {
            // the key just processed now has a matching group if visible
            if visible_key(blocks@, keys@[i as int], dir) {
                assert(exists|g: int|
                    0 <= g < groups@.len() && (#[trigger] groups@[g]).color == blocks@[keys@[i as int]]
                        && groups@[g].plane as int == proj_key(keys@[i as int], dir).0);
            }
            assert forall|j: int|
                0 <= j < i + 1 && #[trigger] visible_key(blocks@, keys@[j], dir) implies exists|
                g: int,
            |
                0 <= g < groups@.len() && (#[trigger] groups@[g]).color == blocks@[keys@[j]]
                    && groups@[g].plane as int == proj_key(keys@[j], dir).0 by {
                if j < i {
                    let g = choose|g: int|
                        0 <= g < prev_groups.len() && (#[trigger] prev_groups[g]).color
                            == blocks@[keys@[j]] && prev_groups[g].plane as int == proj_key(
                            keys@[j],
                            dir,
                        ).0;
                    assert(groups@[g] == prev_groups[g]);
                }
            }
        }
        i = i + 1;
    }
    proof {
        assert forall|k: u64|
            #[trigger] visible_key(blocks@, k, dir) && blocks@.contains_key(k) implies exists|
            g: int,
        |
            0 <= g < groups@.len() && (#[trigger] groups@[g]).color == blocks@[k]
                && groups@[g].plane as int == proj_key(k, dir).0 by {
            assert(keys@.to_set().contains(k));
            assert(keys@.contains(k));
            let j = choose|j: int| 0 <= j < keys@.len() && keys@[j] == k;
            assert(visible_key(blocks@, keys@[j], dir));
        }
    }
    groups
}

/// Stepping one unit in any direction always changes the packed key.
pub proof fn lemma_neighbor_key_distinct(k: u64, d: Direction)
    ensures
        neighbor_key_spec(k, d) != k,
{
    crate::pos::lemma_unpack_in_range(k);
    crate::pos::lemma_unpack_pack(k);
    let x = unpack_x(k);
    let y = unpack_y(k);
    let z = unpack_z(k);
    let a: i32 = x as i32;
    let b: i32 = y as i32;
    let c: i32 = z as i32;
    match axis_spec(d) {
        Axis::X => {
            let a2: i32 = (x + step_spec(d).0) as i32;
            assert(a2 as int == x + step_spec(d).0);
            assert(pack_spec(a2 as int, b as int, c as int) != pack_spec(
                a as int,
                b as int,
                c as int,
            )) by (bit_vector)
                requires
                    a2 == a + 1 || a2 == a - 1,
                    -0x2000000 <= a < 0x2000000,
            ;
        },
        Axis::Y => {
            let b2: i32 = (y + step_spec(d).1) as i32;
            assert(b2 as int == y + step_spec(d).1);
            assert(pack_spec(a as int, b2 as int, c as int) != pack_spec(
                a as int,
                b as int,
                c as int,
            )) by (bit_vector)
                requires
                    b2 == b + 1 || b2 == b - 1,
                    -0x800 <= b < 0x800,
            ;
        },
        Axis::Z => {
            let c2: i32 = (z + step_spec(d).2) as i32;
            assert(c2 as int == z + step_spec(d).2);
            assert(pack_spec(a as int, b as int, c2 as int) != pack_spec(
                a as int,
                b as int,
                c as int,
            )) by (bit_vector)
                requires
                    c2 == c + 1 || c2 == c - 1,
                    -0x2000000 <= c < 0x2000000,
            ;
        },
    }
}

/// A cell whose six face neighbors are all present with its own color
/// exposes no visible face in any direction.
pub proof fn lemma_enclosed_cell_hidden(m: Map<u64, u32>, k: u64)
    requires
        m.contains_key(k),
        forall|d: Direction|
            m.contains_key(#[trigger] neighbor_key_spec(k, d)) && m[neighbor_key_spec(k, d)]
                == m[k],
    ensures
        forall|d: Direction| !(#[trigger] visible_key(m, k, d)),
{
}

/// An isolated cell, with all six neighbors absent, exposes a visible
/// face in every direction.
pub proof fn lemma_isolated_cell_visible(m: Map<u64, u32>, k: u64)
    requires
        m.contains_key(k),
        forall|k2: u64| #[trigger] m.contains_key(k2) ==> k2 == k,
    ensures
        forall|d: Direction| #[trigger] visible_key(m, k, d),
{
    assert forall|d: Direction| #[trigger] visible_key(m, k, d) by {
        lemma_neighbor_key_distinct(k, d);
        if m.contains_key(neighbor_key_spec(k, d)) {
            assert(neighbor_key_spec(k, d) == k);
        }
    }
}

} // verus!
