//! Edge extraction: the visible cube edges of all solid cells, globally
//! deduplicated by endpoint pair.
//!
//! Every solid cell has twelve unit edges. Each edge borders two of the
//! cell's face neighbors (for example the bottom-north edge borders the
//! Down neighbor and the North neighbor). The edge is emitted when either
//! bordering neighbor is absent or differently colored. Its color is the
//! cell's color, averaged with the first bordering neighbor whose color
//! differs, preferring a present neighbor; with both neighbors matching or
//! absent the cell's color is used unchanged. An edge proposed by several
//! cells is kept once, with the color computed for the cell that proposed
//! it first.

use crate::color::{interpolate, interpolate_spec};
use crate::faces::{lookup, neighbor_key_spec};
use crate::pos::{
    in_packed_range, pack_spec, step_spec, unpack_x, unpack_y, unpack_z, BlockPos, Direction,
};
use std::collections::HashMap;
use vstd::prelude::*;

verus! {

/// A line segment between two lattice points, with a packed ARGB color.
#[derive(Clone, Copy, PartialEq, Eq, Structural, Debug)]
pub struct Line {
    pub start: BlockPos,
    pub end: BlockPos,
    pub color: u32,
}

/// The offset of an edge's start corner from its cell's origin corner.
pub open spec fn edge_offset(e: int) -> (int, int, int) {
    if e == 0 {
        (0, 0, 0)
    } else if e == 1 {
        (0, 1, 0)
    } else if e == 2 {
        (0, 0, 1)
    } else if e == 3 {
        (0, 1, 1)
    } else if e == 4 {
        (0, 0, 0)
    } else if e == 5 {
        (1, 0, 0)
    } else if e == 6 {
        (0, 0, 1)
    } else if e == 7 {
        (1, 0, 1)
    } else if e == 8 {
        (0, 0, 0)
    } else if e == 9 {
        (1, 0, 0)
    } else if e == 10 {
        (0, 1, 0)
    } else {
        (1, 1, 0)
    }
}

/// The unit vector an edge runs along.
pub open spec fn edge_unit(e: int) -> (int, int, int) {
    if e < 4 {
        (1, 0, 0)
    } else if e < 8 {
        (0, 1, 0)
    } else {
        (0, 0, 1)
    }
}

/// The two face neighbors bordering an edge.
pub open spec fn edge_dirs(e: int) -> (Direction, Direction) {
    if e == 0 {
        (Direction::Down, Direction::North)
    } else if e == 1 {
        (Direction::Up, Direction::North)
    } else if e == 2 {
        (Direction::Down, Direction::South)
    } else if e == 3 {
        (Direction::Up, Direction::South)
    } else if e == 4 {
        (Direction::West, Direction::North)
    } else if e == 5 {
        (Direction::East, Direction::North)
    } else if e == 6 {
        (Direction::West, Direction::South)
    } else if e == 7 {
        (Direction::East, Direction::South)
    } else if e == 8 {
        (Direction::West, Direction::Down)
    } else if e == 9 {
        (Direction::East, Direction::Down)
    } else if e == 10 {
        (Direction::West, Direction::Up)
    } else {
        (Direction::East, Direction::Up)
    }
}

/// The start corner of edge `e` of the cell stored under key `k`.
pub open spec fn edge_start_key(k: u64, e: int) -> (int, int, int) {
    (
        unpack_x(k) + edge_offset(e).0,
        unpack_y(k) + edge_offset(e).1,
        unpack_z(k) + edge_offset(e).2,
    )
}

/// The end corner of edge `e` of the cell stored under key `k`.
pub open spec fn edge_end_key(k: u64, e: int) -> (int, int, int) {
    (
        edge_start_key(k, e).0 + edge_unit(e).0,
        edge_start_key(k, e).1 + edge_unit(e).1,
        edge_start_key(k, e).2 + edge_unit(e).2,
    )
}

/// The color of the neighbor one step in direction `d` from the cell
/// stored under key `k`, if that neighbor is solid.
pub open spec fn cell_neighbor_color(m: Map<u64, u32>, k: u64, d: Direction) -> Option<u32> {
    let nk = neighbor_key_spec(k, d);
    if m.contains_key(nk) {
        Some(m[nk])
    } else {
        None
    }
}

/// Whether edge `e` of the cell stored under key `k` is visible: either
/// bordering neighbor is absent or differently colored.
pub open spec fn edge_emitted(m: Map<u64, u32>, k: u64, e: int) -> bool {
    let c = m[k];
    cell_neighbor_color(m, k, edge_dirs(e).0) != Some(c) || cell_neighbor_color(
        m,
        k,
        edge_dirs(e).1,
    ) != Some(c)
}

/// The color an emitted edge takes: the cell's color averaged with the
/// first differing bordering neighbor, preferring a present neighbor, or
/// the cell's color unchanged when no present neighbor differs.
pub open spec fn edge_color_spec(m: Map<u64, u32>, k: u64, e: int) -> u32 {
    let c = m[k];
    let second = match cell_neighbor_color(m, k, edge_dirs(e).1) {
        Some(c2) => if c2 != c {
            interpolate_spec(c, c2)
        } else {
            c
        },
        None => c,
    };
    match cell_neighbor_color(m, k, edge_dirs(e).0) {
        Some(c1) => if c1 != c {
            interpolate_spec(c, c1)
        } else {
            second
        },
        None => second,
    }
}

/// Whether a line's endpoints are exactly edge `e` of the cell stored
/// under key `k`.
pub open spec fn line_matches_edge(l: Line, k: u64, e: int) -> bool {
    &&& (l.start.x as int, l.start.y as int, l.start.z as int) == edge_start_key(k, e)
    &&& (l.end.x as int, l.end.y as int, l.end.z as int) == edge_end_key(k, e)
}

/// Whether a line is an emitted edge of some solid cell, with the color
/// computed for that cell.
pub open spec fn line_is_valid_edge(m: Map<u64, u32>, l: Line) -> bool {
    exists|k: u64, e: int|
        m.contains_key(k) && 0 <= e < 12 && #[trigger] edge_emitted(m, k, e) && line_matches_edge(
            l,
            k,
            e,
        ) && l.color == edge_color_spec(m, k, e)
}

/// Whether two lines have the same endpoints.
pub open spec fn same_edge(a: Line, b: Line) -> bool {
    a.start == b.start && a.end == b.end
}

/// Whether an emitted edge already has a line with its endpoints.
pub open spec fn pair_done(m: Map<u64, u32>, lines: Seq<Line>, k: u64, e: int) -> bool {
    edge_emitted(m, k, e) ==> exists|t: int|
        0 <= t < lines.len() && #[trigger] line_matches_edge(lines[t], k, e)
}

/// A line kept in a grown sequence still answers for its edge.
proof fn lemma_pair_done_push(m: Map<u64, u32>, lines: Seq<Line>, l: Line, k: u64, e: int)
    requires
        pair_done(m, lines, k, e),
    ensures
        pair_done(m, lines.push(l), k, e),
{
    if edge_emitted(m, k, e) {
        let t = choose|t: int| 0 <= t < lines.len() && #[trigger] line_matches_edge(lines[t], k, e);
        assert(lines.push(l)[t] == lines[t]);
        assert(line_matches_edge(lines.push(l)[t], k, e));
    }
}

/// The two corners of edge `e` of the cell at `pos`.
fn edge_points(pos: BlockPos, e: usize) -> (r: (BlockPos, BlockPos))
    requires
        e < 12,
        in_packed_range(pos.x as int, pos.y as int, pos.z as int),
    ensures
        (r.0.x as int, r.0.y as int, r.0.z as int) == (
            pos.x + edge_offset(e as int).0,
            pos.y + edge_offset(e as int).1,
            pos.z + edge_offset(e as int).2,
        ),
        (r.1.x as int, r.1.y as int, r.1.z as int) == (
            r.0.x + edge_unit(e as int).0,
            r.0.y + edge_unit(e as int).1,
            r.0.z + edge_unit(e as int).2,
        ),
{
    let x = pos.x;
    let y = pos.y;
    let z = pos.z;
    match e {
        0 => (BlockPos { x, y, z }, BlockPos { x: x + 1, y, z }),
        1 => (BlockPos { x, y: y + 1, z }, BlockPos { x: x + 1, y: y + 1, z }),
        2 => (BlockPos { x, y, z: z + 1 }, BlockPos { x: x + 1, y, z: z + 1 }),
        3 => (BlockPos { x, y: y + 1, z: z + 1 }, BlockPos { x: x + 1, y: y + 1, z: z + 1 }),
        4 => (BlockPos { x, y, z }, BlockPos { x, y: y + 1, z }),
        5 => (BlockPos { x: x + 1, y, z }, BlockPos { x: x + 1, y: y + 1, z }),
        6 => (BlockPos { x, y, z: z + 1 }, BlockPos { x, y: y + 1, z: z + 1 }),
        7 => (BlockPos { x: x + 1, y, z: z + 1 }, BlockPos { x: x + 1, y: y + 1, z: z + 1 }),
        8 => (BlockPos { x, y, z }, BlockPos { x, y, z: z + 1 }),
        9 => (BlockPos { x: x + 1, y, z }, BlockPos { x: x + 1, y, z: z + 1 }),
        10 => (BlockPos { x, y: y + 1, z }, BlockPos { x, y: y + 1, z: z + 1 }),
        _ => (BlockPos { x: x + 1, y: y + 1, z }, BlockPos { x: x + 1, y: y + 1, z: z + 1 }),
    }
}

/// The two face neighbors bordering edge `e`.
fn edge_neighbor_dirs(e: usize) -> (r: (Direction, Direction))
    requires
        e < 12,
    ensures
        r == edge_dirs(e as int),
{
    match e {
        0 => (Direction::Down, Direction::North),
        1 => (Direction::Up, Direction::North),
        2 => (Direction::Down, Direction::South),
        3 => (Direction::Up, Direction::South),
        4 => (Direction::West, Direction::North),
        5 => (Direction::East, Direction::North),
        6 => (Direction::West, Direction::South),
        7 => (Direction::East, Direction::South),
        8 => (Direction::West, Direction::Down),
        9 => (Direction::East, Direction::Down),
        10 => (Direction::West, Direction::Up),
        _ => (Direction::East, Direction::Up),
    }
}

/// The color of the neighbor one step in direction `d` from `pos`.
fn neighbor_color_at(blocks: &HashMap<u64, u32>, pos: BlockPos, d: Direction) -> (r: Option<u32>)
    requires
        in_packed_range(pos.x as int, pos.y as int, pos.z as int),
    ensures
        r == ({
            let nk = pack_spec(
                pos.x + step_spec(d).0,
                pos.y + step_spec(d).1,
                pos.z + step_spec(d).2,
            );
            if blocks@.contains_key(nk) {
                Some(blocks@[nk])
            } else {
                None::<u32>
            }
        }),
{
    let nk = pos.relative(d).pack();
    lookup(blocks, nk)
}

/// Whether a line with the given endpoints is already present.
fn contains_edge(lines: &Vec<Line>, s: BlockPos, t: BlockPos) -> (b: bool)
    ensures
        b == exists|i: int|
            0 <= i < lines@.len() && (#[trigger] lines@[i]).start == s && lines@[i].end == t,
{
    let n = lines.len();
    let mut i: usize = 0;
    while i < n
        invariant
            i <= n,
            n == lines@.len(),
            forall|j: int|
                0 <= j < i ==> !((#[trigger] lines@[j]).start == s && lines@[j].end == t),
        decreases n - i,
    {
        let l = lines[i];
        if l.start.x == s.x && l.start.y == s.y && l.start.z == s.z && l.end.x == t.x && l.end.y
            == t.y && l.end.z == t.z {
            proof {
                assert(lines@[i as int].start == s && lines@[i as int].end == t);
            }
            return true;
        }
        i = i + 1;
    }
    false
}

/// All visible cube edges of all solid cells, each endpoint pair once.
///
/// Every returned line is a visible unit edge of some solid cell with
/// that cell's computed edge color; every visible edge of every solid
/// cell is represented; and no two lines share their endpoint pair.
#[verifier::rlimit(100)]
pub fn collect_edges(blocks: &HashMap<u64, u32>, keys: &Vec<u64>) -> (lines: Vec<Line>)
    requires
        keys@.no_duplicates(),
        keys@.to_set() == blocks@.dom(),
    ensures
        forall|i: int| 0 <= i < lines@.len() ==> line_is_valid_edge(blocks@, #[trigger] lines@[i]),
        forall|i: int, j: int|
            0 <= i < j < lines@.len() ==> !same_edge(lines@[i], lines@[j]),
        forall|k: u64, e: int|
            blocks@.contains_key(k) && 0 <= e < 12 ==> pair_done(blocks@, lines@, k, e),
{
    let n = keys.len();
    let mut lines: Vec<Line> = Vec::new();
    let mut i: usize = 0;
    while i < n
        invariant
            i <= n,
            n == keys@.len(),
            keys@.no_duplicates(),
            keys@.to_set() == blocks@.dom(),
            forall|t: int|
                0 <= t < lines@.len() ==> line_is_valid_edge(blocks@, #[trigger] lines@[t]),
            forall|t1: int, t2: int|
                0 <= t1 < t2 < lines@.len() ==> !same_edge(lines@[t1], lines@[t2]),
            forall|j: int, e2: int|
                0 <= j < i && 0 <= e2 < 12 ==> #[trigger] pair_done(blocks@, lines@, keys@[j], e2),
        decreases n - i,
    {
        let ki = keys[i];
        proof {
            assert(keys@.contains(keys@[i as int]));
            assert(blocks@.dom().contains(ki));
        }
        let color = lookup(blocks, ki).unwrap();
        let pos = BlockPos::unpack(ki);
        proof {
            crate::pos::lemma_unpack_in_range(ki);
        }
        let mut e: usize = 0;
        while e < 12
            invariant
                e <= 12,
                i < n,
                n == keys@.len(),
                keys@.no_duplicates(),
                keys@.to_set() == blocks@.dom(),
                blocks@.contains_key(ki),
                ki == keys@[i as int],
                color == blocks@[ki],
                pos.x as int == unpack_x(ki),
                pos.y as int == unpack_y(ki),
                pos.z as int == unpack_z(ki),
                in_packed_range(pos.x as int, pos.y as int, pos.z as int),
                forall|t: int|
                    0 <= t < lines@.len() ==> line_is_valid_edge(blocks@, #[trigger] lines@[t]),
                forall|t1: int, t2: int|
                    0 <= t1 < t2 < lines@.len() ==> !same_edge(lines@[t1], lines@[t2]),
                forall|j: int, e2: int|
                    0 <= j < i && 0 <= e2 < 12 ==> #[trigger] pair_done(blocks@, lines@, keys@[j], e2),
                forall|e2: int| 0 <= e2 < e ==> pair_done(blocks@, lines@, ki, e2),
            decreases 12 - e,
        {
            let (s, t) = edge_points(pos, e);
            let dirs = edge_neighbor_dirs(e);
            let c1 = neighbor_color_at(blocks, pos, dirs.0);
            let c2 = neighbor_color_at(blocks, pos, dirs.1);
            proof {
                assert(c1 == cell_neighbor_color(blocks@, ki, edge_dirs(e as int).0));
                assert(c2 == cell_neighbor_color(blocks@, ki, edge_dirs(e as int).1));
            }
            let d1_differs = match c1 {
                Some(v) => v != color,
                None => true,
            };
            let d2_differs = match c2 {
                Some(v) => v != color,
                None => true,
            };
            let ghost prev = lines@;
            if d1_differs || d2_differs {
                proof {
                    assert(edge_emitted(blocks@, ki, e as int));
                }
                if !contains_edge(&lines, s, t) {
                    let second = match c2 {
                        Some(v2) => if v2 != color {
                            interpolate(color, v2)
                        } else {
                            color
                        },
                        None => color,
                    };
                    let lc = match c1 {
                        Some(v1) => if v1 != color {
                            interpolate(color, v1)
                        } else {
                            second
                        },
                        None => second,
                    };
                    let l = Line { start: s, end: t, color: lc };
                    proof {
                        assert(line_matches_edge(l, ki, e as int));
                        assert(lc == edge_color_spec(blocks@, ki, e as int));
                    }
                    lines.push(l);
                    proof {
                        let last = lines@.len() - 1;
                        assert(lines@[last] == l);
                        // the new line answers for this edge and is itself valid
                        assert(line_is_valid_edge(blocks@, l));
                        // dedup: the new line matches no earlier endpoint pair
                        assert forall|t1: int, t2: int|
                            0 <= t1 < t2 < lines@.len() implies !same_edge(
                            lines@[t1],
                            lines@[t2],
                        ) by {
                            if t2 == last {
                                assert(lines@[t1] == prev[t1]);
                            } else {
                                assert(lines@[t1] == prev[t1] && lines@[t2] == prev[t2]);
                            }
                        }
                        // earlier pairs keep their witnesses
                        assert forall|j: int, e2: int|
                            0 <= j < i && 0 <= e2 < 12 implies #[trigger] pair_done(
                            blocks@,
                            lines@,
                            keys@[j],
                            e2,
                        ) by {
                            lemma_pair_done_push(blocks@, prev, l, keys@[j], e2);
                        }
                        assert forall|e2: int| 0 <= e2 < e + 1 implies pair_done(
                            blocks@,
                            lines@,
                            ki,
                            e2,
                        ) by {
                            if e2 < e {
                                lemma_pair_done_push(blocks@, prev, l, ki, e2);
                            } else {
                                assert(line_matches_edge(lines@[last], ki, e as int));
                            }
                        }
                    }
                } else {
                    proof {
                        // an existing line already has these endpoints, so it
                        // answers for this edge as well
                        let t0 = choose|t0: int|
                            0 <= t0 < lines@.len() && (#[trigger] lines@[t0]).start == s
                                && lines@[t0].end == t;
                        assert(line_matches_edge(lines@[t0], ki, e as int));
                        assert(pair_done(blocks@, lines@, ki, e as int));
                    }
                }
            } else {
                proof {
                    assert(!edge_emitted(blocks@, ki, e as int));
                }
            }
            e = e + 1;
        }
        i = i + 1;
    }
    proof {
        assert forall|k: u64, e: int|
            blocks@.contains_key(k) && 0 <= e < 12 implies pair_done(blocks@, lines@, k, e) by {
            assert(keys@.to_set().contains(k));
            assert(keys@.contains(k));
            let j = choose|j: int| 0 <= j < keys@.len() && keys@[j] == k;
            assert(pair_done(blocks@, lines@, keys@[j], e));
        }
    }
    lines
}

} // verus!
