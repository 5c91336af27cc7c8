//! Greedy rectangle meshing over one plane of face cells.
//!
//! The input is a duplicate-free collection of 2D cells that share one
//! plane, direction and color. The mesher repeatedly takes a remaining
//! cell, extends a rectangle from it first along u and then along v as far
//! as every covered cell is present, emits the rectangle and removes the
//! cells it covers. The emitted rectangles cover exactly the input cells
//! and never overlap; which maximal rectangles come out depends on the
//! order cells are picked in and is not part of the contract.

use vstd::prelude::*;

verus! {

/// A face cell in plane coordinates.
#[derive(Clone, Copy, PartialEq, Eq, Structural, Debug)]
pub struct Cell {
    pub u: i32,
    pub v: i32,
}

/// An axis-aligned rectangle of face cells, `w` by `h` cells starting at
/// `(u, v)`.
#[derive(Clone, Copy, PartialEq, Eq, Structural, Debug)]
pub struct Rect {
    pub u: i32,
    pub v: i32,
    pub w: i32,
    pub h: i32,
}

/// Whether a rectangle covers a cell.
pub open spec fn rect_covers(r: Rect, c: Cell) -> bool {
    &&& r.u <= c.u < r.u + r.w
    &&& r.v <= c.v < r.v + r.h
}

/// Whether two rectangles cover no cell in common.
pub open spec fn rects_disjoint(a: Rect, b: Rect) -> bool {
    forall|c: Cell| !(rect_covers(a, c) && rect_covers(b, c))
}

/// Whether a cell's coordinates fit the packed coordinate range.
pub open spec fn cell_in_bounds(c: Cell) -> bool {
    &&& -0x2000000 <= c.u < 0x2000000
    &&& -0x2000000 <= c.v < 0x2000000
}

/// Whether every cell of a sequence fits the packed coordinate range.
pub open spec fn cells_in_bounds(s: Seq<Cell>) -> bool {
    forall|i: int| 0 <= i < s.len() ==> cell_in_bounds(#[trigger] s[i])
}

/// Whether a rectangle is nonempty and stays within the packed coordinate
/// range.
pub open spec fn rect_in_bounds(r: Rect) -> bool {
    &&& 1 <= r.w
    &&& 1 <= r.h
    &&& -0x2000000 <= r.u
    &&& r.u + r.w <= 0x2000000
    &&& -0x2000000 <= r.v
    &&& r.v + r.h <= 0x2000000
}

/// Whether the cell `(u, v)` is present.
fn contains_cell(cells: &Vec<Cell>, u: i32, v: i32) -> (b: bool)
    ensures
        b == cells@.contains(Cell { u, v }),
{
    let n = cells.len();
    let mut i: usize = 0;
    while i < n
        invariant
            i <= n,
            n == cells@.len(),
            forall|j: int| 0 <= j < i ==> cells@[j] != (Cell { u, v }),
        decreases n - i,
    {
        let c = cells[i];
        if c.u == u && c.v == v {
            assert(cells@[i as int] == (Cell { u, v }));
            return true;
        }
        i = i + 1;
    }
    false
}

/// Whether the rectangle starting at `(su, sv)` with width `w` can grow one
/// more column: the next cell in the u direction is present.
fn can_extend_w(cells: &Vec<Cell>, su: i32, sv: i32, w: i32) -> (b: bool)
    requires
        1 <= w,
        su + w <= 0x2000000,
    ensures
        b == (su + w < 0x2000000 && cells@.contains(Cell { u: (su + w) as i32, v: sv })),
{
    if su + w < 0x2000000 {
        contains_cell(cells, su + w, sv)
    } else {
        false
    }
}

/// Whether the whole row of width `w` at height `v` is present.
fn row_present(cells: &Vec<Cell>, su: i32, v: i32, w: i32) -> (b: bool)
    requires
        1 <= w,
        -0x2000000 <= su,
        su + w <= 0x2000000,
    ensures
        b == forall|c: Cell| c.v == v && su <= c.u < su + w ==> #[trigger] cells@.contains(c),
{
    let mut k: i32 = 0;
    while k < w
        invariant
            0 <= k <= w,
            -0x2000000 <= su,
            su + w <= 0x2000000,
            forall|c: Cell| c.v == v && su <= c.u < su + k ==> #[trigger] cells@.contains(c),
        decreases w - k,
    {
        if !contains_cell(cells, su + k, v) {
            assert(!cells@.contains(Cell { u: (su + k) as i32, v }));
            return false;
        }
        assert forall|c: Cell| c.v == v && su <= c.u < su + k + 1 implies #[trigger] cells@.contains(
            c,
        ) by {
            if c.u == su + k {
                assert(c == (Cell { u: (su + k) as i32, v }));
                assert(cells@.contains(Cell { u: (su + k) as i32, v }));
            }
        }
        k = k + 1;
    }
    true
}

/// Whether the rectangle of height `h` can grow one more row: the whole
/// next row in the v direction is present.
fn can_extend_h(cells: &Vec<Cell>, su: i32, sv: i32, w: i32, h: i32) -> (b: bool)
    requires
        1 <= w,
        1 <= h,
        -0x2000000 <= su,
        su + w <= 0x2000000,
        sv + h <= 0x2000000,
    ensures
        b == (sv + h < 0x2000000 && forall|c: Cell|
            c.v == sv + h && su <= c.u < su + w ==> #[trigger] cells@.contains(c)),
{
    if sv + h < 0x2000000 {
        row_present(cells, su, sv + h, w)
    } else {
        false
    }
}

/// The cells of `cells` that the rectangle does not cover, in order.
fn remove_covered(cells: &Vec<Cell>, r: Rect) -> (out: Vec<Cell>)
    requires
        cells@.no_duplicates(),
        rect_in_bounds(r),
    ensures
        out@.no_duplicates(),
        forall|c: Cell| #[trigger] out@.contains(c) <==> (cells@.contains(c) && !rect_covers(r, c)),
        cells@.len() > 0 && rect_covers(r, cells@[0]) ==> out@.len() < cells@.len(),
{
    let n = cells.len();
    let mut out: Vec<Cell> = Vec::new();
    let mut i: usize = 0;
    while i < n
        invariant
            i <= n,
            n == cells@.len(),
            cells@.no_duplicates(),
            rect_in_bounds(r),
            out@.no_duplicates(),
            forall|c: Cell| #[trigger] out@.contains(c) <==> (cells@.take(i as int).contains(c)
                && !rect_covers(r, c)),
            1 <= i && rect_covers(r, cells@[0]) ==> out@.len() < i,
        decreases n - i,
    {
        let c = cells[i];
        proof {
            assert(cells@.take(i as int + 1) =~= cells@.take(i as int).push(cells@[i as int]));
        }
        let ghost prev_out = out@;
        let covered = r.u <= c.u && c.u < r.u + r.w && r.v <= c.v && c.v < r.v + r.h;
        if !covered {
            proof {
                // c is not yet in out: an occurrence would be an earlier
                // duplicate of cells[i]
                if out@.contains(c) {
                    assert(cells@.take(i as int).contains(c));
                    let j = choose|j: int|
                        0 <= j < cells@.take(i as int).len() && cells@.take(i as int)[j] == c;
                    assert(cells@.take(i as int)[j] == cells@[j]);
                    assert(cells@[j] == cells@[i as int]);
                    assert(false);
                }
            }
            out.push(c);
        }
        proof {
            assert forall|x: Cell| #[trigger] out@.contains(x) implies (cells@.take(
                i as int + 1,
            ).contains(x) && !rect_covers(r, x)) by {
                let j = choose|j: int| 0 <= j < out@.len() && out@[j] == x;
                if j < prev_out.len() {
                    assert(prev_out[j] == x);
                    assert(prev_out.contains(x));
                } else {
                    assert(x == c);
                    assert(cells@.take(i as int + 1)[i as int] == c);
                }
            }
            assert forall|x: Cell| cells@.take(i as int + 1).contains(x) && !rect_covers(
                r,
                x,
            ) implies #[trigger] out@.contains(x) by {
                if x == cells@[i as int] {
                    if !covered {
                        assert(out@[out@.len() - 1] == c);
                    }
                } else {
                    let t = cells@.take(i as int + 1);
                    let j = choose|j: int| 0 <= j < t.len() && t[j] == x;
                    assert(cells@.take(i as int)[j] == x);
                    assert(cells@.take(i as int).contains(x));
                    assert(prev_out.contains(x));
                    let k = choose|k: int| 0 <= k < prev_out.len() && prev_out[k] == x;
                    assert(out@[k] == x);
                }
            }
            if i == 0 && prev_out.len() > 0 {
                assert(prev_out.contains(prev_out[0]));
            }
        }
        i = i + 1;
    }
    assert(cells@.take(n as int) =~= cells@);
    out
}

/// Greedy meshing: covers the given duplicate-free cell set exactly with
/// non-overlapping rectangles.
///
/// Each emitted rectangle covers only input cells, every input cell is
/// covered by exactly one rectangle, and all rectangles stay within the
/// packed coordinate range.
pub fn greedy_mesh_2d(cells: Vec<Cell>) -> (rects: Vec<Rect>)
    requires
        cells@.no_duplicates(),
        cells_in_bounds(cells@),
    ensures
        forall|i: int| 0 <= i < rects@.len() ==> rect_in_bounds(#[trigger] rects@[i]),
        forall|i: int, c: Cell|
            0 <= i < rects@.len() && #[trigger] rect_covers(rects@[i], c) ==> cells@.contains(c),
        forall|c: Cell|
            cells@.contains(c) ==> exists|i: int|
                0 <= i < rects@.len() && rect_covers(#[trigger] rects@[i], c),
        forall|i: int, j: int|
            0 <= i < j < rects@.len() ==> rects_disjoint(rects@[i], rects@[j]),
{
    let mut cur = cells;
    let mut rects: Vec<Rect> = Vec::new();
    let ghost orig = cur@;
    while cur.len() > 0
        invariant
            cur@.no_duplicates(),
            cells_in_bounds(cur@),
            cells_in_bounds(orig),
            forall|c: Cell| cur@.contains(c) ==> orig.contains(c),
            forall|i: int| 0 <= i < rects@.len() ==> rect_in_bounds(#[trigger] rects@[i]),
            forall|i: int, c: Cell|
                0 <= i < rects@.len() && #[trigger] rect_covers(rects@[i], c) ==> orig.contains(c)
                    && !cur@.contains(c),
            forall|c: Cell|
                orig.contains(c) ==> cur@.contains(c) || exists|i: int|
                    0 <= i < rects@.len() && rect_covers(#[trigger] rects@[i], c),
            forall|i: int, j: int|
                0 <= i < j < rects@.len() ==> rects_disjoint(rects@[i], rects@[j]),
        decreases cur@.len(),
    {
        let start = cur[0];
        let su = start.u;
        let sv = start.v;
        proof {
            assert(cur@.contains(cur@[0]));
            assert(cell_in_bounds(cur@[0]));
        }

        let mut w: i32 = 1;
        while can_extend_w(&cur, su, sv, w)
            invariant
                1 <= w,
                -0x2000000 <= su,
                su + w <= 0x2000000,
                forall|c: Cell| c.v == sv && su <= c.u < su + w ==> #[trigger] cur@.contains(c),
            decreases 0x2000000 - su - w,
        {
            assert forall|c: Cell| c.v == sv && su <= c.u < su + w + 1 implies
                #[trigger] cur@.contains(c) by {
                if c.u == su + w {
                    assert(c == (Cell { u: (su + w) as i32, v: sv }));
                }
            }
            w = w + 1;
        }

        let mut h: i32 = 1;
        while can_extend_h(&cur, su, sv, w, h)
            invariant
                1 <= w,
                1 <= h,
                -0x2000000 <= su,
                su + w <= 0x2000000,
                -0x2000000 <= sv,
                sv + h <= 0x2000000,
                forall|c: Cell|
                    su <= c.u < su + w && sv <= c.v < sv + h ==> #[trigger] cur@.contains(c),
            decreases 0x2000000 - sv - h,
        {
            h = h + 1;
        }

        let rect = Rect { u: su, v: sv, w, h };
        proof {
            // everything the rectangle covers is a present cell
            assert forall|c: Cell| rect_covers(rect, c) implies cur@.contains(c) by {}
            assert(rect_covers(rect, cur@[0]));
        }

        let next = remove_covered(&cur, rect);
        let ghost prev_rects = rects@;
        rects.push(rect);
        proof {
            assert(rects@ =~= prev_rects.push(rect));
            let ghost last = rects@.len() - 1;

            // cell bounds and the subset link carry from cur to next
            assert forall|idx: int| 0 <= idx < next@.len() implies cell_in_bounds(
                #[trigger] next@[idx],
            ) by {
                assert(next@.contains(next@[idx]));
                assert(cur@.contains(next@[idx]));
                let j = choose|j: int| 0 <= j < cur@.len() && cur@[j] == next@[idx];
                assert(cell_in_bounds(cur@[j]));
            }
            assert forall|c: Cell| next@.contains(c) implies orig.contains(c) by {
                assert(cur@.contains(c));
            }

            // coverage of the rectangles emitted so far, against next
            assert forall|i: int, c: Cell|
                0 <= i < rects@.len() && #[trigger] rect_covers(rects@[i], c) implies orig.contains(
                c,
            ) && !next@.contains(c) by {
                if i < last {
                    assert(rect_covers(prev_rects[i], c));
                    assert(!cur@.contains(c));
                } else {
                    assert(cur@.contains(c));
                }
            }

            // every original cell is still pending or already covered
            assert forall|c: Cell| orig.contains(c) implies next@.contains(c) || exists|i: int|
                0 <= i < rects@.len() && rect_covers(#[trigger] rects@[i], c) by {
                if !next@.contains(c) {
                    if cur@.contains(c) {
                        assert(rect_covers(rect, c));
                        assert(rect_covers(rects@[last], c));
                    } else {
                        let i = choose|i: int|
                            0 <= i < prev_rects.len() && rect_covers(#[trigger] prev_rects[i], c);
                        assert(rect_covers(rects@[i], c));
                    }
                }
            }

            // the new rectangle overlaps no earlier one
            assert forall|i: int, j: int| 0 <= i < j < rects@.len() implies rects_disjoint(
                rects@[i],
                rects@[j],
            ) by {
                if j == last {
                    assert forall|c: Cell| !(rect_covers(rects@[i], c) && rect_covers(
                        rects@[j],
                        c,
                    )) by {
                        if rect_covers(rects@[i], c) && rect_covers(rects@[j], c) {
                            assert(rect_covers(prev_rects[i], c));
                            assert(!cur@.contains(c));
                            assert(rect_covers(rect, c));
                            assert(cur@.contains(c));
                        }
                    }
                } else {
                    assert(rects_disjoint(prev_rects[i], prev_rects[j]));
                }
            }
        }
        cur = next;
    }
    proof {
        assert forall|c: Cell| cells@.contains(c) implies exists|i: int|
            0 <= i < rects@.len() && rect_covers(#[trigger] rects@[i], c) by {
            assert(!cur@.contains(c));
        }
        assert forall|i: int, c: Cell|
            0 <= i < rects@.len() && #[trigger] rect_covers(rects@[i], c) implies cells@.contains(
            c,
        ) by {}
    }
    rects
}

} // verus!
