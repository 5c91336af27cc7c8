//! Greedy meshing and end-to-end quad generation.

use std::collections::HashMap;
use voxel_mesh::{
    greedy_mesh_2d, quads_for_direction, BlockMeshGenerator, BlockPos, Cell, Direction, Rect,
};

fn covers(r: &Rect, u: i32, v: i32) -> bool {
    r.u <= u && u < r.u + r.w && r.v <= v && v < r.v + r.h
}

fn check_partition(cells: &[(i32, i32)], rects: &[Rect]) {
    // every input cell is covered by exactly one rectangle
    for &(u, v) in cells.iter() {
        let mut count = 0;
        for r in rects.iter() {
            if covers(r, u, v) {
                count += 1;
            }
        }
        assert_eq!(count, 1);
    }
    // every covered cell is an input cell
    for r in rects.iter() {
        assert!(r.w >= 1 && r.h >= 1);
        for du in 0..r.w {
            for dv in 0..r.h {
                let (u, v) = (r.u + du, r.v + dv);
                assert!(cells.iter().any(|&(cu, cv)| cu == u && cv == v));
            }
        }
    }
}

#[test]
fn greedy_covers_square() {
    let coords = [(0, 0), (1, 0), (0, 1), (1, 1)];
    let cells: Vec<Cell> = coords.iter().map(|&(u, v)| Cell { u, v }).collect();
    let rects = greedy_mesh_2d(cells);
    check_partition(&coords, &rects);
}

#[test]
fn greedy_covers_l_shape() {
    let coords = [(0, 0), (1, 0), (2, 0), (0, 1), (0, 2), (2, 2)];
    let cells: Vec<Cell> = coords.iter().map(|&(u, v)| Cell { u, v }).collect();
    let rects = greedy_mesh_2d(cells);
    check_partition(&coords, &rects);
}

#[test]
fn greedy_empty_input() {
    let rects = greedy_mesh_2d(Vec::new());
    assert_eq!(rects.len(), 0);
}

#[test]
fn greedy_negative_coordinates() {
    let coords = [(-3, -2), (-2, -2), (-3, -1), (-2, -1), (5, 5)];
    let cells: Vec<Cell> = coords.iter().map(|&(u, v)| Cell { u, v }).collect();
    let rects = greedy_mesh_2d(cells);
    check_partition(&coords, &rects);
}

const RED: u32 = 0xFFFF0000;

#[test]
fn single_cell_six_quads() {
    let mut g = BlockMeshGenerator::new();
    assert!(g.add_block(0, 0, 0, RED));
    g.generate();
    // 6 quads, 4 vertices each, 7 entries per vertex
    assert_eq!(g.get_quad_buffer_size(), 6 * 28);
    // 12 unit edges, 2 endpoints each, 4 entries per endpoint
    assert_eq!(g.get_line_buffer_size(), 12 * 8);
}

#[test]
fn two_cells_share_face() {
    let mut g = BlockMeshGenerator::new();
    assert!(g.add_block(0, 0, 0, RED));
    assert!(g.add_block(1, 0, 0, RED));
    g.generate();
    // the shared face is culled on both sides and coplanar faces merge,
    // leaving one quad per direction
    assert_eq!(g.get_quad_buffer_size(), 6 * 28);
    // x-facing quads sit only on the outer planes x = 0 and x = 2: the
    // internal face at x = 1 is absent
    let buf = g.quad_buffer();
    for q in buf.chunks(28) {
        let nx = f32::from_bits(q[4]);
        if nx != 0.0 {
            let x = f32::from_bits(q[0]);
            assert!(x == 0.0 || x == 2.0);
            assert!(x != 1.0);
        }
    }
}

#[test]
fn enclosed_cell_contributes_no_faces() {
    // a center cell with all six same-color neighbors is invisible: each
    // arm exposes five 1x1 faces and nothing merges, so 30 quads emerge
    let mut g = BlockMeshGenerator::new();
    assert!(g.add_block(0, 0, 0, RED));
    for (x, y, z) in [
        (1, 0, 0),
        (-1, 0, 0),
        (0, 1, 0),
        (0, -1, 0),
        (0, 0, 1),
        (0, 0, -1),
    ] {
        assert!(g.add_block(x, y, z, RED));
    }
    g.generate();
    assert_eq!(g.get_quad_buffer_size(), 30 * 28);
}

#[test]
fn clear_empties_buffers() {
    let mut g = BlockMeshGenerator::new();
    assert!(g.add_block(0, 0, 0, RED));
    g.generate();
    assert!(g.get_quad_buffer_size() > 0);
    g.clear();
    g.generate();
    assert_eq!(g.get_quad_buffer_size(), 0);
    assert_eq!(g.get_line_buffer_size(), 0);
}

#[test]
fn overwrite_keeps_one_cell() {
    let mut g = BlockMeshGenerator::new();
    assert!(g.add_block(0, 0, 0, RED));
    assert!(g.add_block(0, 0, 0, 0xFF00FF00));
    g.generate();
    assert_eq!(g.get_quad_buffer_size(), 6 * 28);
    // every quad carries the later color
    let buf = g.quad_buffer();
    for q in buf.chunks(28) {
        assert_eq!(q[3], 0xFF00FF00);
    }
}

#[test]
fn quad_vertices_are_float_bits() {
    let mut g = BlockMeshGenerator::new();
    assert!(g.add_block(2, 3, 4, RED));
    g.generate();
    let buf = g.quad_buffer();
    assert_eq!(buf.len(), 6 * 28);
    for q in buf.chunks(28) {
        for vtx in q.chunks(7) {
            // coordinates are unit-cube corners of the cell
            let x = f32::from_bits(vtx[0]);
            let y = f32::from_bits(vtx[1]);
            let z = f32::from_bits(vtx[2]);
            assert!(x == 2.0 || x == 3.0);
            assert!(y == 3.0 || y == 4.0);
            assert!(z == 4.0 || z == 5.0);
            assert_eq!(vtx[3], RED);
            // the normal is a signed unit axis vector
            let n = (
                f32::from_bits(vtx[4]),
                f32::from_bits(vtx[5]),
                f32::from_bits(vtx[6]),
            );
            let mag = n.0.abs() + n.1.abs() + n.2.abs();
            assert_eq!(mag, 1.0);
        }
    }
}

#[test]
fn different_colors_do_not_merge() {
    // a differently colored neighbor keeps the shared faces visible and
    // prevents any merging: six one-by-one quads per cube
    let mut g = BlockMeshGenerator::new();
    assert!(g.add_block(0, 0, 0, RED));
    assert!(g.add_block(1, 0, 0, 0xFF0000FF));
    g.generate();
    assert_eq!(g.get_quad_buffer_size(), 12 * 28);
}

#[test]
fn single_direction_merges_pair() {
    let mut blocks = HashMap::new();
    let mut keys = Vec::new();
    for (x, y, z) in [(0, 0, 0), (1, 0, 0)] {
        let k = BlockPos::new(x, y, z).pack();
        if blocks.insert(k, RED).is_none() {
            keys.push(k);
        }
    }
    let quads = quads_for_direction(&blocks, &keys, Direction::Up);
    assert_eq!(quads.len(), 1);
    let q = &quads[0];
    assert_eq!(q.dir, Direction::Up);
    assert_eq!(q.color, RED);
    assert_eq!(q.plane, 0);
    assert_eq!(q.rect.w * q.rect.h, 2);
}
