//! Edge extraction, dedup, coloring and colinear merging.

use std::collections::HashMap;
use voxel_mesh::{collect_edges, combine_lines, interpolate, BlockMeshGenerator, BlockPos, Line};

const RED: u32 = 0xFFFF0000;
const BLUE: u32 = 0xFF0000FF;

fn registry(cells: &[(i32, i32, i32, u32)]) -> (HashMap<u64, u32>, Vec<u64>) {
    let mut m = HashMap::new();
    let mut keys = Vec::new();
    for &(x, y, z, c) in cells.iter() {
        let k = BlockPos::new(x, y, z).pack();
        if m.insert(k, c).is_none() {
            keys.push(k);
        }
    }
    (m, keys)
}

#[test]
fn single_cell_twelve_edges() {
    let (m, keys) = registry(&[(0, 0, 0, RED)]);
    let raw = collect_edges(&m, &keys);
    assert_eq!(raw.len(), 12);
    // all twelve are distinct endpoint pairs
    for i in 0..raw.len() {
        for j in (i + 1)..raw.len() {
            assert!(raw[i].start != raw[j].start || raw[i].end != raw[j].end);
        }
    }
    // all colored with the cell's own color
    for l in raw.iter() {
        assert_eq!(l.color, RED);
    }
}

#[test]
fn two_cells_dedup_shared_edges() {
    // two same-color cells propose 24 edges; the 4 on the shared face
    // boundary coincide and are kept once
    let (m, keys) = registry(&[(0, 0, 0, RED), (1, 0, 0, RED)]);
    let raw = collect_edges(&m, &keys);
    assert_eq!(raw.len(), 20);
    for i in 0..raw.len() {
        for j in (i + 1)..raw.len() {
            assert!(raw[i].start != raw[j].start || raw[i].end != raw[j].end);
        }
    }
}

#[test]
fn two_cells_merge_collinear_runs() {
    let mut g = BlockMeshGenerator::new();
    assert!(g.add_block(0, 0, 0, RED));
    assert!(g.add_block(1, 0, 0, RED));
    g.generate();
    // the four x-runs of length two merge; 8 + 4 + 4 segments remain
    assert_eq!(g.get_line_buffer_size(), 16 * 8);
}

#[test]
fn different_colors_interpolate_shared_edges() {
    let (m, keys) = registry(&[(0, 0, 0, RED), (1, 0, 0, BLUE)]);
    let raw = collect_edges(&m, &keys);
    // every proposed edge is visible; the 4 shared ones are kept once
    assert_eq!(raw.len(), 20);
    let mixed = interpolate(RED, BLUE);
    let mixed_count = raw.iter().filter(|l| l.color == mixed).count();
    assert_eq!(mixed_count, 4);
}

fn unit_x(x: i32, color: u32) -> Line {
    Line {
        start: BlockPos::new(x, 0, 0),
        end: BlockPos::new(x + 1, 0, 0),
        color,
    }
}

#[test]
fn three_in_a_row_collapse() {
    let lines = vec![unit_x(0, RED), unit_x(1, RED), unit_x(2, RED)];
    let merged = combine_lines(&lines);
    assert_eq!(merged.len(), 1);
    let s = merged[0];
    assert_eq!((s.start.x, s.start.y, s.start.z), (0, 0, 0));
    assert_eq!((s.end.x, s.end.y, s.end.z), (3, 0, 0));
    assert_eq!(s.color, RED);
}

#[test]
fn different_color_in_middle_splits() {
    let lines = vec![unit_x(0, RED), unit_x(1, BLUE), unit_x(2, RED)];
    let merged = combine_lines(&lines);
    assert_eq!(merged.len(), 3);
    let reds: Vec<&Line> = merged.iter().filter(|l| l.color == RED).collect();
    assert_eq!(reds.len(), 2);
    let mut spans: Vec<(i32, i32)> = reds.iter().map(|l| (l.start.x, l.end.x)).collect();
    spans.sort();
    assert_eq!(spans, vec![(0, 1), (2, 3)]);
    let blues: Vec<&Line> = merged.iter().filter(|l| l.color == BLUE).collect();
    assert_eq!(blues.len(), 1);
    assert_eq!((blues[0].start.x, blues[0].end.x), (1, 2));
}

#[test]
fn gap_prevents_merge() {
    let lines = vec![unit_x(0, RED), unit_x(2, RED)];
    let merged = combine_lines(&lines);
    assert_eq!(merged.len(), 2);
}

#[test]
fn merge_is_order_independent_in_content() {
    let a = vec![unit_x(2, RED), unit_x(0, RED), unit_x(1, RED)];
    let merged = combine_lines(&a);
    assert_eq!(merged.len(), 1);
    assert_eq!((merged[0].start.x, merged[0].end.x), (0, 3));
}

#[test]
fn line_endpoints_are_integer_float_bits() {
    let mut g = BlockMeshGenerator::new();
    assert!(g.add_block(0, 0, 0, RED));
    g.generate();
    let buf = g.line_buffer();
    assert_eq!(buf.len(), 12 * 8);
    for l in buf.chunks(8) {
        for &w in [l[0], l[1], l[2], l[4], l[5], l[6]].iter() {
            let v = f32::from_bits(w);
            assert!(v == 0.0 || v == 1.0);
        }
        assert_eq!(l[3], RED);
        assert_eq!(l[7], RED);
    }
}
