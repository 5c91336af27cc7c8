//! The float-bit encoder against the platform's own conversions, and the
//! registry mutation surface.

use voxel_mesh::{float_bits, BlockMeshGenerator};

#[test]
fn float_bits_matches_casts_small() {
    for v in -4096i64..=4096 {
        assert_eq!(float_bits(v), (v as f32).to_bits(), "value {}", v);
    }
}

#[test]
fn float_bits_matches_casts_rounding() {
    // around the 24-bit precision limit, where rounding to nearest even
    // starts
    for base in [1 << 24, 1 << 25, (1 << 25) + (1 << 13), 0x7FFFFF80i64, 0x7FFFFFFFi64] {
        for d in -5i64..=5 {
            let v = base + d;
            assert_eq!(float_bits(v), (v as f32).to_bits(), "value {}", v);
            assert_eq!(float_bits(-v), ((-v) as f32).to_bits(), "value {}", -v);
        }
    }
}

#[test]
fn float_bits_matches_casts_extremes() {
    for v in [
        0i64,
        1,
        -1,
        i32::MAX as i64,
        i32::MIN as i64,
        33554431,
        -33554432,
        33554432,
        16777215,
        16777217,
    ] {
        assert_eq!(float_bits(v), (v as f32).to_bits(), "value {}", v);
    }
}

const RED: u32 = 0xFFFF0000;

#[test]
fn add_block_rejects_out_of_range() {
    let mut g = BlockMeshGenerator::new();
    assert!(!g.add_block(0x2000000, 0, 0, RED));
    assert!(!g.add_block(0, 2048, 0, RED));
    assert!(!g.add_block(0, 0, -0x2000001, RED));
    g.generate();
    assert_eq!(g.get_quad_buffer_size(), 0);
    assert_eq!(g.get_line_buffer_size(), 0);
}

#[test]
fn add_blocks_bulk() {
    let mut g = BlockMeshGenerator::new();
    let positions = vec![0, 0, 0, 5, 5, 5];
    let colors = vec![RED, RED];
    assert!(g.add_blocks(&positions, &colors));
    g.generate();
    // two isolated cells: six quads and twelve lines each
    assert_eq!(g.get_quad_buffer_size(), 2 * 6 * 28);
    assert_eq!(g.get_line_buffer_size(), 2 * 12 * 8);
}

#[test]
fn add_blocks_rejects_short_colors() {
    let mut g = BlockMeshGenerator::new();
    let positions = vec![0, 0, 0, 5, 5, 5];
    let colors = vec![RED];
    assert!(!g.add_blocks(&positions, &colors));
    g.generate();
    assert_eq!(g.get_quad_buffer_size(), 0);
}

#[test]
fn scan_section_rejects_short_arrays() {
    let mut g = BlockMeshGenerator::new();
    let ids = vec![1; 4095];
    let skies = vec![0; 4096];
    assert!(!g.scan_section_caves(0, 0, 0, &ids, &skies, 1, RED, 0));
    g.generate();
    assert_eq!(g.get_quad_buffer_size(), 0);
}

#[test]
fn scan_section_selects_matching_cells() {
    let mut g = BlockMeshGenerator::new();
    let mut ids = vec![0i32; 4096];
    let mut skies = vec![15i32; 4096];
    // one matching cell at local (x, z, y) = (3, 2, 1): index y*256 + z*16 + x
    let idx = 1 * 256 + 2 * 16 + 3;
    ids[idx] = 7;
    skies[idx] = 0;
    // matching id but too much sky light: not inserted
    ids[idx + 1] = 7;
    assert!(g.scan_section_caves(16, 32, 48, &ids, &skies, 7, RED, 0));
    g.generate();
    // exactly one isolated cell
    assert_eq!(g.get_quad_buffer_size(), 6 * 28);
    // its quads sit at the section origin plus the local offset
    let buf = g.quad_buffer();
    let x = f32::from_bits(buf[0]);
    let y = f32::from_bits(buf[1]);
    let z = f32::from_bits(buf[2]);
    assert!(x == 19.0 || x == 20.0);
    assert!(y == 33.0 || y == 34.0);
    assert!(z == 50.0 || z == 51.0);
}

#[test]
fn generate_is_repeatable() {
    let mut g = BlockMeshGenerator::new();
    assert!(g.add_block(0, 0, 0, RED));
    g.generate();
    let first: Vec<u32> = g.quad_buffer().clone();
    g.generate();
    assert_eq!(g.quad_buffer(), &first);
}
