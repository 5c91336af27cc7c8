//! Packed color interpolation, the four-channel color and the render
//! style selector.

use voxel_mesh::{interpolate, Color4, RenderStyle};

#[test]
fn interpolate_exact() {
    // per-channel integer average, truncated
    let c1 = 0xFF_80_40_20u32;
    let c2 = 0x01_00_00_01u32;
    let a = (0xFF + 0x01) / 2;
    let r = (0x80 + 0x00) / 2;
    let g = (0x40 + 0x00) / 2;
    let b = (0x20 + 0x01) / 2;
    let expected = (a << 24) | (r << 16) | (g << 8) | b;
    assert_eq!(interpolate(c1, c2), expected);
}

#[test]
fn interpolate_symmetric() {
    let pairs = [
        (0xFF0000FFu32, 0x00FF0001u32),
        (0x12345678, 0x9ABCDEF0),
        (0, 0xFFFFFFFF),
        (0x01010101, 0x03030303),
    ];
    for &(c1, c2) in pairs.iter() {
        assert_eq!(interpolate(c1, c2), interpolate(c2, c1));
    }
}

#[test]
fn interpolate_idempotent_on_equal() {
    assert_eq!(interpolate(0xAABBCCDD, 0xAABBCCDD), 0xAABBCCDD);
}

#[test]
fn color4_accessors() {
    let c = Color4::rgba(1, 2, 3, 4);
    assert_eq!((c.r, c.g, c.b, c.a), (1, 2, 3, 4));
    let o = Color4::rgb(10, 20, 30);
    assert_eq!(o.a, 255);
    assert_eq!(o.to_argb_u32(), 0xFF0A141E);
}

#[test]
fn color4_write_to_buffer() {
    let c = Color4::rgba(0x11, 0x22, 0x33, 0x44);
    let mut buf = vec![0u8; 8];
    let mut off = 2usize;
    c.write_to_buffer(&mut buf, &mut off);
    assert_eq!(off, 6);
    assert_eq!(buf, vec![0, 0, 0x44, 0x11, 0x22, 0x33, 0, 0]);
}

#[test]
fn style_from_index() {
    assert_eq!(RenderStyle::from_index(0), RenderStyle::Lines);
    assert_eq!(RenderStyle::from_index(1), RenderStyle::Faces);
    assert_eq!(RenderStyle::from_index(2), RenderStyle::Both);
    assert_eq!(RenderStyle::from_index(-7), RenderStyle::Lines);
    assert_eq!(RenderStyle::from_index(99), RenderStyle::Lines);
}
