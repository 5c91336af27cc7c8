//! Position key codec and direction model.

use voxel_mesh::{Axis, AxisDirection, BlockPos, Direction};

#[test]
fn pack_known_value() {
    let p = BlockPos::new(1, 2, 3);
    let expected: u64 = ((1u64 & 0x3FFFFFF) << 38) | ((3u64 & 0x3FFFFFF) << 12) | (2u64 & 0xFFF);
    assert_eq!(p.pack(), expected);

    let n = BlockPos::new(-1, -2, -3);
    let expected_n: u64 = (((-1i32 as u64) & 0x3FFFFFF) << 38) | (((-3i32 as u64) & 0x3FFFFFF)
        << 12) | ((-2i32 as u64) & 0xFFF);
    assert_eq!(n.pack(), expected_n);
}

#[test]
fn round_trip_in_range() {
    let samples = [
        (0, 0, 0),
        (1, 2, 3),
        (-1, -2, -3),
        (33554431, 2047, 33554431),
        (-33554432, -2048, -33554432),
        (123456, -1000, -654321),
        (-33554432, 2047, 33554431),
    ];
    for &(x, y, z) in samples.iter() {
        let p = BlockPos::new(x, y, z);
        let q = BlockPos::unpack(p.pack());
        assert_eq!((q.x, q.y, q.z), (x, y, z));
    }
}

#[test]
fn out_of_range_wraps() {
    // one past the positive x bound wraps to the negative bound
    let p = BlockPos::new(0x2000000, 0, 0);
    let q = BlockPos::unpack(p.pack());
    assert_eq!((q.x, q.y, q.z), (-0x2000000, 0, 0));
}

#[test]
fn direction_steps() {
    assert_eq!(Direction::Down.step(), (0, -1, 0));
    assert_eq!(Direction::Up.step(), (0, 1, 0));
    assert_eq!(Direction::North.step(), (0, 0, -1));
    assert_eq!(Direction::South.step(), (0, 0, 1));
    assert_eq!(Direction::West.step(), (-1, 0, 0));
    assert_eq!(Direction::East.step(), (1, 0, 0));
}

#[test]
fn direction_axes() {
    assert_eq!(Direction::Down.axis(), Axis::Y);
    assert_eq!(Direction::Up.axis(), Axis::Y);
    assert_eq!(Direction::North.axis(), Axis::Z);
    assert_eq!(Direction::South.axis(), Axis::Z);
    assert_eq!(Direction::West.axis(), Axis::X);
    assert_eq!(Direction::East.axis(), Axis::X);
}

#[test]
fn direction_signs() {
    assert_eq!(Direction::Up.axis_direction(), AxisDirection::Positive);
    assert_eq!(Direction::South.axis_direction(), AxisDirection::Positive);
    assert_eq!(Direction::East.axis_direction(), AxisDirection::Positive);
    assert_eq!(Direction::Down.axis_direction(), AxisDirection::Negative);
    assert_eq!(Direction::North.axis_direction(), AxisDirection::Negative);
    assert_eq!(Direction::West.axis_direction(), AxisDirection::Negative);
}

#[test]
fn direction_all_order() {
    let all = Direction::all();
    assert_eq!(
        all,
        [
            Direction::Down,
            Direction::Up,
            Direction::North,
            Direction::South,
            Direction::West,
            Direction::East,
        ]
    );
}

#[test]
fn relative_steps_once() {
    let p = BlockPos::new(5, -3, 7);
    let e = p.relative(Direction::East);
    assert_eq!((e.x, e.y, e.z), (6, -3, 7));
    let d = p.relative(Direction::Down);
    assert_eq!((d.x, d.y, d.z), (5, -4, 7));
}
