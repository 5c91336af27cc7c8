//! Cell positions, the packed 64-bit position key, and the six face
//! directions with their axis decomposition.
//!
//! A position is three signed coordinates. The key packs x and z as 26-bit
//! fields and y as a 12-bit field (x in the top bits, then z, then y), so a
//! key determines its position uniquely as long as the coordinates lie in
//! the packed range: x, z in [-2^25, 2^25 - 1] and y in [-2^11, 2^11 - 1].

use vstd::prelude::*;

verus! {

/// Whether a coordinate triple survives the key codec unchanged.
pub open spec fn in_packed_range(x: int, y: int, z: int) -> bool {
    &&& -0x2000000 <= x < 0x2000000
    &&& -0x800 <= y < 0x800
    &&& -0x2000000 <= z < 0x2000000
}

/// The key holding the given coordinates: the low 26 bits of x, then the
/// low 26 bits of z, then the low 12 bits of y, as one 64-bit word.
/// Out-of-range coordinates wrap to their low bits.
pub open spec fn pack_spec(x: int, y: int, z: int) -> u64 {
    ((x % 0x4000000) * 0x4000000000 + (z % 0x4000000) * 0x1000 + (y % 0x1000)) as u64
}

/// The x coordinate stored in a key: the top 26 bits, sign-extended.
pub open spec fn unpack_x(k: u64) -> int {
    let f = (k >> 38) as int;
    if f >= 0x2000000 {
        f - 0x4000000
    } else {
        f
    }
}

/// The z coordinate stored in a key: the middle 26 bits, sign-extended.
pub open spec fn unpack_z(k: u64) -> int {
    let f = ((k >> 12) & 0x3FFFFFF) as int;
    if f >= 0x2000000 {
        f - 0x4000000
    } else {
        f
    }
}

/// The y coordinate stored in a key: the low 12 bits, sign-extended.
pub open spec fn unpack_y(k: u64) -> int {
    let f = (k & 0xFFF) as int;
    if f >= 0x800 {
        f - 0x1000
    } else {
        f
    }
}

/// Every decoded coordinate lies in the packed range.
pub proof fn lemma_unpack_in_range(k: u64)
    ensures
        in_packed_range(unpack_x(k), unpack_y(k), unpack_z(k)),
{
    assert(k >> 38 < 0x4000000) by (bit_vector);
    assert((k >> 12) & 0x3FFFFFF < 0x4000000) by (bit_vector);
    assert(k & 0xFFF < 0x1000) by (bit_vector);
}

/// Round trip: packing coordinates in the packed range and decoding the key
/// yields the same coordinates.
pub proof fn lemma_pack_unpack(x: i32, y: i32, z: i32)
    requires
        in_packed_range(x as int, y as int, z as int),
    ensures
        unpack_x(pack_spec(x as int, y as int, z as int)) == x as int,
        unpack_y(pack_spec(x as int, y as int, z as int)) == y as int,
        unpack_z(pack_spec(x as int, y as int, z as int)) == z as int,
{
    assert(unpack_x(pack_spec(x as int, y as int, z as int)) == x as int
        && unpack_y(pack_spec(x as int, y as int, z as int)) == y as int
        && unpack_z(pack_spec(x as int, y as int, z as int)) == z as int) by (bit_vector)
        requires
            -0x2000000 <= x < 0x2000000,
            -0x800 <= y < 0x800,
            -0x2000000 <= z < 0x2000000,
    ;
}

/// Round trip in the other direction: a key is fully determined by the
/// coordinates it decodes to.
pub proof fn lemma_unpack_pack(k: u64)
    ensures
        pack_spec(unpack_x(k), unpack_y(k), unpack_z(k)) == k,
{
    assert(pack_spec(unpack_x(k), unpack_y(k), unpack_z(k)) == k) by (bit_vector);
}

/// A cell position: three signed coordinates.
#[derive(Clone, Copy, PartialEq, Eq, Structural, Debug)]
pub struct BlockPos {
    pub x: i32,
    pub y: i32,
    pub z: i32,
}

impl BlockPos {
    pub fn new(x: i32, y: i32, z: i32) -> (r: BlockPos)
        ensures
            r == (BlockPos { x, y, z }),
    {
        BlockPos { x, y, z }
    }

    /// Packs the position into its 64-bit key.
    pub fn pack(&self) -> (k: u64)
        ensures
            k == pack_spec(self.x as int, self.y as int, self.z as int),
    {
        let xw: u64 = #[verifier::truncate] (self.x as u64);
        let yw: u64 = #[verifier::truncate] (self.y as u64);
        let zw: u64 = #[verifier::truncate] (self.z as u64);
        let k = ((xw & 0x3FFFFFF) << 38) | ((zw & 0x3FFFFFF) << 12) | (yw & 0xFFF);
        proof {
            let x = self.x;
            let y = self.y;
            let z = self.z;
            assert((((x as u64) & 0x3FFFFFF) << 38) | (((z as u64) & 0x3FFFFFF) << 12) | ((y
                as u64) & 0xFFF) == ((x % 0x4000000) * 0x4000000000 + (z % 0x4000000) * 0x1000 + (y
                % 0x1000)) as u64) by (bit_vector);
        }
        k
    }

    /// Decodes a key into the position it stores.
    pub fn unpack(val: u64) -> (r: BlockPos)
        ensures
            r.x as int == unpack_x(val),
            r.y as int == unpack_y(val),
            r.z as int == unpack_z(val),
    {
        proof {
            lemma_unpack_in_range(val);
        }
        let xf: u64 = val >> 38;
        let zf: u64 = (val >> 12) & 0x3FFFFFF;
        let yf: u64 = val & 0xFFF;
        assert(xf < 0x4000000 && zf < 0x4000000 && yf < 0x1000) by (bit_vector)
            requires
                xf == val >> 38,
                zf == (val >> 12) & 0x3FFFFFF,
                yf == val & 0xFFF,
        ;
        let x: i32 = if xf >= 0x2000000 {
            (xf as i64 - 0x4000000) as i32
        } else {
            xf as i32
        };
        let z: i32 = if zf >= 0x2000000 {
            (zf as i64 - 0x4000000) as i32
        } else {
            zf as i32
        };
        let y: i32 = if yf >= 0x800 {
            (yf as i64 - 0x1000) as i32
        } else {
            yf as i32
        };
        BlockPos { x, y, z }
    }

    /// The neighboring position one step in the given direction.
    pub fn relative(&self, dir: Direction) -> (r: BlockPos)
        requires
            i32::MIN <= self.x + step_spec(dir).0 <= i32::MAX,
            i32::MIN <= self.y + step_spec(dir).1 <= i32::MAX,
            i32::MIN <= self.z + step_spec(dir).2 <= i32::MAX,
        ensures
            r.x as int == self.x + step_spec(dir).0,
            r.y as int == self.y + step_spec(dir).1,
            r.z as int == self.z + step_spec(dir).2,
    {
        let (dx, dy, dz) = dir.step();
        BlockPos { x: self.x + dx, y: self.y + dy, z: self.z + dz }
    }
}

/// One of the six axis-aligned face directions.
#[derive(Clone, Copy, PartialEq, Eq, Structural, Debug)]
pub enum Direction {
    Down,
    Up,
    North,
    South,
    West,
    East,
}

/// One of the three coordinate axes.
#[derive(Clone, Copy, PartialEq, Eq, Structural, Debug)]
pub enum Axis {
    X,
    Y,
    Z,
}

/// The sign of a direction along its axis.
#[derive(Clone, Copy, PartialEq, Eq, Structural, Debug)]
pub enum AxisDirection {
    Positive,
    Negative,
}

/// The unit step vector of a direction.
pub open spec fn step_spec(d: Direction) -> (int, int, int) {
    match d {
        Direction::Down => (0, -1, 0),
        Direction::Up => (0, 1, 0),
        Direction::North => (0, 0, -1),
        Direction::South => (0, 0, 1),
        Direction::West => (-1, 0, 0),
        Direction::East => (1, 0, 0),
    }
}

/// The axis a direction runs along.
pub open spec fn axis_spec(d: Direction) -> Axis {
    match d {
        Direction::Down | Direction::Up => Axis::Y,
        Direction::North | Direction::South => Axis::Z,
        Direction::West | Direction::East => Axis::X,
    }
}

/// Whether a direction points toward positive coordinates.
pub open spec fn is_positive_spec(d: Direction) -> bool {
    match d {
        Direction::Up | Direction::South | Direction::East => true,
        Direction::Down | Direction::North | Direction::West => false,
    }
}

impl Direction {
    /// The unit step vector of this direction.
    pub fn step(&self) -> (r: (i32, i32, i32))
        ensures
            (r.0 as int, r.1 as int, r.2 as int) == step_spec(*self),
    {
        match self {
            Direction::Down => (0, -1, 0),
            Direction::Up => (0, 1, 0),
            Direction::North => (0, 0, -1),
            Direction::South => (0, 0, 1),
            Direction::West => (-1, 0, 0),
            Direction::East => (1, 0, 0),
        }
    }

    /// The axis this direction runs along.
    pub fn axis(&self) -> (r: Axis)
        ensures
            r == axis_spec(*self),
    {
        match self {
            Direction::Down | Direction::Up => Axis::Y,
            Direction::North | Direction::South => Axis::Z,
            Direction::West | Direction::East => Axis::X,
        }
    }

    /// The sign of this direction along its axis.
    pub fn axis_direction(&self) -> (r: AxisDirection)
        ensures
            r == AxisDirection::Positive <==> is_positive_spec(*self),
    {
        match self {
            Direction::Up | Direction::South | Direction::East => AxisDirection::Positive,
            Direction::Down | Direction::North | Direction::West => AxisDirection::Negative,
        }
    }

    /// All six directions, in a fixed order.
    pub fn all() -> (r: [Direction; 6])
        ensures
            r@ =~= seq![
                Direction::Down,
                Direction::Up,
                Direction::North,
                Direction::South,
                Direction::West,
                Direction::East,
            ],
    {
        [
            Direction::Down,
            Direction::Up,
            Direction::North,
            Direction::South,
            Direction::West,
            Direction::East,
        ]
    }
}

} // verus!
