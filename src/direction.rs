//! The eight grid directions and compact sets of them.
use vstd::prelude::*;

verus! {

/// One of the eight moves on an 8-connected grid.
///
/// The order of the variants is fixed: it is the bit position of the direction in a
/// [`DirSet`] and the edge id of a move.
#[derive(Clone, Copy, Debug, PartialEq, Eq, Hash, Structural)]
pub enum Direction {
    North,
    West,
    South,
    East,
    NorthWest,
    SouthWest,
    SouthEast,
    NorthEast,
}

/// Bit of `North` in a direction bitmask.
pub const N: u8 = 1;
/// Bit of `West` in a direction bitmask.
pub const W: u8 = 2;
/// Bit of `South` in a direction bitmask.
pub const S: u8 = 4;
/// Bit of `East` in a direction bitmask.
pub const E: u8 = 8;
/// Bit of `NorthWest` in a direction bitmask.
pub const NW: u8 = 16;
/// Bit of `SouthWest` in a direction bitmask.
pub const SW: u8 = 32;
/// Bit of `SouthEast` in a direction bitmask.
pub const SE: u8 = 64;
/// Bit of `NorthEast` in a direction bitmask.
pub const NE: u8 = 128;

/// The position of a direction in the fixed order.
pub open spec fn dir_index(d: Direction) -> nat {
    match d {
        Direction::North => 0,
        Direction::West => 1,
        Direction::South => 2,
        Direction::East => 3,
        Direction::NorthWest => 4,
        Direction::SouthWest => 5,
        Direction::SouthEast => 6,
        Direction::NorthEast => 7,
    }
}

/// The direction at a position of the fixed order.
pub open spec fn dir_at(i: nat) -> Direction
    recommends
        i < 8,
{
    if i == 0 {
        Direction::North
    } else if i == 1 {
        Direction::West
    } else if i == 2 {
        Direction::South
    } else if i == 3 {
        Direction::East
    } else if i == 4 {
        Direction::NorthWest
    } else if i == 5 {
        Direction::SouthWest
    } else if i == 6 {
        Direction::SouthEast
    } else {
        Direction::NorthEast
    }
}

/// The single bit of a direction in a bitmask.
pub open spec fn dir_bit(d: Direction) -> u8 {
    match d {
        Direction::North => N,
        Direction::West => W,
        Direction::South => S,
        Direction::East => E,
        Direction::NorthWest => NW,
        Direction::SouthWest => SW,
        Direction::SouthEast => SE,
        Direction::NorthEast => NE,
    }
}

/// The direction pointing the other way.
pub open spec fn spec_backwards(d: Direction) -> Direction {
    match d {
        Direction::North => Direction::South,
        Direction::West => Direction::East,
        Direction::South => Direction::North,
        Direction::East => Direction::West,
        Direction::NorthWest => Direction::SouthEast,
        Direction::SouthWest => Direction::NorthEast,
        Direction::SouthEast => Direction::NorthWest,
        Direction::NorthEast => Direction::SouthWest,
    }
}

/// The unit step `(dx, dy)` of a direction; north is towards smaller `y`.
pub open spec fn spec_vector(d: Direction) -> (int, int) {
    match d {
        Direction::North => (0, -1),
        Direction::West => (-1, 0),
        Direction::South => (0, 1),
        Direction::East => (1, 0),
        Direction::NorthWest => (-1, -1),
        Direction::SouthWest => (-1, 1),
        Direction::SouthEast => (1, 1),
        Direction::NorthEast => (1, -1),
    }
}

/// Whether a direction is one of the four cardinal ones.
pub open spec fn spec_orthogonal(d: Direction) -> bool {
    d == Direction::North || d == Direction::East || d == Direction::South || d == Direction::West
}

impl Direction {
    /// The direction pointing the other way.
    pub fn backwards(self) -> (r: Direction)
        ensures
            r == spec_backwards(self),
            spec_backwards(r) == self,
    {
        match self {
            Direction::North => Direction::South,
            Direction::West => Direction::East,
            Direction::South => Direction::North,
            Direction::East => Direction::West,
            Direction::NorthWest => Direction::SouthEast,
            Direction::SouthWest => Direction::NorthEast,
            Direction::SouthEast => Direction::NorthWest,
            Direction::NorthEast => Direction::SouthWest,
        }
    }

    /// The unit step `(dx, dy)` of this direction.
    pub fn vector(self) -> (r: (i32, i32))
        ensures
            (r.0 as int, r.1 as int) == spec_vector(self),
    {
        match self {
            Direction::North => (0, -1),
            Direction::West => (-1, 0),
            Direction::South => (0, 1),
            Direction::East => (1, 0),
            Direction::NorthWest => (-1, -1),
            Direction::SouthWest => (-1, 1),
            Direction::SouthEast => (1, 1),
            Direction::NorthEast => (1, -1),
        }
    }

    /// Whether this is one of the four cardinal directions.
    pub fn orthogonal(self) -> (r: bool)
        ensures
            r == spec_orthogonal(self),
    {
        match self {
            Direction::North | Direction::East | Direction::South | Direction::West => true,
            _ => false,
        }
    }

    /// The position of this direction in the fixed order, which is also its edge id.
    pub fn index(self) -> (r: usize)
        ensures
            r == dir_index(self),
            r < 8,
    {
        match self {
            Direction::North => 0,
            Direction::West => 1,
            Direction::South => 2,
            Direction::East => 3,
            Direction::NorthWest => 4,
            Direction::SouthWest => 5,
            Direction::SouthEast => 6,
            Direction::NorthEast => 7,
        }
    }

    /// The direction at position `value` of the fixed order, if `value < 8`.
    pub fn try_from(value: usize) -> (r: Option<Direction>)
        ensures
            value < 8 ==> r == Some(dir_at(value as nat)),
            value >= 8 ==> r.is_none(),
            r matches Some(d) ==> dir_index(d) == value,
    {
        match value {
            0 => Some(Direction::North),
            1 => Some(Direction::West),
            2 => Some(Direction::South),
            3 => Some(Direction::East),
            4 => Some(Direction::NorthWest),
            5 => Some(Direction::SouthWest),
            6 => Some(Direction::SouthEast),
            7 => Some(Direction::NorthEast),
            _ => None,
        }
    }

    /// The single bit of this direction in a bitmask.
    pub fn bit(self) -> (r: u8)
        ensures
            r == dir_bit(self),
    {
        match self {
            Direction::North => N,
            Direction::West => W,
            Direction::South => S,
            Direction::East => E,
            Direction::NorthWest => NW,
            Direction::SouthWest => SW,
            Direction::SouthEast => SE,
            Direction::NorthEast => NE,
        }
    }
}

/// The bit of a direction is `1 << index`.
pub proof fn lemma_dir_bit(d: Direction)
    ensures
        dir_bit(d) == 1u8 << (dir_index(d) as u8),
        dir_at(dir_index(d)) == d,
{
    assert(1u8 << 0u8 == 1 && 1u8 << 1u8 == 2 && 1u8 << 2u8 == 4 && 1u8 << 3u8 == 8 && 1u8 << 4u8
        == 16 && 1u8 << 5u8 == 32 && 1u8 << 6u8 == 64 && 1u8 << 7u8 == 128) by (bit_vector);
}

/// How `|` and `&` combine on direction sets.
pub proof fn lemma_or_has(v: u8, b: u8, bb: u8)
    by (bit_vector)
    ensures
        ((v | b) & bb != 0) == ((v & bb != 0) || (b & bb != 0)),
        0u8 & bb == 0u8,
        (v & 0xf0u8 == 0u8 && (bb == 16u8 || bb == 32u8 || bb == 64u8 || bb == 128u8)) ==> v & bb == 0u8,
{
}

/// Two directions share a bit exactly when they are the same direction.
pub proof fn lemma_bits_disjoint(d: Direction, e: Direction)
    ensures
        (dir_bit(d) & dir_bit(e) != 0) == (d == e),
        dir_index(d) >= 4 ==> (dir_bit(d) == 16u8 || dir_bit(d) == 32u8 || dir_bit(d) == 64u8 || dir_bit(d) == 128u8),
{
    lemma_dir_bit(d);
    lemma_dir_bit(e);
    let i = dir_index(d) as u8;
    let j = dir_index(e) as u8;
    assert(i < 8 && j < 8 ==> (((1u8 << i) & (1u8 << j) != 0) == (i == j))) by (bit_vector);
}

/// A set of directions, one bit per direction in the fixed order.
#[derive(Clone, Copy, Debug, PartialEq, Eq, Hash, Structural)]
pub struct DirSet {
    pub bits: u8,
}

impl DirSet {
    /// Whether the set holds `d`.
    pub open spec fn has(self, d: Direction) -> bool {
        self.bits & dir_bit(d) != 0
    }

    /// The set with no direction.
    pub fn empty() -> (r: DirSet)
        ensures
            r.bits == 0,
    {
        DirSet { bits: 0 }
    }

    /// The set with all eight directions.
    pub fn all() -> (r: DirSet)
        ensures
            r.bits == 0xff,
    {
        DirSet { bits: 0xff }
    }

    /// The set whose bitmask is `bits`.
    pub fn from_u8(bits: u8) -> (r: DirSet)
        ensures
            r.bits == bits,
    {
        DirSet { bits }
    }

    /// The set with `d` alone.
    pub fn single(d: Direction) -> (r: DirSet)
        ensures
            r.bits == dir_bit(d),
    {
        DirSet { bits: d.bit() }
    }

    /// The bitmask of the set.
    pub fn as_u8(self) -> (r: u8)
        ensures
            r == self.bits,
    {
        self.bits
    }

    /// Whether the set holds `d`.
    pub fn contains(self, d: Direction) -> (r: bool)
        ensures
            r == self.has(d),
    {
        self.bits & d.bit() != 0
    }

    /// Whether the set is empty.
    pub fn is_empty(self) -> (r: bool)
        ensures
            r == (self.bits == 0),
    {
        self.bits == 0
    }

    /// The set with `d` added.
    pub fn insert(self, d: Direction) -> (r: DirSet)
        ensures
            r.bits == self.bits | dir_bit(d),
    {
        DirSet { bits: self.bits | d.bit() }
    }

    /// The directions in both sets.
    pub fn intersection(self, o: DirSet) -> (r: DirSet)
        ensures
            r.bits == self.bits & o.bits,
    {
        DirSet { bits: self.bits & o.bits }
    }

    /// The directions in either set.
    pub fn union(self, o: DirSet) -> (r: DirSet)
        ensures
            r.bits == self.bits | o.bits,
    {
        DirSet { bits: self.bits | o.bits }
    }

    /// Whether every direction of `self` is in `o`.
    pub fn is_subset(self, o: DirSet) -> (r: bool)
        ensures
            r == (self.bits & !o.bits == 0),
    {
        self.bits & !o.bits == 0
    }

    /// Whether no direction is in both sets.
    pub fn is_disjoint(self, o: DirSet) -> (r: bool)
        ensures
            r == (self.bits & o.bits == 0),
    {
        self.bits & o.bits == 0
    }
}

} // verus!
