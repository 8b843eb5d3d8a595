use vstd::prelude::*;

verus! {

/// A signed XY coordinate on the 2D grid, origin at the board's logical
/// center, with `y` increasing upward.
#[derive(Debug, Clone, Copy, PartialEq, Eq, Structural)]
pub struct Coordinate(pub i8, pub i8);

/// An unsigned (column, row) address into the grid's backing storage.
#[derive(Debug, Clone, Copy, PartialEq, Eq, Structural)]
pub struct GridIndex(pub u8, pub u8);

/// The signed coordinate clamped to the 8-bit range.
pub open spec fn clamp_i8(x: int) -> int {
    if x < -128 {
        -128
    } else if x > 127 {
        127
    } else {
        x
    }
}

/// The sum of two 8-bit values reduced into the 8-bit range modulo 256.
pub open spec fn wrap_i8(x: int) -> int {
    if x < -128 {
        x + 256
    } else if x > 127 {
        x - 256
    } else {
        x
    }
}

/// The bias-and-flip transform from a signed coordinate to its storage
/// address: `col = x + 128`, `row = 127 - y`.
pub open spec fn index_of(c: Coordinate) -> GridIndex {
    GridIndex((c.0 + 128) as u8, (127 - c.1) as u8)
}

/// The inverse transform from a storage address to its signed coordinate:
/// `x = col - 128`, `y = 127 - row`.
pub open spec fn coordinate_of(i: GridIndex) -> Coordinate {
    Coordinate((i.0 - 128) as i8, (127 - i.1) as i8)
}

impl Coordinate {
    /// Component-wise addition that clamps at the signed 8-bit bounds, so a
    /// cursor moved past an edge stays on the edge.
    pub fn saturating_add(self, rhs: Self) -> (r: Self)
        ensures
            r.0 == clamp_i8(self.0 + rhs.0),
            r.1 == clamp_i8(self.1 + rhs.1),
    {
        Self(saturate_i8(self.0, rhs.0), saturate_i8(self.1, rhs.1))
    }

    /// Component-wise subtraction that clamps at the signed 8-bit bounds.
    pub fn saturating_sub(self, rhs: Self) -> (r: Self)
        ensures
            r.0 == clamp_i8(self.0 - rhs.0),
            r.1 == clamp_i8(self.1 - rhs.1),
    {
        Self(saturate_i8_diff(self.0, rhs.0), saturate_i8_diff(self.1, rhs.1))
    }

    /// Calculates `self + rhs` component-wise, wrapping on overflow, and
    /// reports whether either component fell outside the signed 8-bit range.
    /// Neighbor searches treat a `true` flag as "no such neighbor".
    pub fn overflowing_add(self, rhs: Self) -> (r: (Self, bool))
        ensures
            r.0.0 == wrap_i8(self.0 + rhs.0),
            r.0.1 == wrap_i8(self.1 + rhs.1),
            r.1 == !(-128 <= self.0 + rhs.0 <= 127 && -128 <= self.1 + rhs.1 <= 127),
    {
        let (x, x_overflowed): (i8, bool) = overflow_i8(self.0, rhs.0);
        let (y, y_overflowed): (i8, bool) = overflow_i8(self.1, rhs.1);
        (Self(x, y), x_overflowed || y_overflowed)
    }
}

fn saturate_i8(a: i8, b: i8) -> (r: i8)
    ensures
        r == clamp_i8(a + b),
{
    let s: i16 = a as i16 + b as i16;
    if s > 127 {
        127
    } else if s < -128 {
        -128
    } else {
        s as i8
    }
}

fn saturate_i8_diff(a: i8, b: i8) -> (r: i8)
    ensures
        r == clamp_i8(a - b),
{
    let s: i16 = a as i16 - b as i16;
    if s > 127 {
        127
    } else if s < -128 {
        -128
    } else {
        s as i8
    }
}

fn overflow_i8(a: i8, b: i8) -> (r: (i8, bool))
    ensures
        r.0 == wrap_i8(a + b),
        r.1 == !(-128 <= a + b <= 127),
{
    let s: i16 = a as i16 + b as i16;
    if s > 127 {
        ((s - 256) as i8, true)
    } else if s < -128 {
        ((s + 256) as i8, true)
    } else {
        (s as i8, false)
    }
}

impl Default for Coordinate {
    /// The origin, at the logical center of the board.
    fn default() -> (r: Self)
        ensures
            r == Coordinate(0i8, 0i8),
    {
        Coordinate(0, 0)
    }
}

impl From<Coordinate> for GridIndex {
    fn from(value: Coordinate) -> (r: Self) {
        let col: u8 = (value.0 as i16 + 128) as u8;
        let row: u8 = (127 - value.1 as i16) as u8;
        GridIndex(col, row)
    }
}

impl vstd::std_specs::convert::FromSpecImpl<Coordinate> for GridIndex {
    open spec fn obeys_from_spec() -> bool {
        true
    }

    open spec fn from_spec(v: Coordinate) -> Self {
        index_of(v)
    }
}

impl From<GridIndex> for Coordinate {
    fn from(value: GridIndex) -> (r: Self) {
        let x: i8 = (value.0 as i16 - 128) as i8;
        let y: i8 = (127 - value.1 as i16) as i8;
        Coordinate(x, y)
    }
}

impl vstd::std_specs::convert::FromSpecImpl<GridIndex> for Coordinate {
    open spec fn obeys_from_spec() -> bool {
        true
    }

    open spec fn from_spec(v: GridIndex) -> Self {
        coordinate_of(v)
    }
}

/// The two coordinate transforms are total mutual inverses: converting a
/// coordinate to its storage index and back yields the same coordinate, and
/// likewise starting from a storage index.
pub proof fn lemma_conversion_round_trip(c: Coordinate, i: GridIndex)
    ensures
        coordinate_of(index_of(c)) == c,
        index_of(coordinate_of(i)) == i,
{
}

} // verus!
