//! Cube coordinates on a hexagonal board of radius five, and the six
//! directions in which a piece can step.

use vstd::prelude::*;

verus! {

/// One of the six neighbours of a hexagonal cell.
#[derive(Debug, Copy, Clone, PartialEq, Eq, Hash, Structural)]
pub enum Direction {
    Left,
    UpLeft,
    UpRight,
    Right,
    DownRight,
    DownLeft,
}

impl Direction {
    /// The direction that undoes a step in `self`.
    pub open spec fn spec_opposite(self) -> Direction {
        match self {
            Direction::Left => Direction::Right,
            Direction::UpLeft => Direction::DownRight,
            Direction::UpRight => Direction::DownLeft,
            Direction::Right => Direction::Left,
            Direction::DownRight => Direction::UpLeft,
            Direction::DownLeft => Direction::UpRight,
        }
    }

    /// Change of the `q` coordinate made by one step.
    pub open spec fn dq(self) -> int {
        match self {
            Direction::Left | Direction::DownLeft => -1,
            Direction::UpLeft | Direction::DownRight => 0,
            Direction::UpRight | Direction::Right => 1,
        }
    }

    /// Change of the `r` coordinate made by one step.
    pub open spec fn dr(self) -> int {
        match self {
            Direction::Left | Direction::Right => 0,
            Direction::UpLeft | Direction::UpRight => -1,
            Direction::DownRight | Direction::DownLeft => 1,
        }
    }

    /// Change of the `s` coordinate made by one step.
    pub open spec fn ds(self) -> int {
        match self {
            Direction::Left | Direction::UpLeft => 1,
            Direction::UpRight | Direction::DownLeft => 0,
            Direction::Right | Direction::DownRight => -1,
        }
    }

    /// Position of the direction in the fixed order in which directions are
    /// enumerated.
    pub open spec fn ordinal(self) -> int {
        match self {
            Direction::Left => 0,
            Direction::UpLeft => 1,
            Direction::UpRight => 2,
            Direction::Right => 3,
            Direction::DownRight => 4,
            Direction::DownLeft => 5,
        }
    }

    /// The six directions in enumeration order.
    pub open spec fn spec_all() -> Seq<Direction> {
        seq![
            Direction::Left,
            Direction::UpLeft,
            Direction::UpRight,
            Direction::Right,
            Direction::DownRight,
            Direction::DownLeft,
        ]
    }

    /// The direction that undoes a step in `self`.
    pub fn opposite(&self) -> (r: Direction)
        ensures
            r == self.spec_opposite(),
    {
        match self {
            Direction::Left => Direction::Right,
            Direction::UpLeft => Direction::DownRight,
            Direction::UpRight => Direction::DownLeft,
            Direction::Right => Direction::Left,
            Direction::DownRight => Direction::UpLeft,
            Direction::DownLeft => Direction::UpRight,
        }
    }

    /// All six directions, each once, in enumeration order.
    pub fn all() -> (r: [Direction; 6])
        ensures
            r@ == Direction::spec_all(),
    {
        let r = [
            Direction::Left,
            Direction::UpLeft,
            Direction::UpRight,
            Direction::Right,
            Direction::DownRight,
            Direction::DownLeft,
        ];
        assert(r@ =~= Direction::spec_all());
        r
    }
}

/// Stepping there and back again is standing still, and the three cube
/// deltas of a step cancel.
pub proof fn lemma_opposite(d: Direction)
    ensures
        d.spec_opposite().spec_opposite() == d,
        d.spec_opposite().dq() == -d.dq(),
        d.spec_opposite().dr() == -d.dr(),
        d.spec_opposite().ds() == -d.ds(),
        d.dq() + d.dr() + d.ds() == 0,
{
}

/// A cell in cube coordinates `(q, r, s)`; on the board `q + r + s == 0`.
#[derive(Debug, Copy, Clone, PartialEq, Eq, Hash, Structural)]
pub struct Coordinates(pub i8, pub i8, pub i8);

impl Coordinates {
    /// Whether any of the three coordinates leaves `-5 ..= 5`.
    pub open spec fn spec_is_off_board(self) -> bool {
        self.0 < -5 || self.0 > 5 || self.1 < -5 || self.1 > 5 || self.2 < -5 || self.2 > 5
    }

    /// Whether the first two coordinates index a stored cell.
    pub open spec fn in_grid(self) -> bool {
        -5 <= self.0 <= 5 && -5 <= self.1 <= 5
    }

    /// Whether a step in any direction stays within `i8`.
    pub open spec fn can_step(self) -> bool {
        &&& -128 < self.0 < 127
        &&& -128 < self.1 < 127
        &&& -128 < self.2 < 127
    }

    /// The neighbouring cell in direction `d`.
    pub open spec fn spec_step(self, d: Direction) -> Coordinates {
        Coordinates(
            (self.0 + d.dq()) as i8,
            (self.1 + d.dr()) as i8,
            (self.2 + d.ds()) as i8,
        )
    }

    /// Whether `steps` steps in any direction stay within `i8`.
    pub open spec fn can_leap(self, steps: int) -> bool {
        &&& -128 + steps <= self.0 <= 127 - steps
        &&& -128 + steps <= self.1 <= 127 - steps
        &&& -128 + steps <= self.2 <= 127 - steps
    }

    /// Whether any of the three coordinates leaves `-5 ..= 5`.
    pub fn is_off_board(&self) -> (r: bool)
        ensures
            r == self.spec_is_off_board(),
    {
        self.0 < -5 || self.0 > 5 || self.1 < -5 || self.1 > 5 || self.2 < -5 || self.2 > 5
    }

    /// The neighbouring cell in direction `d`.
    pub fn step(self, d: Direction) -> (r: Coordinates)
        requires
            self.can_step(),
        ensures
            r == self.spec_step(d),
            r.0 == self.0 + d.dq(),
            r.1 == self.1 + d.dr(),
            r.2 == self.2 + d.ds(),
    {
        let Coordinates(q, r, s) = self;
        match d {
            Direction::Left => Coordinates(q - 1, r, s + 1),
            Direction::UpLeft => Coordinates(q, r - 1, s + 1),
            Direction::UpRight => Coordinates(q + 1, r - 1, s),
            Direction::Right => Coordinates(q + 1, r, s - 1),
            Direction::DownRight => Coordinates(q, r + 1, s - 1),
            Direction::DownLeft => Coordinates(q - 1, r + 1, s),
        }
    }
}

impl core::ops::Add<Coordinates> for Coordinates {
    type Output = Coordinates;

    /// Component-wise sum of two coordinate triples.
    fn add(self, rhs: Coordinates) -> (sum: Coordinates) {
        Coordinates(self.0 + rhs.0, self.1 + rhs.1, self.2 + rhs.2)
    }
}

impl vstd::std_specs::ops::AddSpecImpl<Coordinates> for Coordinates {
    open spec fn obeys_add_spec() -> bool {
        true
    }

    open spec fn add_req(self, rhs: Coordinates) -> bool {
        &&& i8::MIN <= self.0 + rhs.0 <= i8::MAX
        &&& i8::MIN <= self.1 + rhs.1 <= i8::MAX
        &&& i8::MIN <= self.2 + rhs.2 <= i8::MAX
    }

    open spec fn add_spec(self, rhs: Coordinates) -> Coordinates {
        Coordinates((self.0 + rhs.0) as i8, (self.1 + rhs.1) as i8, (self.2 + rhs.2) as i8)
    }
}

impl core::ops::Add<Direction> for Coordinates {
    type Output = Coordinates;

    /// The neighbouring cell in direction `rhs`.
    fn add(self, rhs: Direction) -> (neighbour: Coordinates) {
        self.step(rhs)
    }
}

impl vstd::std_specs::ops::AddSpecImpl<Direction> for Coordinates {
    open spec fn obeys_add_spec() -> bool {
        true
    }

    open spec fn add_req(self, rhs: Direction) -> bool {
        self.can_step()
    }

    open spec fn add_spec(self, rhs: Direction) -> Coordinates {
        self.spec_step(rhs)
    }
}

/// The cell `steps` steps from `from` in direction `d`.
pub open spec fn leap(from: Coordinates, d: Direction, steps: int) -> Coordinates {
    Coordinates(
        (from.0 + steps * d.dq()) as i8,
        (from.1 + steps * d.dr()) as i8,
        (from.2 + steps * d.ds()) as i8,
    )
}

} // verus!
