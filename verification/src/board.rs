//! The pieces of the game and the board they stand on.

use crate::hex::{Coordinates, Direction};
use vstd::prelude::*;

verus! {

/// The two sides.
#[derive(Debug, Copy, Clone, PartialEq, Eq, Structural)]
pub enum Color {
    White,
    Black,
}

impl Color {
    /// The other side.
    pub open spec fn spec_opposite(self) -> Color {
        match self {
            Color::White => Color::Black,
            Color::Black => Color::White,
        }
    }

    /// Position of the side in per-side arrays: white first, black second.
    pub open spec fn spec_index(self) -> int {
        match self {
            Color::White => 0,
            Color::Black => 1,
        }
    }

    /// The other side.
    pub fn opposite(&self) -> (r: Color)
        ensures
            r == self.spec_opposite(),
    {
        match self {
            Color::White => Color::Black,
            Color::Black => Color::White,
        }
    }

    /// Position of the side in per-side arrays: white first, black second.
    pub fn index(&self) -> (r: usize)
        ensures
            r == self.spec_index(),
    {
        match self {
            Color::White => 0,
            Color::Black => 1,
        }
    }
}

/// The kinds of token a side commands.
#[derive(Debug, Copy, Clone, PartialEq, Eq, Hash, Structural)]
pub enum Token {
    Daimyo,
    Scout,
    Hammer,
    Hook,
    Wave,
    Hand,
    Bomb,
}

/// Anything that can occupy a cell.
#[derive(Debug, Copy, Clone, PartialEq, Eq, Structural)]
pub enum Piece {
    GoodRock,
    GoodRock2,
    BadRock,
    Token(Color, Token),
}

/// The content of one cell.
#[derive(Debug, Copy, Clone, PartialEq, Eq, Structural)]
pub enum Space {
    Empty,
    Occupied(Piece),
}

/// Whether `(q, r)` with `s = -q - r` is one of the 91 cells of the hexagon.
pub open spec fn on_hexagon(q: int, r: int) -> bool {
    -5 <= q <= 5 && -5 <= r <= 5 && -5 <= -q - r <= 5
}

/// Row-major order of cells: by `q`, then by `r`.
pub open spec fn scans_before(a: Coordinates, b: Coordinates) -> bool {
    a.0 < b.0 || (a.0 == b.0 && a.1 < b.1)
}

/// Whether a token of `color` stands on a cell with this content.
pub open spec fn holds_color(space: Space, color: Color) -> bool {
    space matches Space::Occupied(Piece::Token(c, _)) && c == color
}

/// The grid cell that the first two coordinates of `c` name.
pub open spec fn key(c: Coordinates) -> (int, int) {
    (c.0 as int, c.1 as int)
}

/// An eleven by eleven grid indexed by `(q + 5, r + 5)`; the cells with
/// `q + r + s == 0` and all coordinates in `-5 ..= 5` form the board.
#[derive(Clone, Copy)]
pub struct Board {
    pub spaces: [[Space; 11]; 11],
}

impl Board {
    /// The content of the grid cell `(q, r)`.
    pub open spec fn at(&self, q: int, r: int) -> Space {
        self.spaces@[q + 5]@[r + 5]
    }

    /// The board as a map from grid cells to their contents.
    pub open spec fn grid(&self) -> Map<(int, int), Space> {
        Map::new(
            |p: (int, int)| -5 <= p.0 <= 5 && -5 <= p.1 <= 5,
            |p: (int, int)| self.at(p.0, p.1),
        )
    }

    /// The content of the grid cell named by the first two coordinates.
    pub open spec fn space(&self, coord: Coordinates) -> Space {
        self.at(coord.0 as int, coord.1 as int)
    }

    /// Whether `other` equals `self` on every grid cell but `coord`.
    pub open spec fn same_except(&self, other: &Board, coord: Coordinates) -> bool {
        forall|q: int, r: int|
            -5 <= q <= 5 && -5 <= r <= 5 && !(q == coord.0 && r == coord.1) ==> #[trigger] other.at(
                q,
                r,
            ) == self.at(q, r)
    }

    /// Whether `other` equals `self` on every grid cell but `a` and `b`.
    pub open spec fn same_except_two(&self, other: &Board, a: Coordinates, b: Coordinates) -> bool {
        forall|q: int, r: int|
            -5 <= q <= 5 && -5 <= r <= 5 && !(q == a.0 && r == a.1) && !(q == b.0 && r == b.1)
                ==> #[trigger] other.at(q, r) == self.at(q, r)
    }

    /// The cell through which a side deploys.
    pub open spec fn spec_gate_coords(color: Color) -> Coordinates {
        match color {
            Color::Black => Coordinates(2i8, -4i8, 2i8),
            Color::White => Coordinates(-2i8, 4i8, -2i8),
        }
    }

    /// Whether `piece` stands nowhere on the hexagon.
    pub open spec fn lacks(&self, piece: Piece) -> bool {
        forall|q: int, r: int| on_hexagon(q, r) ==> #[trigger] self.at(q, r) != Space::Occupied(piece)
    }

    /// Whether `c` is the first cell of the hexagon, in scan order, that
    /// holds `piece`.
    pub open spec fn first_holding(&self, piece: Piece, c: Coordinates) -> bool {
        &&& on_hexagon(c.0 as int, c.1 as int)
        &&& c.2 == -c.0 - c.1
        &&& self.space(c) == Space::Occupied(piece)
        &&& forall|q: int, r: int|
            on_hexagon(q, r) && (q < c.0 || (q == c.0 && r < c.1)) ==> #[trigger] self.at(q, r)
                != Space::Occupied(piece)
    }

    /// The starting position: the bad rock in the centre, a good rock on
    /// either flank, and the two daimyos facing each other.
    pub open spec fn is_initial(&self) -> bool {
        forall|q: int, r: int|
            -5 <= q <= 5 && -5 <= r <= 5 ==> #[trigger] self.at(q, r) == if q == 0 && r == 0 {
                Space::Occupied(Piece::BadRock)
            } else if q == -4 && r == 0 {
                Space::Occupied(Piece::GoodRock)
            } else if q == 4 && r == 0 {
                Space::Occupied(Piece::GoodRock2)
            } else if q == -1 && r == 2 {
                Space::Occupied(Piece::Token(Color::White, Token::Daimyo))
            } else if q == 1 && r == -2 {
                Space::Occupied(Piece::Token(Color::Black, Token::Daimyo))
            } else {
                Space::Empty
            }
    }

    /// The board as it stands when a game begins.
    pub fn new() -> (board: Board)
        ensures
            board.is_initial(),
    {
        let mut board = Board { spaces: [[Space::Empty;11];11] };
        board.set_space(Coordinates(0, 0, 0), Space::Occupied(Piece::BadRock));
        board.set_space(Coordinates(-4, 0, 4), Space::Occupied(Piece::GoodRock));
        board.set_space(Coordinates(4, 0, -4), Space::Occupied(Piece::GoodRock2));
        board.set_space(
            Coordinates(-1, 2, -1),
            Space::Occupied(Piece::Token(Color::White, Token::Daimyo)),
        );
        board.set_space(
            Coordinates(1, -2, 1),
            Space::Occupied(Piece::Token(Color::Black, Token::Daimyo)),
        );
        board
    }

    /// What stands on the grid cell that the first two coordinates name.
    pub fn get_space(&self, coord: Coordinates) -> (space: Space)
        requires
            coord.in_grid(),
        ensures
            space == self.space(coord),
    {
        self.spaces[(coord.0 + 5) as usize][(coord.1 + 5) as usize]
    }

    /// Puts `space` on the grid cell that the first two coordinates name.
    pub fn set_space(&mut self, coord: Coordinates, space: Space)
        requires
            coord.in_grid(),
        ensures
            final(self).space(coord) == space,
            old(self).same_except(final(self), coord),
            final(self).grid() == old(self).grid().insert(key(coord), space),
    {
        let i = (coord.0 + 5) as usize;
        let j = (coord.1 + 5) as usize;
        self.spaces[i][j] = space;
        assert(self.grid() =~= old(self).grid().insert(key(coord), space));
    }

    /// Lifts whatever stands on `target` and puts it on `destination`,
    /// leaving `target` empty.
    pub fn move_to(&mut self, target: Coordinates, destination: Coordinates)
        requires
            target.in_grid(),
            destination.in_grid(),
        ensures
            final(self).space(target) == Space::Empty,
            !(destination.0 == target.0 && destination.1 == target.1) ==> final(self).space(
                destination,
            ) == old(self).space(target),
            old(self).same_except_two(final(self), target, destination),
            final(self).grid() == old(self).grid().insert(
                key(destination),
                old(self).space(target),
            ).insert(key(target), Space::Empty),
    {
        let moved = self.get_space(target);
        self.set_space(destination, moved);
        self.set_space(target, Space::Empty);
    }

    /// Moves the first `piece` in scan order one step in `direction`.
    pub fn move_piece(&mut self, piece: Piece, direction: Direction)
        requires
            !old(self).lacks(piece),
            forall|c: Coordinates| #[trigger]
                old(self).first_holding(piece, c) ==> c.spec_step(direction).in_grid(),
        ensures
            forall|c: Coordinates| #[trigger]
                old(self).first_holding(piece, c) ==> {
                    &&& final(self).space(c) == Space::Empty
                    &&& final(self).space(c.spec_step(direction)) == Space::Occupied(piece)
                    &&& old(self).same_except_two(final(self), c, c.spec_step(direction))
                    &&& final(self).grid() == old(self).grid().insert(
                        key(c.spec_step(direction)),
                        Space::Occupied(piece),
                    ).insert(key(c), Space::Empty)
                },
    {
        match self.find(piece) {
            Some(coordinates) => {
                proof {
                    old(self).lemma_first_holding_unique(piece, coordinates);
                }
                self.move_to(coordinates, coordinates.step(direction));
            },
            None => {},
        }
    }

    /// A piece that stands on the hexagon stands on a first cell.
    pub proof fn lemma_first_exists(&self, piece: Piece)
        requires
            !self.lacks(piece),
        ensures
            exists|c: Coordinates| self.first_holding(piece, c),
    {
        let (q, r) = choose|q: int, r: int|
            on_hexagon(q, r) && self.at(q, r) == Space::Occupied(piece);
        self.lemma_first_upto(piece, q, r);
    }

    /// A piece that stands on a cell stands on a first cell, which is that
    /// cell or an earlier one.
    proof fn lemma_first_upto(&self, piece: Piece, q: int, r: int)
        requires
            on_hexagon(q, r),
            self.at(q, r) == Space::Occupied(piece),
        ensures
            exists|c: Coordinates| self.first_holding(piece, c),
        decreases (q + 5) * 11 + (r + 5),
    {
        if exists|a: int, b: int|
            on_hexagon(a, b) && (a < q || (a == q && b < r)) && self.at(a, b) == Space::Occupied(
                piece,
            ) {
            let (a, b) = choose|a: int, b: int|
                on_hexagon(a, b) && (a < q || (a == q && b < r)) && self.at(a, b)
                    == Space::Occupied(piece);
            self.lemma_first_upto(piece, a, b);
        } else {
            let c = Coordinates(q as i8, r as i8, (-q - r) as i8);
            assert(self.first_holding(piece, c));
        }
    }

    /// Any two cells that are both the first to hold `piece` are one cell.
    pub proof fn lemma_first_holding_unique(&self, piece: Piece, c: Coordinates)
        requires
            self.first_holding(piece, c),
        ensures
            forall|d: Coordinates| #[trigger] self.first_holding(piece, d) ==> d == c,
    {
        assert forall|d: Coordinates| #[trigger] self.first_holding(piece, d) implies d == c by {
            if d.0 < c.0 || (d.0 == c.0 && d.1 < c.1) {
                assert(self.at(d.0 as int, d.1 as int) != Space::Occupied(piece));
            }
            if c.0 < d.0 || (c.0 == d.0 && c.1 < d.1) {
                assert(self.at(c.0 as int, c.1 as int) != Space::Occupied(piece));
            }
        }
    }

    /// The cell through which `color` deploys.
    pub fn gate_coords(&self, color: Color) -> (r: Coordinates)
        ensures
            r == Board::spec_gate_coords(color),
    {
        match color {
            Color::Black => Coordinates(2, -4, 2),
            Color::White => Coordinates(-2, 4, -2),
        }
    }

    /// Whether nothing stands where `color` deploys.
    pub fn gate_is_empty(&self, color: Color) -> (r: bool)
        ensures
            r == (self.space(Board::spec_gate_coords(color)) == Space::Empty),
    {
        let coordinates = self.gate_coords(color);
        self.get_space(coordinates) == Space::Empty
    }

    /// Puts a token of `color` on that side's gate, which must be free.
    pub fn deploy(&mut self, color: Color, token: Token)
        requires
            old(self).space(Board::spec_gate_coords(color)) == Space::Empty,
        ensures
            final(self).space(Board::spec_gate_coords(color)) == Space::Occupied(
                Piece::Token(color, token),
            ),
            old(self).same_except(final(self), Board::spec_gate_coords(color)),
            final(self).grid() == old(self).grid().insert(
                key(Board::spec_gate_coords(color)),
                Space::Occupied(Piece::Token(color, token)),
            ),
    {
        let gate = self.gate_coords(color);
        self.set_space(gate, Space::Occupied(Piece::Token(color, token)));
    }

    /// The first cell of the hexagon, in scan order, on which `piece` stands.
    pub fn find(&self, piece: Piece) -> (r: Option<Coordinates>)
        ensures
            r is None <==> self.lacks(piece),
            r matches Some(c) ==> self.first_holding(piece, c),
    {
        let mut q: i8 = -5;
        while q <= 5
            invariant
                -5 <= q <= 6,
                forall|a: int, b: int|
                    on_hexagon(a, b) && a < q ==> self.at(a, b) != Space::Occupied(piece),
            decreases 6 - q,
        {
            let r_min: i8 = if -5 - q > -5 {
                -5 - q
            } else {
                -5
            };
            let r_max: i8 = if 5 - q < 5 {
                5 - q
            } else {
                5
            };
            let mut r: i8 = r_min;
            while r <= r_max
                invariant
                    -5 <= q <= 5,
                    -5 <= r_min <= r <= r_max + 1 <= 6,
                    r_min == if -5 - q > -5 {
                        -5 - q
                    } else {
                        -5int
                    },
                    r_max == if 5 - q < 5 {
                        5 - q
                    } else {
                        5int
                    },
                    forall|a: int, b: int|
                        on_hexagon(a, b) && (a < q || (a == q && b < r)) ==> self.at(a, b)
                            != Space::Occupied(piece),
                decreases r_max + 1 - r,
            {
                let s: i8 = -q - r;
                match self.get_space(Coordinates(q, r, s)) {
                    Space::Occupied(piece_on_space) => {
                        if piece == piece_on_space {
                            assert(on_hexagon(q as int, r as int) && self.at(q as int, r as int)
                                == Space::Occupied(piece));
                            return Some(Coordinates(q, r, s));
                        }
                    },
                    Space::Empty => {},
                }
                r += 1;
            }
            q += 1;
        }
        None
    }

    /// Every token of `target_color` on the hexagon with its cell, in scan
    /// order.
    pub fn find_all_of_color(&self, target_color: Color) -> (found: Vec<(Token, Coordinates)>)
        ensures
            forall|i: int|
                0 <= i < found.len() ==> {
                    let (token, c) = #[trigger] found[i];
                    &&& on_hexagon(c.0 as int, c.1 as int)
                    &&& c.2 == -c.0 - c.1
                    &&& self.space(c) == Space::Occupied(Piece::Token(target_color, token))
                },
            forall|q: int, r: int|
                on_hexagon(q, r) && holds_color(#[trigger] self.at(q, r), target_color)
                    ==> exists|i: int|
                    0 <= i < found.len() && (#[trigger] found[i]).1.0 == q && found[i].1.1 == r,
            forall|i: int, j: int|
                0 <= i < j < found.len() ==> scans_before(
                    (#[trigger] found[i]).1,
                    (#[trigger] found[j]).1,
                ),
    {
        let mut found: Vec<(Token, Coordinates)> = Vec::new();
        let mut q: i8 = -5;
        while q <= 5
            invariant
                -5 <= q <= 6,
                forall|i: int|
                    0 <= i < found.len() ==> {
                        let (token, c) = #[trigger] found[i];
                        &&& on_hexagon(c.0 as int, c.1 as int)
                        &&& c.2 == -c.0 - c.1
                        &&& self.space(c) == Space::Occupied(Piece::Token(target_color, token))
                        &&& c.0 < q
                    },
                forall|a: int, b: int|
                    on_hexagon(a, b) && a < q && holds_color(#[trigger] self.at(a, b), target_color)
                        ==> exists|i: int|
                        0 <= i < found.len() && (#[trigger] found[i]).1.0 == a && found[i].1.1
                            == b,
                forall|i: int, j: int|
                    0 <= i < j < found.len() ==> scans_before(
                        (#[trigger] found[i]).1,
                        (#[trigger] found[j]).1,
                    ),
            decreases 6 - q,
        {
            let r_min: i8 = if -5 - q > -5 {
                -5 - q
            } else {
                -5
            };
            let r_max: i8 = if 5 - q < 5 {
                5 - q
            } else {
                5
            };
            let mut r: i8 = r_min;
            while r <= r_max
                invariant
                    -5 <= q <= 5,
                    -5 <= r_min <= r <= r_max + 1 <= 6,
                    r_min == if -5 - q > -5 {
                        -5 - q
                    } else {
                        -5int
                    },
                    r_max == if 5 - q < 5 {
                        5 - q
                    } else {
                        5int
                    },
                    forall|i: int|
                        0 <= i < found.len() ==> {
                            let (token, c) = #[trigger] found[i];
                            &&& on_hexagon(c.0 as int, c.1 as int)
                            &&& c.2 == -c.0 - c.1
                            &&& self.space(c) == Space::Occupied(
                                Piece::Token(target_color, token),
                            )
                            &&& (c.0 < q || (c.0 == q && c.1 < r))
                        },
                    forall|a: int, b: int|
                        on_hexagon(a, b) && (a < q || (a == q && b < r)) && holds_color(
                            #[trigger] self.at(a, b),
                            target_color,
                        ) ==> exists|i: int|
                            0 <= i < found.len() && (#[trigger] found[i]).1.0 == a
                                && found[i].1.1 == b,
                    forall|i: int, j: int|
                        0 <= i < j < found.len() ==> scans_before(
                            (#[trigger] found[i]).1,
                            (#[trigger] found[j]).1,
                        ),
                decreases r_max + 1 - r,
            {
                let s: i8 = -q - r;
                let ghost before = found@;
                match self.get_space(Coordinates(q, r, s)) {
                    Space::Occupied(Piece::Token(color, token)) => {
                        if color == target_color {
                            found.push((token, Coordinates(q, r, s)));
                            assert(found[before.len() as int] == (token, Coordinates(q, r, s)));
                        }
                    },
                    _ => {},
                }
                assert(forall|i: int| 0 <= i < before.len() ==> found[i] == before[i]);
                assert forall|a: int, b: int|
                    on_hexagon(a, b) && (a < q || (a == q && b < r + 1)) && holds_color(
                        #[trigger] self.at(a, b),
                        target_color,
                    ) implies exists|i: int|
                    0 <= i < found.len() && (#[trigger] found[i]).1.0 == a && found[i].1.1
                        == b by {
                    if a == q && b == r {
                        assert(found[before.len() as int].1.0 == a);
                    } else {
                        let i = choose|i: int|
                            0 <= i < before.len() && (#[trigger] before[i]).1.0 == a
                                && before[i].1.1 == b;
                        assert(found[i] == before[i]);
                    }
                }
                r += 1;
            }
            q += 1;
        }
        found
    }

    /// Whether a cell lies in the two home rows of `color`.
    pub fn is_in_village(&self, coordinates: Coordinates, color: Color) -> (r: bool)
        ensures
            r == match color {
                Color::Black => coordinates.1 <= -4,
                Color::White => coordinates.1 >= 4,
            },
    {
        match color {
            Color::Black => coordinates.1 <= -4,
            Color::White => coordinates.1 >= 4,
        }
    }

    /// Whether nothing stands on the cell.
    pub fn is_empty(&self, coordinates: Coordinates) -> (r: bool)
        requires
            coordinates.in_grid(),
        ensures
            r == (self.space(coordinates) == Space::Empty),
    {
        match self.get_space(coordinates) {
            Space::Empty => true,
            _ => false,
        }
    }

    /// Exchanges the contents of two cells.
    pub fn swap(&mut self, target: Coordinates, destination: Coordinates)
        requires
            target.in_grid(),
            destination.in_grid(),
        ensures
            final(self).space(target) == old(self).space(destination),
            final(self).space(destination) == old(self).space(target),
            old(self).same_except_two(final(self), target, destination),
            final(self).grid() == old(self).grid().insert(
                key(destination),
                old(self).space(target),
            ).insert(key(target), old(self).space(destination)),
    {
        let destination_contents = self.get_space(destination);
        let target_contents = self.get_space(target);
        self.set_space(destination, target_contents);
        self.set_space(target, destination_contents);
    }
}

} // verus!
