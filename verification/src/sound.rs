//! Proofs about the model of the board game: what the moves leave alone,
//! and that every allowed move keeps a position sound.

use crate::board::{key, on_hexagon, Board, Color, Piece, Space, Token};
use crate::choice::{Ability, Choice};
use crate::hex::{leap, Coordinates, Direction};
use crate::position::{
    ability_fits, exchange, first_cell, holds_first, is_cube, on_cell, pieces_but, rank, reach,
    relocate, same_pieces, slide, stands, tidy, without, Position,
};
use vstd::prelude::*;

verus! {

/// An item is in a list with one more item exactly if it is in the list or
/// is that item.
pub proof fn lemma_push_contains<T>(list: Seq<T>, last: T, item: T)
    ensures
        list.push(last).contains(item) <==> list.contains(item) || item == last,
{
    let longer = list.push(last);
    if longer.contains(item) {
        let i = choose|i: int| 0 <= i < longer.len() && longer[i] == item;
        if i < list.len() {
            assert(list[i] == item);
        }
    }
    if list.contains(item) {
        let i = choose|i: int| 0 <= i < list.len() && list[i] == item;
        assert(longer[i] == item);
    }
    if item == last {
        assert(longer[list.len() as int] == item);
    }
}

/// A token is in the list without `token` exactly if it is in the list and
/// is not `token`.
pub proof fn lemma_without(list: Seq<Token>, token: Token)
    ensures
        forall|t: Token| #[trigger] without(list, token).contains(t) <==> list.contains(t) && t != token,
    decreases list.len(),
{
    if list.len() > 0 {
        let shorter = list.drop_last();
        lemma_without(shorter, token);
        assert(list =~= shorter.push(list.last()));
        assert forall|t: Token| #[trigger] without(list, token).contains(t) <==> list.contains(t)
            && t != token by {
            lemma_push_contains(shorter, list.last(), t);
            lemma_push_contains(without(shorter, token), list.last(), t);
            assert(without(shorter, token).contains(t) <==> shorter.contains(t) && t != token);
        }
    }
}

/// The first cell that holds a piece on a board is the first that holds it
/// in the map of the board.
pub proof fn lemma_first_cell(board: &Board, piece: Piece, c: Coordinates)
    requires
        board.first_holding(piece, c),
    ensures
        holds_first(board.grid(), piece, c),
        first_cell(board.grid(), piece) == c,
        stands(board.grid(), piece),
{
    let grid = board.grid();
    assert forall|q: int, r: int|
        on_hexagon(q, r) && (q < c.0 || (q == c.0 && r < c.1)) implies #[trigger] grid[(q, r)]
        != Space::Occupied(piece) by {
        assert(board.at(q, r) != Space::Occupied(piece));
    }
    assert(grid[(c.0 as int, c.1 as int)] == Space::Occupied(piece));
    assert(holds_first(grid, piece, c));
    let other = first_cell(grid, piece);
    assert(holds_first(grid, piece, other));
    if other.0 < c.0 || (other.0 == c.0 && other.1 < c.1) {
        assert(grid[(other.0 as int, other.1 as int)] != Space::Occupied(piece));
    }
    if c.0 < other.0 || (c.0 == other.0 && c.1 < other.1) {
        assert(grid[(c.0 as int, c.1 as int)] != Space::Occupied(piece));
    }
}

/// A piece that stands on the hexagon has a first cell.
pub proof fn lemma_stands(board: &Board, piece: Piece)
    ensures
        stands(board.grid(), piece) <==> !board.lacks(piece),
{
    let grid = board.grid();
    if stands(grid, piece) {
        let (q, r) = choose|q: int, r: int|
            on_hexagon(q, r) && #[trigger] grid[(q, r)] == Space::Occupied(piece);
        assert(board.at(q, r) == Space::Occupied(piece));
    }
    if !board.lacks(piece) {
        let (q, r) = choose|q: int, r: int|
            on_hexagon(q, r) && board.at(q, r) == Space::Occupied(piece);
        assert(grid[(q, r)] == Space::Occupied(piece));
    }
}

/// In a sound position, the cell on which a token stands is the first cell
/// that holds it.
pub proof fn lemma_unit_is_first(position: Position, color: Color, token: Token, c: Coordinates)
    requires
        position.sound(),
        position.unit(color, token, c),
    ensures
        holds_first(position.grid, Piece::Token(color, token), c),
        first_cell(position.grid, Piece::Token(color, token)) == c,
{
    let piece = Piece::Token(color, token);
    let grid = position.grid;
    assert(grid[(c.0 as int, c.1 as int)] == Space::Occupied(piece));
    assert forall|q: int, r: int|
        on_hexagon(q, r) && (q < c.0 || (q == c.0 && r < c.1)) implies #[trigger] grid[(q, r)]
        != Space::Occupied(piece) by {
        if grid[(q, r)] == Space::Occupied(piece) {
            assert(grid[(q, r)] == grid[(c.0 as int, c.1 as int)]);
        }
    }
    assert(holds_first(grid, piece, c));
    let other = first_cell(grid, piece);
    assert(holds_first(grid, piece, other));
    assert(grid[(other.0 as int, other.1 as int)] == grid[(c.0 as int, c.1 as int)]);
}

/// A push changes nothing behind the piece that is pushed.
pub proof fn lemma_slide_frame(
    grid: Map<(int, int), Space>,
    from: Coordinates,
    direction: Direction,
    distance: nat,
)
    requires
        !from.spec_is_off_board(),
    ensures
        forall|cell: (int, int)|
            rank(cell, direction) < rank(key(from), direction) ==> #[trigger] slide(
                grid,
                from,
                direction,
                distance,
            ).grid[cell] == grid[cell],
    decreases distance,
{
    let next = from.spec_step(direction);
    if distance > 0 && !next.spec_is_off_board() && grid[key(next)] == Space::Empty {
        let moved = grid.insert(key(next), grid[key(from)]).insert(key(from), Space::Empty);
        lemma_slide_frame(moved, next, direction, (distance - 1) as nat);
    }
}

/// Pushing a row changes nothing behind its first piece.
pub proof fn lemma_cascade_frame(
    position: Position,
    target: Coordinates,
    direction: Direction,
    distance: nat,
)
    ensures
        forall|cell: (int, int)|
            rank(cell, direction) < rank(key(target), direction) ==> #[trigger] position.cascaded(
                target,
                direction,
                distance,
            ).grid[cell] == position.grid[cell],
    decreases reach(target, direction),
{
    if !(target.spec_is_off_board() || !target.can_step() || position.grid[key(target)]
        == Space::Empty) {
        let next = target.spec_step(direction);
        lemma_cascade_frame(position, next, direction, distance);
        let inner = position.cascaded(next, direction, distance);
        lemma_slide_frame(inner.grid, target, direction, distance);
    }
}

/// Moving a piece to a free cell of the hexagon leaves the same pieces on
/// the board, each on one cell.
pub proof fn lemma_relocate(grid: Map<(int, int), Space>, from: Coordinates, to: Coordinates)
    requires
        tidy(grid),
        on_cell(from),
        on_cell(to),
        grid[key(to)] == Space::Empty,
    ensures
        tidy(relocate(grid, from, to)),
        same_pieces(grid, relocate(grid, from, to)),
{
    let after = relocate(grid, from, to);
    assert forall|q: int, r: int| -5 <= q <= 5 && -5 <= r <= 5 implies #[trigger] after.dom().contains(
        (q, r),
    ) by {
        assert(grid.dom().contains((q, r)));
    }
    assert forall|piece: Piece| #[trigger] stands(after, piece) <==> stands(grid, piece) by {
        if stands(after, piece) {
            let (q, r) = choose|q: int, r: int|
                on_hexagon(q, r) && #[trigger] after[(q, r)] == Space::Occupied(piece);
            if (q, r) == key(to) {
                assert(grid[key(from)] == Space::Occupied(piece));
            } else {
                assert(grid[(q, r)] == Space::Occupied(piece));
            }
        }
        if stands(grid, piece) {
            let (q, r) = choose|q: int, r: int|
                on_hexagon(q, r) && #[trigger] grid[(q, r)] == Space::Occupied(piece);
            if (q, r) == key(from) {
                assert(after[key(to)] == Space::Occupied(piece));
            } else {
                assert(after[(q, r)] == Space::Occupied(piece));
            }
        }
    }
    assert forall|q: int, r: int, x: int, y: int|
        on_hexagon(q, r) && on_hexagon(x, y) && #[trigger] after[(q, r)] == #[trigger] after[(
            x,
            y,
        )] && after[(q, r)] != Space::Empty implies q == x && r == y by {
        let a = if (q, r) == key(to) {
            key(from)
        } else {
            (q, r)
        };
        let b = if (x, y) == key(to) {
            key(from)
        } else {
            (x, y)
        };
        assert(grid[a] == after[(q, r)]);
        assert(grid[b] == after[(x, y)]);
        assert(grid[(a.0, a.1)] == grid[(b.0, b.1)]);
    }
}

/// Exchanging the contents of two cells of the hexagon leaves the same
/// pieces on the board, each on one cell.
pub proof fn lemma_exchange(grid: Map<(int, int), Space>, a: Coordinates, b: Coordinates)
    requires
        tidy(grid),
        on_cell(a),
        on_cell(b),
    ensures
        tidy(exchange(grid, a, b)),
        same_pieces(grid, exchange(grid, a, b)),
{
    let after = exchange(grid, a, b);
    assert forall|q: int, r: int| -5 <= q <= 5 && -5 <= r <= 5 implies #[trigger] after.dom().contains(
        (q, r),
    ) by {
        assert(grid.dom().contains((q, r)));
    }
    assert forall|piece: Piece| #[trigger] stands(after, piece) <==> stands(grid, piece) by {
        if stands(after, piece) {
            let (q, r) = choose|q: int, r: int|
                on_hexagon(q, r) && #[trigger] after[(q, r)] == Space::Occupied(piece);
            if (q, r) == key(a) {
                assert(grid[key(b)] == Space::Occupied(piece));
            } else if (q, r) == key(b) {
                assert(grid[key(a)] == Space::Occupied(piece));
            } else {
                assert(grid[(q, r)] == Space::Occupied(piece));
            }
        }
        if stands(grid, piece) {
            let (q, r) = choose|q: int, r: int|
                on_hexagon(q, r) && #[trigger] grid[(q, r)] == Space::Occupied(piece);
            if (q, r) == key(a) {
                assert(after[key(b)] == Space::Occupied(piece));
            } else if (q, r) == key(b) {
                assert(after[key(a)] == Space::Occupied(piece));
            } else {
                assert(after[(q, r)] == Space::Occupied(piece));
            }
        }
    }
    assert forall|q: int, r: int, x: int, y: int|
        on_hexagon(q, r) && on_hexagon(x, y) && #[trigger] after[(q, r)] == #[trigger] after[(
            x,
            y,
        )] && after[(q, r)] != Space::Empty implies q == x && r == y by {
        let c = if (q, r) == key(a) {
            key(b)
        } else if (q, r) == key(b) {
            key(a)
        } else {
            (q, r)
        };
        let d = if (x, y) == key(a) {
            key(b)
        } else if (x, y) == key(b) {
            key(a)
        } else {
            (x, y)
        };
        assert(grid[c] == after[(q, r)]);
        assert(grid[d] == after[(x, y)]);
        assert(grid[(c.0, c.1)] == grid[(d.0, d.1)]);
    }
}

/// Taking a piece off a cell of the hexagon leaves the other pieces on the
/// board, each on one cell.
pub proof fn lemma_vacate(grid: Map<(int, int), Space>, c: Coordinates, piece: Piece)
    requires
        tidy(grid),
        on_cell(c),
        grid[key(c)] == Space::Occupied(piece),
    ensures
        tidy(grid.insert(key(c), Space::Empty)),
        pieces_but(grid, grid.insert(key(c), Space::Empty), piece),
        stands(grid, piece),
{
    let after = grid.insert(key(c), Space::Empty);
    assert(grid[(c.0 as int, c.1 as int)] == Space::Occupied(piece));
    assert forall|q: int, r: int| -5 <= q <= 5 && -5 <= r <= 5 implies #[trigger] after.dom().contains(
        (q, r),
    ) by {
        assert(grid.dom().contains((q, r)));
    }
    assert forall|other: Piece| #[trigger] stands(after, other) <==> stands(grid, other) && other
        != piece by {
        if stands(after, other) {
            let (q, r) = choose|q: int, r: int|
                on_hexagon(q, r) && #[trigger] after[(q, r)] == Space::Occupied(other);
            assert(grid[(q, r)] == Space::Occupied(other));
            if other == piece {
                assert(grid[(q, r)] == grid[(c.0 as int, c.1 as int)]);
            }
        }
        if stands(grid, other) && other != piece {
            let (q, r) = choose|q: int, r: int|
                on_hexagon(q, r) && #[trigger] grid[(q, r)] == Space::Occupied(other);
            assert(after[(q, r)] == Space::Occupied(other));
        }
    }
    assert forall|q: int, r: int, x: int, y: int|
        on_hexagon(q, r) && on_hexagon(x, y) && #[trigger] after[(q, r)] == #[trigger] after[(
            x,
            y,
        )] && after[(q, r)] != Space::Empty implies q == x && r == y by {
        assert(grid[(q, r)] == after[(q, r)]);
        assert(grid[(x, y)] == after[(x, y)]);
    }
}

/// Putting a piece that stands nowhere on a free cell of the hexagon adds
/// it to the pieces on the board, each on one cell.
pub proof fn lemma_occupy(grid: Map<(int, int), Space>, c: Coordinates, piece: Piece)
    requires
        tidy(grid),
        on_cell(c),
        grid[key(c)] == Space::Empty,
        !stands(grid, piece),
    ensures
        tidy(grid.insert(key(c), Space::Occupied(piece))),
        forall|other: Piece|
            #[trigger] stands(grid.insert(key(c), Space::Occupied(piece)), other) <==> stands(
                grid,
                other,
            ) || other == piece,
{
    let after = grid.insert(key(c), Space::Occupied(piece));
    assert forall|q: int, r: int| -5 <= q <= 5 && -5 <= r <= 5 implies #[trigger] after.dom().contains(
        (q, r),
    ) by {
        assert(grid.dom().contains((q, r)));
    }
    assert forall|other: Piece| #[trigger] stands(after, other) <==> stands(grid, other) || other
        == piece by {
        if stands(after, other) && other != piece {
            let (q, r) = choose|q: int, r: int|
                on_hexagon(q, r) && #[trigger] after[(q, r)] == Space::Occupied(other);
            assert(grid[(q, r)] == Space::Occupied(other));
        }
        if stands(grid, other) {
            let (q, r) = choose|q: int, r: int|
                on_hexagon(q, r) && #[trigger] grid[(q, r)] == Space::Occupied(other);
            assert(after[(q, r)] == Space::Occupied(other));
        }
        if other == piece {
            assert(after[(c.0 as int, c.1 as int)] == Space::Occupied(piece));
        }
    }
    assert forall|q: int, r: int, x: int, y: int|
        on_hexagon(q, r) && on_hexagon(x, y) && #[trigger] after[(q, r)] == #[trigger] after[(
            x,
            y,
        )] && after[(q, r)] != Space::Empty implies q == x && r == y by {
        if (q, r) == key(c) && (x, y) != key(c) {
            assert(grid[(x, y)] == Space::Occupied(piece));
        }
        if (x, y) == key(c) && (q, r) != key(c) {
            assert(grid[(q, r)] == Space::Occupied(piece));
        }
        if (q, r) != key(c) && (x, y) != key(c) {
            assert(grid[(q, r)] == after[(q, r)]);
            assert(grid[(x, y)] == after[(x, y)]);
        }
    }
}

/// A push leaves every piece on the board, each on one cell, but for a
/// token that falls off; a rock never falls.
pub proof fn lemma_slide_pieces(
    grid: Map<(int, int), Space>,
    from: Coordinates,
    direction: Direction,
    distance: nat,
)
    requires
        tidy(grid),
        on_cell(from),
    ensures
        tidy(slide(grid, from, direction, distance).grid),
        match slide(grid, from, direction, distance).fallen {
            Some((color, token)) => pieces_but(
                grid,
                slide(grid, from, direction, distance).grid,
                Piece::Token(color, token),
            ) && stands(grid, Piece::Token(color, token)),
            None => same_pieces(grid, slide(grid, from, direction, distance).grid),
        },
    decreases distance,
{
    let next = from.spec_step(direction);
    if distance == 0 {
    } else if next.spec_is_off_board() {
        match grid[key(from)] {
            Space::Occupied(Piece::Token(color, token)) => {
                lemma_vacate(grid, from, Piece::Token(color, token));
            },
            _ => {},
        }
    } else if grid[key(next)] == Space::Empty {
        let moved = relocate(grid, from, next);
        lemma_relocate(grid, from, next);
        lemma_slide_pieces(moved, next, direction, (distance - 1) as nat);
        let result = slide(moved, next, direction, (distance - 1) as nat);
        match result.fallen {
            Some((color, token)) => {
                assert forall|piece: Piece| #[trigger] stands(result.grid, piece) <==> stands(
                    grid,
                    piece,
                ) && piece != Piece::Token(color, token) by {
                    assert(stands(moved, piece) <==> stands(grid, piece));
                }
                assert(stands(moved, Piece::Token(color, token)) <==> stands(
                    grid,
                    Piece::Token(color, token),
                ));
            },
            None => {
                assert forall|piece: Piece| #[trigger] stands(result.grid, piece) <==> stands(
                    grid,
                    piece,
                ) by {
                    assert(stands(moved, piece) <==> stands(grid, piece));
                }
            },
        }
    } else {
    }
}

/// A sound position with another board is sound if the other board is
/// tidy and holds the same pieces.
pub proof fn lemma_rearranged(position: Position, grid: Map<(int, int), Space>)
    requires
        position.sound(),
        tidy(grid),
        same_pieces(position.grid, grid),
    ensures
        (Position { grid, ..position }).sound(),
{
    let after = Position { grid, ..position };
    assert(stands(grid, Piece::BadRock) <==> stands(position.grid, Piece::BadRock));
    assert(stands(grid, Piece::GoodRock) <==> stands(position.grid, Piece::GoodRock));
    assert(stands(grid, Piece::GoodRock2) <==> stands(position.grid, Piece::GoodRock2));
    assert forall|color: Color, token: Token| #[trigger]
        after.in_supply(color, token) implies !after.on_board(color, token) by {
        assert(position.in_supply(color, token));
        assert(stands(grid, Piece::Token(color, token)) <==> stands(
            position.grid,
            Piece::Token(color, token),
        ));
    }
    assert forall|color: Color, token: Token| #[trigger]
        after.in_graveyard(color, token) implies !after.on_board(color, token)
        && !after.in_supply(color, token) by {
        assert(position.in_graveyard(color, token));
        assert(stands(grid, Piece::Token(color, token)) <==> stands(
            position.grid,
            Piece::Token(color, token),
        ));
    }
}

/// A sound position from whose board a token has been taken, and in which
/// that token is lost, is sound.
pub proof fn lemma_lost(
    position: Position,
    grid: Map<(int, int), Space>,
    color: Color,
    token: Token,
)
    requires
        position.sound(),
        tidy(grid),
        stands(position.grid, Piece::Token(color, token)),
        pieces_but(position.grid, grid, Piece::Token(color, token)),
    ensures
        (Position { grid, ..position }).lose(Some((color, token))).sound(),
{
    let after = Position { grid, ..position }.lose(Some((color, token)));
    let side = color.spec_index();
    assert(stands(grid, Piece::BadRock) <==> stands(position.grid, Piece::BadRock));
    assert(stands(grid, Piece::GoodRock) <==> stands(position.grid, Piece::GoodRock));
    assert(stands(grid, Piece::GoodRock2) <==> stands(position.grid, Piece::GoodRock2));
    assert(position.on_board(color, token));
    assert(!position.in_supply(color, token));
    assert forall|c: Color, t: Token| #[trigger] after.in_supply(c, t) implies !after.on_board(
        c,
        t,
    ) by {
        assert(after.supplies == position.supplies);
        assert(position.in_supply(c, t));
        assert(stands(grid, Piece::Token(c, t)) <==> stands(position.grid, Piece::Token(c, t))
            && Piece::Token(c, t) != Piece::Token(color, token));
    }
    assert forall|c: Color, t: Token| #[trigger] after.in_graveyard(c, t) implies !after.on_board(
        c,
        t,
    ) && !after.in_supply(c, t) by {
        assert(stands(grid, Piece::Token(c, t)) <==> stands(position.grid, Piece::Token(c, t))
            && Piece::Token(c, t) != Piece::Token(color, token));
        if c == color {
            lemma_push_contains(position.graveyards[side], token, t);
            if t != token {
                assert(position.in_graveyard(c, t));
            }
        } else {
            assert(after.graveyards[c.spec_index()] == position.graveyards[c.spec_index()]);
            assert(position.in_graveyard(c, t));
        }
    }
}

/// A push from a cell of the hexagon keeps a position sound.
pub proof fn lemma_pushed_sound(
    position: Position,
    target: Coordinates,
    direction: Direction,
    distance: nat,
)
    requires
        position.sound(),
        on_cell(target),
    ensures
        position.pushed(target, direction, distance).sound(),
{
    let slid = slide(position.grid, target, direction, distance);
    lemma_slide_pieces(position.grid, target, direction, distance);
    match slid.fallen {
        Some((color, token)) => {
            lemma_lost(position, slid.grid, color, token);
        },
        None => {
            lemma_rearranged(position, slid.grid);
        },
    }
}

/// Pushing a row of pieces keeps a position sound.
pub proof fn lemma_cascaded_sound(
    position: Position,
    target: Coordinates,
    direction: Direction,
    distance: nat,
)
    requires
        position.sound(),
        is_cube(target),
    ensures
        position.cascaded(target, direction, distance).sound(),
    decreases reach(target, direction),
{
    if !(target.spec_is_off_board() || !target.can_step() || position.grid[key(target)]
        == Space::Empty) {
        let next = target.spec_step(direction);
        lemma_cascaded_sound(position, next, direction, distance);
        lemma_pushed_sound(
            position.cascaded(next, direction, distance),
            target,
            direction,
            distance,
        );
    }
}

/// A bomb keeps a position sound.
pub proof fn lemma_bombed_sound(position: Position, origin: Coordinates, directions: nat)
    requires
        position.sound(),
        on_cell(origin),
    ensures
        position.bombed(origin, directions).sound(),
    decreases directions,
{
    if !(directions == 0 || directions > 6) {
        let direction = Direction::spec_all()[directions - 1];
        lemma_bombed_sound(position, origin, (directions - 1) as nat);
        lemma_cascaded_sound(
            position.bombed(origin, (directions - 1) as nat),
            origin.spec_step(direction),
            direction,
            1,
        );
    }
}

/// Losing the token on the centre cell keeps a position sound.
pub proof fn lemma_drained_sound(position: Position)
    requires
        position.sound(),
    ensures
        position.drained().sound(),
{
    match position.grid[(0, 0)] {
        Space::Occupied(Piece::Token(color, token)) => {
            let centre = Coordinates(0, 0, 0);
            lemma_vacate(position.grid, centre, Piece::Token(color, token));
            lemma_lost(position, position.grid.insert((0, 0), Space::Empty), color, token);
        },
        _ => {},
    }
}

/// Deploying a token of the supply on the free gate keeps a position
/// sound.
pub proof fn lemma_deployed_sound(
    position: Position,
    color: Color,
    token: Token,
    direction: Option<Direction>,
)
    requires
        position.sound(),
        position.grid[key(Board::spec_gate_coords(color))] == Space::Empty,
        position.in_supply(color, token),
    ensures
        position.acted(color, Choice::Deploy(token, direction)).sound(),
{
    let after = position.acted(color, Choice::Deploy(token, direction));
    let side = color.spec_index();
    let gate = Board::spec_gate_coords(color);
    let piece = Piece::Token(color, token);
    assert(!position.on_board(color, token));
    lemma_occupy(position.grid, gate, piece);
    lemma_without(position.supplies[side], token);
    assert(stands(after.grid, Piece::BadRock));
    assert(stands(after.grid, Piece::GoodRock));
    assert(stands(after.grid, Piece::GoodRock2));
    assert(after.shaped());
    assert forall|c: Color, t: Token| #[trigger] after.in_supply(c, t) implies !after.on_board(
        c,
        t,
    ) by {
        if c == color {
            assert(position.in_supply(c, t) && t != token);
        } else {
            assert(after.supplies[c.spec_index()] == position.supplies[c.spec_index()]);
            assert(position.in_supply(c, t));
        }
        assert(stands(after.grid, Piece::Token(c, t)) <==> stands(
            position.grid,
            Piece::Token(c, t),
        ) || Piece::Token(c, t) == piece);
    }
    assert forall|c: Color, t: Token| #[trigger] after.in_graveyard(c, t) implies !after.on_board(
        c,
        t,
    ) && !after.in_supply(c, t) by {
        assert(position.in_graveyard(c, t));
        assert(stands(after.grid, Piece::Token(c, t)) <==> stands(
            position.grid,
            Piece::Token(c, t),
        ) || Piece::Token(c, t) == piece);
        if c == color {
            assert(!position.in_supply(c, t));
        } else {
            assert(after.supplies[c.spec_index()] == position.supplies[c.spec_index()]);
        }
    }
}

/// Reviving a token of the graveyard keeps a position sound.
pub proof fn lemma_revived_sound(position: Position, color: Color, token: Token)
    requires
        position.sound(),
        position.in_graveyard(color, token),
    ensures
        position.acted(color, Choice::Revive(token)).sound(),
{
    let after = position.acted(color, Choice::Revive(token));
    let side = color.spec_index();
    lemma_without(position.graveyards[side], token);
    assert(after.shaped());
    assert forall|c: Color, t: Token| #[trigger] after.in_supply(c, t) implies !after.on_board(
        c,
        t,
    ) by {
        if c == color {
            lemma_push_contains(position.supplies[side], token, t);
            if t != token {
                assert(position.in_supply(c, t));
            }
        } else {
            assert(after.supplies[c.spec_index()] == position.supplies[c.spec_index()]);
            assert(position.in_supply(c, t));
        }
    }
    assert forall|c: Color, t: Token| #[trigger] after.in_graveyard(c, t) implies !after.on_board(
        c,
        t,
    ) && !after.in_supply(c, t) by {
        if c == color {
            assert(position.in_graveyard(c, t) && t != token);
            lemma_push_contains(position.supplies[side], token, t);
        } else {
            assert(after.graveyards[c.spec_index()] == position.graveyards[c.spec_index()]);
            assert(after.supplies[c.spec_index()] == position.supplies[c.spec_index()]);
            assert(position.in_graveyard(c, t));
        }
    }
}

/// Pointing a hand elsewhere keeps a position sound.
pub proof fn lemma_pointed_sound(position: Position, color: Color, direction: Direction)
    requires
        position.sound(),
    ensures
        (Position {
            hand_directions: position.hand_directions.update(color.spec_index(), direction),
            ..position
        }).sound(),
{
    let after = Position {
        hand_directions: position.hand_directions.update(color.spec_index(), direction),
        ..position
    };
    assert forall|c: Color, t: Token| #[trigger] after.in_supply(c, t) implies !after.on_board(
        c,
        t,
    ) by {
        assert(position.in_supply(c, t));
    }
    assert forall|c: Color, t: Token| #[trigger] after.in_graveyard(c, t) implies !after.on_board(
        c,
        t,
    ) && !after.in_supply(c, t) by {
        assert(position.in_graveyard(c, t));
    }
}

/// A step from a cell whose coordinates add up to nought and lie within
/// ten of it leads to such a cell.
pub proof fn lemma_step_cube(c: Coordinates, direction: Direction)
    requires
        is_cube(c),
        -10 <= c.0 <= 10,
        -10 <= c.1 <= 10,
        -10 <= c.2 <= 10,
    ensures
        is_cube(c.spec_step(direction)),
        c.spec_step(direction).0 == c.0 + direction.dq(),
        c.spec_step(direction).1 == c.1 + direction.dr(),
        c.spec_step(direction).2 == c.2 + direction.ds(),
{
}

/// A step from a cell of the hexagon that stays on the board leads to a
/// cell of the hexagon.
pub proof fn lemma_step_on_cell(c: Coordinates, direction: Direction)
    requires
        on_cell(c),
    ensures
        is_cube(c.spec_step(direction)),
        !c.spec_step(direction).spec_is_off_board() ==> on_cell(c.spec_step(direction)),
{
    lemma_step_cube(c, direction);
}

/// A leap of up to four cells from a cell of the hexagon leads to a cell
/// whose coordinates add up to nought.
pub proof fn lemma_leap(c: Coordinates, d: Direction, span: int)
    requires
        on_cell(c),
        0 <= span <= 4,
    ensures
        is_cube(leap(c, d, span)),
        leap(c, d, span).0 == c.0 + span * d.dq(),
        leap(c, d, span).1 == c.1 + span * d.dr(),
        leap(c, d, span).2 == c.2 + span * d.ds(),
{
    assert(span * 1 == span && span * 0 == 0 && span * (-1) == -span);
    match d {
        Direction::Left => {
            assert(d.dq() == -1 && d.dr() == 0 && d.ds() == 1);
        },
        Direction::UpLeft => {
            assert(d.dq() == 0 && d.dr() == -1 && d.ds() == 1);
        },
        Direction::UpRight => {
            assert(d.dq() == 1 && d.dr() == -1 && d.ds() == 0);
        },
        Direction::Right => {
            assert(d.dq() == 1 && d.dr() == 0 && d.ds() == -1);
        },
        Direction::DownRight => {
            assert(d.dq() == 0 && d.dr() == 1 && d.ds() == -1);
        },
        Direction::DownLeft => {
            assert(d.dq() == -1 && d.dr() == 1 && d.ds() == 0);
        },
    }
}

/// The cells of a throw are cells of the hexagon if they are on the board.
proof fn lemma_wave_fits(c: Coordinates, target: Coordinates, destination: Coordinates)
    requires
        on_cell(c),
        !target.spec_is_off_board(),
        !destination.spec_is_off_board(),
        exists|direction: Direction|
            target == #[trigger] c.spec_step(direction) && destination == c.spec_step(
                direction.spec_opposite(),
            ),
    ensures
        on_cell(target),
        on_cell(destination),
{
    let direction = choose|direction: Direction|
        target == #[trigger] c.spec_step(direction) && destination == c.spec_step(
            direction.spec_opposite(),
        );
    lemma_step_on_cell(c, direction);
    lemma_step_on_cell(c, direction.spec_opposite());
}

/// The cells of a call are cells of the hexagon if the cell called to is
/// on the board.
proof fn lemma_daimyo_fits(
    position: Position,
    color: Color,
    c: Coordinates,
    target: Coordinates,
    destination: Coordinates,
)
    requires
        on_cell(c),
        !destination.spec_is_off_board(),
        exists|other: Token| other != Token::Daimyo && #[trigger] position.unit(color, other, target),
        exists|direction: Direction| destination == #[trigger] c.spec_step(direction),
    ensures
        on_cell(target),
        on_cell(destination),
{
    let direction = choose|direction: Direction| destination == #[trigger] c.spec_step(direction);
    lemma_step_on_cell(c, direction);
    let other = choose|other: Token|
        other != Token::Daimyo && #[trigger] position.unit(color, other, target);
    assert(position.unit(color, other, target));
}

/// The cell that a scout changes places with is a cell of the hexagon if
/// it is on the board.
proof fn lemma_scout_fits(c: Coordinates, destination: Coordinates)
    requires
        on_cell(c),
        !destination.spec_is_off_board(),
        exists|direction: Direction|
            destination == #[trigger] c.spec_step(direction) || destination == c.spec_step(
                direction,
            ).spec_step(direction),
    ensures
        on_cell(destination),
{
    let direction = choose|direction: Direction|
        destination == #[trigger] c.spec_step(direction) || destination == c.spec_step(
            direction,
        ).spec_step(direction);
    lemma_step_cube(c, direction);
    lemma_step_cube(c.spec_step(direction), direction);
}

/// The cell that a hook pulls at is a cell of the hexagon if it is on the
/// board.
pub proof fn lemma_hook_fits(
    position: Position,
    c: Coordinates,
    target: Coordinates,
    direction: Direction,
    distance: usize,
)
    requires
        on_cell(c),
        !target.spec_is_off_board(),
        exists|span: int|
            2 <= span <= 4 && distance < span && target == #[trigger] leap(
                c,
                direction.spec_opposite(),
                span,
            ),
    ensures
        on_cell(target),
{
    let span = choose|span: int|
        2 <= span <= 4 && distance < span && target == #[trigger] leap(
            c,
            direction.spec_opposite(),
            span,
        );
    let d = direction.spec_opposite();
    lemma_leap(c, d, span);
}

/// A use of an ability that a token on the board can make fits the board.
pub proof fn lemma_unit_ability_fits(
    position: Position,
    color: Color,
    token: Token,
    c: Coordinates,
    ability: Ability,
)
    requires
        position.unit(color, token, c),
        position.unit_allows(color, token, c, Choice::UseAbility(ability)),
    ensures
        ability_fits(position, ability),
{
    assert(position.wields(color, token, c, Choice::UseAbility(ability)));
    assert(on_cell(c));
    match ability {
        Ability::Hammer { target, direction, distance } => {
            lemma_step_on_cell(c, direction);
        },
        Ability::Hook { target, direction, distance } => {
            lemma_hook_fits(position, c, target, direction, distance);
        },
        Ability::Wave { target, destination } => {
            lemma_wave_fits(c, target, destination);
        },
        Ability::Daimyo { target, destination } => {
            lemma_daimyo_fits(position, color, c, target, destination);
        },
        Ability::Scout { target, destination } => {
            lemma_scout_fits(c, destination);
        },
        Ability::Bomb { origin } => {},
        Ability::Hand { origin, move_direction, hand_direction } => {
            lemma_step_on_cell(c, move_direction);
        },
    }
}

/// An allowed use of an ability fits the board.
pub proof fn lemma_ability_fits(position: Position, color: Color, ability: Ability)
    requires
        position.allows(Choice::UseAbility(ability)),
        position.turn_state.spec_color() == Some(color),
    ensures
        ability_fits(position, ability),
{
    let choice = Choice::UseAbility(ability);
    let used_piece = position.turn_state.spec_used_piece();
    let (unit_token, c) = choose|unit_token: Token, c: Coordinates|
        #[trigger] position.usable(color, used_piece, unit_token, c) && position.unit_allows(
            color,
            unit_token,
            c,
            choice,
        );
    lemma_unit_ability_fits(position, color, unit_token, c, ability);
}

/// A use of an ability that fits the board keeps a position sound.
pub proof fn lemma_fitting_ability_sound(position: Position, color: Color, ability: Ability)
    requires
        position.sound(),
        ability_fits(position, ability),
    ensures
        position.acted(color, Choice::UseAbility(ability)).sound(),
{
    let after = position.acted(color, Choice::UseAbility(ability));
    let side = color.spec_index();
    match ability {
        Ability::Hammer { target, direction, distance } => {
            lemma_pushed_sound(position, target, direction, distance as nat);
        },
        Ability::Hook { target, direction, distance } => {
            lemma_pushed_sound(position, target, direction, distance as nat);
        },
        Ability::Wave { target, destination } => {
            lemma_relocate(position.grid, target, destination);
            lemma_rearranged(position, after.grid);
        },
        Ability::Daimyo { target, destination } => {
            lemma_relocate(position.grid, target, destination);
            lemma_rearranged(position, after.grid);
        },
        Ability::Scout { target, destination } => {
            lemma_exchange(position.grid, target, destination);
            lemma_rearranged(position, after.grid);
        },
        Ability::Bomb { origin } => {
            lemma_bombed_sound(position, origin, 6);
        },
        Ability::Hand { origin, move_direction, hand_direction } => {
            lemma_relocate(position.grid, origin, origin.spec_step(move_direction));
            lemma_pointed_sound(position, color, hand_direction);
            lemma_rearranged(
                Position {
                    hand_directions: position.hand_directions.update(side, hand_direction),
                    ..position
                },
                after.grid,
            );
        },
    }
}

/// An allowed use of an ability keeps a position sound.
pub proof fn lemma_ability_sound(position: Position, color: Color, ability: Ability)
    requires
        position.sound(),
        position.allows(Choice::UseAbility(ability)),
        position.turn_state.spec_color() == Some(color),
    ensures
        position.acted(color, Choice::UseAbility(ability)).sound(),
{
    lemma_ability_fits(position, color, ability);
    lemma_fitting_ability_sound(position, color, ability);
}

/// An allowed move keeps a position sound.
pub proof fn lemma_acted_sound(position: Position, color: Color, choice: Choice)
    requires
        position.sound(),
        position.allows(choice),
        position.turn_state.spec_color() == Some(color),
    ensures
        position.acted(color, choice).sound(),
{
    let after = position.acted(color, choice);
    let used_piece = position.turn_state.spec_used_piece();
    match choice {
        Choice::Pass => {},
        Choice::Deploy(token, direction) => {
            lemma_deployed_sound(position, color, token, direction);
        },
        Choice::Revive(token) => {
            lemma_revived_sound(position, color, token);
        },
        Choice::Move(token, direction) => {
            let (unit_token, c) = choose|unit_token: Token, c: Coordinates|
                #[trigger] position.usable(color, used_piece, unit_token, c)
                    && position.unit_allows(color, unit_token, c, choice);
            lemma_unit_is_first(position, color, token, c);
            lemma_relocate(position.grid, c, c.spec_step(direction));
            lemma_rearranged(position, after.grid);
        },
        Choice::UseAbility(ability) => {
            lemma_ability_sound(position, color, ability);
        },
    }
}

/// A position that differs from a sound one in the state of the turn and
/// the number of actions alone is sound.
pub proof fn lemma_counted(before: Position, after: Position)
    requires
        before.sound(),
        after == (Position {
            turn_state: after.turn_state,
            choice_number: after.choice_number,
            ..before
        }),
    ensures
        after.sound(),
{
    assert forall|c: Color, t: Token| #[trigger] after.in_supply(c, t) implies !after.on_board(
        c,
        t,
    ) by {
        assert(before.in_supply(c, t));
    }
    assert forall|c: Color, t: Token| #[trigger] after.in_graveyard(c, t) implies !after.on_board(
        c,
        t,
    ) && !after.in_supply(c, t) by {
        assert(before.in_graveyard(c, t));
    }
}

/// The starting position is sound.
pub proof fn lemma_initial_sound(position: Position)
    requires
        position.supplies.len() == 2,
        position.graveyards.len() == 2,
        position.hand_directions.len() == 2,
        forall|side: int| 0 <= side < 2 ==> !(#[trigger] position.supplies[side]).contains(
            Token::Daimyo,
        ),
        forall|side: int| 0 <= side < 2 ==> (#[trigger] position.graveyards[side]).len() == 0,
        forall|q: int, r: int|
            -5 <= q <= 5 && -5 <= r <= 5 ==> #[trigger] position.grid.dom().contains((q, r)),
        forall|q: int, r: int|
            -5 <= q <= 5 && -5 <= r <= 5 ==> #[trigger] position.grid[(q, r)] == if q == 0 && r
                == 0 {
                Space::Occupied(Piece::BadRock)
            } else if q == -4 && r == 0 {
                Space::Occupied(Piece::GoodRock)
            } else if q == 4 && r == 0 {
                Space::Occupied(Piece::GoodRock2)
            } else if q == -1 && r == 2 {
                Space::Occupied(Piece::Token(Color::White, Token::Daimyo))
            } else if q == 1 && r == -2 {
                Space::Occupied(Piece::Token(Color::Black, Token::Daimyo))
            } else {
                Space::Empty
            },
    ensures
        position.sound(),
{
    let grid = position.grid;
    assert(grid[(0, 0)] == Space::Occupied(Piece::BadRock));
    assert(grid[(-4, 0)] == Space::Occupied(Piece::GoodRock));
    assert(grid[(4, 0)] == Space::Occupied(Piece::GoodRock2));
    assert forall|color: Color, token: Token| #[trigger]
        position.in_supply(color, token) implies !position.on_board(color, token) by {
        if position.on_board(color, token) {
            let (q, r) = choose|q: int, r: int|
                on_hexagon(q, r) && #[trigger] grid[(q, r)] == Space::Occupied(
                    Piece::Token(color, token),
                );
            assert(token == Token::Daimyo);
            assert(!position.supplies[color.spec_index()].contains(Token::Daimyo));
        }
    }
    assert forall|color: Color, token: Token| #[trigger]
        position.in_graveyard(color, token) implies !position.on_board(color, token)
        && !position.in_supply(color, token) by {
        assert(position.graveyards[color.spec_index()].len() == 0);
    }
}

} // verus!
