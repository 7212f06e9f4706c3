use mcts::board::{Board, Color, Piece, Space, Token};
use mcts::hex::{Coordinates, Direction};

fn token(color: Color, token: Token) -> Space {
    Space::Occupied(Piece::Token(color, token))
}

#[test]
fn directions_turn_round() {
    assert_eq!(Direction::Left.opposite(), Direction::Right);
    assert_eq!(Direction::UpLeft.opposite(), Direction::DownRight);
    assert_eq!(Direction::UpRight.opposite(), Direction::DownLeft);
    assert_eq!(Direction::Right.opposite(), Direction::Left);
    assert_eq!(Direction::DownRight.opposite(), Direction::UpLeft);
    assert_eq!(Direction::DownLeft.opposite(), Direction::UpRight);
    for direction in Direction::all() {
        assert_eq!(direction.opposite().opposite(), direction);
    }
}

#[test]
fn all_directions_are_listed_once_in_order() {
    assert_eq!(
        Direction::all(),
        [
            Direction::Left,
            Direction::UpLeft,
            Direction::UpRight,
            Direction::Right,
            Direction::DownRight,
            Direction::DownLeft,
        ]
    );
}

#[test]
fn a_step_changes_two_coordinates() {
    let origin = Coordinates(0, 0, 0);
    assert_eq!(origin.step(Direction::Left), Coordinates(-1, 0, 1));
    assert_eq!(origin.step(Direction::UpLeft), Coordinates(0, -1, 1));
    assert_eq!(origin.step(Direction::UpRight), Coordinates(1, -1, 0));
    assert_eq!(origin.step(Direction::Right), Coordinates(1, 0, -1));
    assert_eq!(origin.step(Direction::DownRight), Coordinates(0, 1, -1));
    assert_eq!(origin.step(Direction::DownLeft), Coordinates(-1, 1, 0));
    let cell = Coordinates(3, -5, 2);
    for direction in Direction::all() {
        assert_eq!(cell.step(direction).step(direction.opposite()), cell);
        assert_eq!(cell + direction, cell.step(direction));
    }
    assert_eq!(Coordinates(-1, 2, -1) + Direction::UpRight, Coordinates(0, 1, -1));
}

#[test]
fn coordinates_add_up() {
    assert_eq!(Coordinates(1, -2, 1) + Coordinates(-4, 4, 0), Coordinates(-3, 2, 1));
    assert_eq!(Coordinates(0, 0, 0) + Coordinates(5, -5, 0), Coordinates(5, -5, 0));
    assert_eq!(Coordinates(-128, 127, 1) + Coordinates(0, 0, 0), Coordinates(-128, 127, 1));
}

#[test]
fn the_board_ends_five_cells_from_the_centre() {
    assert!(!Coordinates(0, 0, 0).is_off_board());
    assert!(!Coordinates(5, -5, 0).is_off_board());
    assert!(!Coordinates(-5, 0, 5).is_off_board());
    assert!(Coordinates(6, -5, -1).is_off_board());
    assert!(Coordinates(-6, 3, 3).is_off_board());
    assert!(Coordinates(0, 6, -6).is_off_board());
    assert!(Coordinates(0, -6, 6).is_off_board());
    assert!(Coordinates(3, 3, -6).is_off_board());
    assert!(Coordinates(-3, -3, 6).is_off_board());
}

#[test]
fn sides_are_opposite_each_other() {
    assert_eq!(Color::White.opposite(), Color::Black);
    assert_eq!(Color::Black.opposite(), Color::White);
    assert_eq!(Color::White.index(), 0);
    assert_eq!(Color::Black.index(), 1);
}

#[test]
fn a_new_board_holds_three_rocks_and_two_daimyos() {
    let board = Board::new();
    let mut occupied = 0;
    for q in -5i8..=5 {
        for r in -5i8..=5 {
            let expected = match (q, r) {
                (0, 0) => Space::Occupied(Piece::BadRock),
                (-4, 0) => Space::Occupied(Piece::GoodRock),
                (4, 0) => Space::Occupied(Piece::GoodRock2),
                (-1, 2) => token(Color::White, Token::Daimyo),
                (1, -2) => token(Color::Black, Token::Daimyo),
                _ => Space::Empty,
            };
            assert_eq!(board.get_space(Coordinates(q, r, -q - r)), expected);
            if expected != Space::Empty {
                occupied += 1;
            }
        }
    }
    assert_eq!(occupied, 5);
    assert!(!board.is_empty(Coordinates(0, 0, 0)));
    assert!(board.is_empty(Coordinates(1, 0, -1)));
}

#[test]
fn a_cell_holds_what_was_set() {
    let mut board = Board::new();
    let cell = Coordinates(2, -3, 1);
    board.set_space(cell, token(Color::Black, Token::Wave));
    assert_eq!(board.get_space(cell), token(Color::Black, Token::Wave));
    assert_eq!(board.get_space(Coordinates(0, 0, 0)), Space::Occupied(Piece::BadRock));
    board.set_space(cell, Space::Empty);
    assert_eq!(board.get_space(cell), Space::Empty);
    // The third coordinate does not take part in naming a cell.
    board.set_space(Coordinates(2, -3, 99), token(Color::White, Token::Hook));
    assert_eq!(board.get_space(cell), token(Color::White, Token::Hook));
}

#[test]
fn moving_leaves_the_start_empty() {
    let mut board = Board::new();
    board.move_to(Coordinates(0, 0, 0), Coordinates(0, 1, -1));
    assert_eq!(board.get_space(Coordinates(0, 0, 0)), Space::Empty);
    assert_eq!(board.get_space(Coordinates(0, 1, -1)), Space::Occupied(Piece::BadRock));
    // Moving a cell onto itself empties it.
    board.move_to(Coordinates(0, 1, -1), Coordinates(0, 1, -1));
    assert_eq!(board.get_space(Coordinates(0, 1, -1)), Space::Empty);
}

#[test]
fn swapping_exchanges_two_cells() {
    let mut board = Board::new();
    board.swap(Coordinates(0, 0, 0), Coordinates(-1, 2, -1));
    assert_eq!(board.get_space(Coordinates(0, 0, 0)), token(Color::White, Token::Daimyo));
    assert_eq!(board.get_space(Coordinates(-1, 2, -1)), Space::Occupied(Piece::BadRock));
    board.swap(Coordinates(3, 0, -3), Coordinates(0, 0, 0));
    assert_eq!(board.get_space(Coordinates(3, 0, -3)), token(Color::White, Token::Daimyo));
    assert_eq!(board.get_space(Coordinates(0, 0, 0)), Space::Empty);
}

#[test]
fn pieces_are_found_in_scan_order() {
    let mut board = Board::new();
    assert_eq!(board.find(Piece::BadRock), Some(Coordinates(0, 0, 0)));
    assert_eq!(board.find(Piece::GoodRock), Some(Coordinates(-4, 0, 4)));
    assert_eq!(board.find(Piece::GoodRock2), Some(Coordinates(4, 0, -4)));
    assert_eq!(
        board.find(Piece::Token(Color::White, Token::Daimyo)),
        Some(Coordinates(-1, 2, -1))
    );
    assert_eq!(board.find(Piece::Token(Color::White, Token::Scout)), None);
    // Of two equal pieces the one with the smaller q is found, then the smaller r.
    board.set_space(Coordinates(-2, 5, -3), Space::Occupied(Piece::BadRock));
    assert_eq!(board.find(Piece::BadRock), Some(Coordinates(-2, 5, -3)));
    board.set_space(Coordinates(-2, -1, 3), Space::Occupied(Piece::BadRock));
    assert_eq!(board.find(Piece::BadRock), Some(Coordinates(-2, -1, 3)));
    // Cells of the grid outside the hexagon are not looked at.
    let mut board = Board::new();
    board.set_space(Coordinates(-5, -5, 10), Space::Occupied(Piece::BadRock));
    assert_eq!(board.find(Piece::BadRock), Some(Coordinates(0, 0, 0)));
}

#[test]
fn tokens_of_a_side_are_listed_in_scan_order() {
    let mut board = Board::new();
    assert_eq!(
        board.find_all_of_color(Color::White),
        vec![(Token::Daimyo, Coordinates(-1, 2, -1))]
    );
    assert_eq!(
        board.find_all_of_color(Color::Black),
        vec![(Token::Daimyo, Coordinates(1, -2, 1))]
    );
    board.set_space(Coordinates(5, -5, 0), token(Color::White, Token::Bomb));
    board.set_space(Coordinates(-5, 0, 5), token(Color::White, Token::Hand));
    board.set_space(Coordinates(-1, -4, 5), token(Color::White, Token::Scout));
    board.set_space(Coordinates(-1, 3, -2), token(Color::Black, Token::Scout));
    board.set_space(Coordinates(5, 5, -10), token(Color::White, Token::Wave));
    assert_eq!(
        board.find_all_of_color(Color::White),
        vec![
            (Token::Hand, Coordinates(-5, 0, 5)),
            (Token::Scout, Coordinates(-1, -4, 5)),
            (Token::Daimyo, Coordinates(-1, 2, -1)),
            (Token::Bomb, Coordinates(5, -5, 0)),
        ]
    );
    assert_eq!(
        board.find_all_of_color(Color::Black),
        vec![(Token::Scout, Coordinates(-1, 3, -2)), (Token::Daimyo, Coordinates(1, -2, 1))]
    );
}

#[test]
fn villages_are_the_two_outer_rows() {
    let board = Board::new();
    assert!(board.is_in_village(Coordinates(0, 4, -4), Color::White));
    assert!(board.is_in_village(Coordinates(-3, 5, -2), Color::White));
    assert!(!board.is_in_village(Coordinates(0, 3, -3), Color::White));
    assert!(!board.is_in_village(Coordinates(0, -4, 4), Color::White));
    assert!(board.is_in_village(Coordinates(0, -4, 4), Color::Black));
    assert!(board.is_in_village(Coordinates(2, -5, 3), Color::Black));
    assert!(!board.is_in_village(Coordinates(0, -3, 3), Color::Black));
    assert!(!board.is_in_village(Coordinates(0, 4, -4), Color::Black));
}

#[test]
fn tokens_are_deployed_on_the_gate() {
    let mut board = Board::new();
    assert_eq!(board.gate_coords(Color::White), Coordinates(-2, 4, -2));
    assert_eq!(board.gate_coords(Color::Black), Coordinates(2, -4, 2));
    assert!(board.gate_is_empty(Color::White));
    assert!(board.gate_is_empty(Color::Black));
    board.deploy(Color::White, Token::Hammer);
    assert!(!board.gate_is_empty(Color::White));
    assert!(board.gate_is_empty(Color::Black));
    assert_eq!(board.get_space(Coordinates(-2, 4, -2)), token(Color::White, Token::Hammer));
    board.deploy(Color::Black, Token::Hook);
    assert!(!board.gate_is_empty(Color::Black));
    assert_eq!(board.get_space(Coordinates(2, -4, 2)), token(Color::Black, Token::Hook));
}

#[test]
fn a_piece_steps_to_its_neighbour() {
    let mut board = Board::new();
    board.move_piece(Piece::Token(Color::White, Token::Daimyo), Direction::UpRight);
    assert_eq!(board.get_space(Coordinates(-1, 2, -1)), Space::Empty);
    assert_eq!(board.get_space(Coordinates(0, 1, -1)), token(Color::White, Token::Daimyo));
    board.move_piece(Piece::BadRock, Direction::Left);
    assert_eq!(board.find(Piece::BadRock), Some(Coordinates(-1, 0, 1)));
}
