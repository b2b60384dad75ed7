use tak_simulator::actions::{Action, Move};
use tak_simulator::board::{Board, Direction};
use tak_simulator::game_over::MatchResult;
use tak_simulator::logic::Logic;
use tak_simulator::piece::{Piece, PieceKind, Stack};
use tak_simulator::player::Color;
use tak_simulator::player::Color::{Blk, Red};
use tak_simulator::position::Position;

fn put(board: &mut Board, row: usize, col: usize, kind: PieceKind, c: Color) {
    board.set_forcefully(
        Position::new(row, col),
        Stack::from_vec(vec![Piece::new(kind, c)]),
    );
}

// A solid same-colour line of road-qualifying stacks from row 0 to row N-1
// is a win for that colour and no one else, even with a same-colour
// standing stone sitting right beside the path: standing stones are not
// connective.
#[test]
fn solid_column_is_a_road_for_its_colour_only() {
    let mut board = Board::new(4);
    for row in 0..4 {
        put(&mut board, row, 1, PieceKind::Stone, Red);
    }
    // a red standing stone adjacent to the path must not matter
    put(&mut board, 2, 2, PieceKind::StandingStone, Red);
    let logic = Logic::from_board(board);
    assert!(logic.is_winner(Red));
    assert!(!logic.is_winner(Blk));
    assert!(logic.is_winner_for_dir(Red, Direction::North));
    assert!(!logic.is_winner_for_dir(Red, Direction::East));
    let oc = logic.get_outcome().unwrap();
    assert_eq!(oc.result, MatchResult::Winner(Red));
}

#[test]
fn solid_row_is_a_road_east_to_west() {
    let mut board = Board::new(3);
    for col in 0..3 {
        put(&mut board, 1, col, PieceKind::Stone, Blk);
    }
    let logic = Logic::from_board(board);
    assert!(logic.is_winner(Blk));
    assert!(!logic.is_winner(Red));
    assert!(logic.is_winner_for_dir(Blk, Direction::East));
    assert!(!logic.is_winner_for_dir(Blk, Direction::North));
}

// A standing stone in the line breaks the road; a capstone keeps it.
#[test]
fn standing_stones_break_a_road_capstones_do_not() {
    let mut broken = Board::new(3);
    put(&mut broken, 0, 0, PieceKind::Stone, Red);
    put(&mut broken, 1, 0, PieceKind::StandingStone, Red);
    put(&mut broken, 2, 0, PieceKind::Stone, Red);
    assert!(!Logic::from_board(broken).is_winner(Red));

    let mut capped = Board::new(3);
    put(&mut capped, 0, 0, PieceKind::Stone, Red);
    put(&mut capped, 1, 0, PieceKind::CapStone, Red);
    put(&mut capped, 2, 0, PieceKind::Stone, Red);
    assert!(Logic::from_board(capped).is_winner(Red));
}

// A bent road through the middle of the board still counts.
#[test]
fn winding_road_connects() {
    let mut board = Board::new(3);
    put(&mut board, 0, 0, PieceKind::Stone, Red);
    put(&mut board, 1, 0, PieceKind::Stone, Red);
    put(&mut board, 1, 1, PieceKind::Stone, Red);
    put(&mut board, 2, 1, PieceKind::Stone, Red);
    let logic = Logic::from_board(board);
    assert!(logic.is_winner_for_dir(Red, Direction::North));
    assert!(!logic.is_winner_for_dir(Red, Direction::East));
}

// A move that completes roads for both sides at once ties the game.
#[test]
fn double_road_is_a_tie() {
    let mut board = Board::new(3);
    for row in 0..3 {
        put(&mut board, row, 0, PieceKind::Stone, Blk);
    }
    put(&mut board, 0, 2, PieceKind::Stone, Red);
    put(&mut board, 1, 2, PieceKind::Stone, Red);
    let mut logic = Logic::from_board(board);
    let mv = Move { action: Action::Place(Position::new(2, 2), PieceKind::Stone), player: Red };
    assert!(logic.applicable(&mv));
    let oc = logic.apply(mv).unwrap();
    assert_eq!(oc.result, MatchResult::Tie);
}

// The colour of buried pieces is irrelevant: only the top counts.
#[test]
fn buried_pieces_do_not_connect() {
    let mut board = Board::new(3);
    for row in 0..3 {
        board.set_forcefully(
            Position::new(row, 0),
            Stack::from_vec(vec![
                Piece::new(PieceKind::Stone, Red),
                Piece::new(PieceKind::Stone, Blk),
            ]),
        );
    }
    let logic = Logic::from_board(board);
    assert!(logic.is_winner(Blk));
    assert!(!logic.is_winner(Red));
}
