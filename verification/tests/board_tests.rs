use tak_simulator::board::{Board, Direction};
use tak_simulator::piece::{Piece, PieceKind, Stack};
use tak_simulator::player::Color;
use tak_simulator::player::Color::{Blk, Red};
use tak_simulator::position::Position;

fn stone(c: Color) -> Piece {
    Piece::new(PieceKind::Stone, c)
}

// Placing puts a single-piece stack of the placed kind and colour on the
// target square and takes exactly one piece from the matching reserve.
#[test]
fn place_sets_one_stack_and_pays_one_piece() {
    let mut board = Board::new(5);
    assert_eq!(board.piece_count(Red, PieceKind::Stone), 21);
    assert_eq!(board.piece_count(Red, PieceKind::CapStone), 1);
    board.place(Piece::new(PieceKind::Stone, Red), Position::new(2, 3));
    assert_eq!(
        board.at(Position::new(2, 3)),
        &Stack::from_vec(vec![Piece::new(PieceKind::Stone, Red)])
    );
    assert_eq!(board.piece_count(Red, PieceKind::Stone), 20);
    assert_eq!(board.piece_count(Red, PieceKind::CapStone), 1);
    assert_eq!(board.piece_count(Blk, PieceKind::Stone), 21);
    assert_eq!(board.piece_count(Blk, PieceKind::CapStone), 1);
    // standing stones pay from the stone counter
    board.place(Piece::new(PieceKind::StandingStone, Red), Position::new(2, 4));
    assert_eq!(board.piece_count(Red, PieceKind::Stone), 19);
    // a capstone pays from the capstone counter
    board.place(Piece::new(PieceKind::CapStone, Blk), Position::new(0, 0));
    assert_eq!(board.piece_count(Blk, PieceKind::CapStone), 0);
    assert_eq!(board.piece_count(Blk, PieceKind::Stone), 21);
}

#[test]
fn reserves_follow_the_size_table() {
    let expect = [(3usize, 10u16, 0u16), (4, 15, 0), (5, 21, 1), (6, 30, 1), (8, 50, 2)];
    for (n, stones, caps) in expect {
        let board = Board::new(n);
        assert_eq!(board.size(), n);
        assert_eq!(board.piece_count(Red, PieceKind::Stone), stones);
        assert_eq!(board.piece_count(Blk, PieceKind::Stone), stones);
        assert_eq!(board.piece_count(Red, PieceKind::CapStone), caps);
        assert_eq!(board.piece_count(Blk, PieceKind::CapStone), caps);
    }
}

#[test]
fn valid_pos_is_bounded_by_the_size() {
    let board = Board::new(3);
    assert!(board.valid_pos(Position::new(0, 0)));
    assert!(board.valid_pos(Position::new(2, 2)));
    assert!(!board.valid_pos(Position::new(3, 0)));
    assert!(!board.valid_pos(Position::new(0, 3)));
}

#[test]
fn iteration_walks_row_major_over_every_square() {
    let mut board = Board::new(3);
    board.place(stone(Red), Position::new(1, 2));
    let mut seen = Vec::new();
    let mut it = board.iter().with_pos();
    while let Some((pos, stack)) = it.next() {
        seen.push((pos.row, pos.col, stack.len()));
    }
    assert_eq!(seen.len(), 9);
    assert_eq!(seen[0], (0, 0, 0));
    assert_eq!(seen[1], (0, 1, 0));
    assert_eq!(seen[5], (1, 2, 1));
    assert_eq!(seen[8], (2, 2, 0));
    // the stack-only walk agrees
    let mut total = 0;
    let mut stacks = board.iter();
    while let Some(stack) = stacks.next() {
        total += stack.len();
    }
    assert_eq!(total, 1);
}

#[test]
fn slide_merges_one_hop_and_keeps_reserves() {
    let mut board = Board::new(4);
    board.place(stone(Red), Position::new(1, 1));
    board.place(stone(Blk), Position::new(1, 2));
    let stones_red = board.piece_count(Red, PieceKind::Stone);
    let stones_blk = board.piece_count(Blk, PieceKind::Stone);
    board.slide(Position::new(1, 1), Direction::East, 1);
    assert_eq!(board.at(Position::new(1, 1)), &Stack::empty());
    assert_eq!(
        board.at(Position::new(1, 2)),
        &Stack::from_vec(vec![stone(Blk), stone(Red)])
    );
    assert_eq!(board.piece_count(Red, PieceKind::Stone), stones_red);
    assert_eq!(board.piece_count(Blk, PieceKind::Stone), stones_blk);
}

// Conservation: pieces on the board plus pieces in reserve always add up to
// the full allotment, through placements and slides alike.
#[test]
fn pieces_are_conserved_through_play() {
    let mut board = Board::new(4);
    board.place(stone(Red), Position::new(0, 0));
    board.place(stone(Blk), Position::new(0, 1));
    board.place(Piece::new(PieceKind::StandingStone, Red), Position::new(1, 1));
    board.slide(Position::new(0, 0), Direction::East, 1);
    for c in [Red, Blk] {
        let mut on_board_stones = 0u16;
        let mut on_board_caps = 0u16;
        let mut stacks = board.iter();
        while let Some(stack) = stacks.next() {
            for i in 0..stack.len() {
                let piece = stack.nth_piece(i);
                if piece.color == c {
                    if piece.kind == PieceKind::CapStone {
                        on_board_caps += 1;
                    } else {
                        on_board_stones += 1;
                    }
                }
            }
        }
        assert_eq!(on_board_stones + board.piece_count(c, PieceKind::Stone), 15);
        assert_eq!(on_board_caps + board.piece_count(c, PieceKind::CapStone), 0);
    }
}

#[test]
fn set_forcefully_pays_for_every_piece() {
    let mut board = Board::new(5);
    let stack = Stack::from_vec(vec![
        stone(Red),
        stone(Blk),
        stone(Red),
        Piece::new(PieceKind::CapStone, Blk),
    ]);
    board.set_forcefully(Position::new(4, 4), stack.clone());
    assert_eq!(board.at(Position::new(4, 4)), &stack);
    assert_eq!(board.piece_count(Red, PieceKind::Stone), 19);
    assert_eq!(board.piece_count(Blk, PieceKind::Stone), 20);
    assert_eq!(board.piece_count(Blk, PieceKind::CapStone), 0);
    assert_eq!(board.piece_count(Red, PieceKind::CapStone), 1);
}
