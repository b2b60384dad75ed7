use tak_simulator::actions::Action;
use tak_simulator::analyzer::{distribute, Analyzer};
use tak_simulator::board::{Board, Direction};
use tak_simulator::piece::{Piece, PieceKind, Stack};
use tak_simulator::player::Color;
use tak_simulator::player::Color::{Blk, Red};
use tak_simulator::position::Position;

fn put(board: &mut Board, row: usize, col: usize, kind: PieceKind, c: Color) {
    board.set_forcefully(
        Position::new(row, col),
        Stack::from_vec(vec![Piece::new(kind, c)]),
    );
}

// Every generated tuple sums to p, has exactly k entries, and strictly
// decreases; and the generator produces each such tuple exactly once.
#[test]
fn distribute_generates_exact_partitions() {
    for p in 1usize..=8 {
        for k in 1usize..=p {
            let parts = distribute(p, k, p);
            for v in &parts {
                assert_eq!(v.len(), k);
                assert_eq!(v.iter().sum::<usize>(), p);
                for w in v.windows(2) {
                    assert!(w[1] < w[0]);
                }
            }
            for (i, v) in parts.iter().enumerate() {
                for w in parts.iter().skip(i + 1) {
                    assert_ne!(v, w);
                }
            }
        }
    }
}

#[test]
fn distribute_counts_match_hand_enumeration() {
    // partitions of 5 into 2 strictly decreasing parts: [4,1], [3,2]
    let parts = distribute(5, 2, 5);
    assert_eq!(parts.len(), 2);
    assert!(parts.contains(&vec![4, 1]));
    assert!(parts.contains(&vec![3, 2]));
    // partitions of 6 into 3 strictly decreasing parts: [3,2,1]
    let parts = distribute(6, 3, 6);
    assert_eq!(parts, vec![vec![3, 2, 1]]);
    // no partition of 3 into 3 strictly decreasing positive parts
    assert!(distribute(3, 3, 3).is_empty());
    // the bound caps the first part
    let parts = distribute(5, 2, 3);
    assert_eq!(parts, vec![vec![3, 2]]);
    // a single part is the number itself
    assert_eq!(distribute(4, 1, 4), vec![vec![4]]);
    assert!(distribute(4, 1, 3).is_empty());
}

#[test]
fn enumerates_placements_on_an_empty_board() {
    let board = Board::new(3);
    let analyzer = Analyzer::for_board(&board);
    let actions = analyzer.applicable_actions(Red);
    // 9 free squares, stones and standing stones available, no capstones
    assert_eq!(actions.len(), 18);
    assert!(actions.contains(&Action::Place(Position::new(1, 2), PieceKind::Stone)));
    assert!(actions.contains(&Action::Place(Position::new(1, 2), PieceKind::StandingStone)));
    assert!(!actions.contains(&Action::Place(Position::new(1, 2), PieceKind::CapStone)));
}

#[test]
fn enumerates_capstone_placements_when_one_remains() {
    let board = Board::new(5);
    let analyzer = Analyzer::for_board(&board);
    let actions = analyzer.applicable_actions(Blk);
    // 25 free squares, three kinds each
    assert_eq!(actions.len(), 75);
    assert!(actions.contains(&Action::Place(Position::new(0, 0), PieceKind::CapStone)));
}

#[test]
fn enumerates_slides_only_from_owned_stacks() {
    let mut board = Board::new(4);
    // a red stack of height 2 in the middle, a black stone in a corner
    board.set_forcefully(
        Position::new(1, 1),
        Stack::from_vec(vec![Piece::new(PieceKind::Stone, Red), Piece::new(PieceKind::Stone, Red)]),
    );
    put(&mut board, 3, 3, PieceKind::Stone, Blk);
    let analyzer = Analyzer::for_board(&board);
    let actions = analyzer.applicable_actions(Red);
    for a in &actions {
        if let Action::Slide(pos, _, carries) = a {
            assert_eq!(*pos, Position::new(1, 1));
            let v = carries.as_ref().unwrap();
            assert!(!v.is_empty());
            assert!(v.iter().all(|n| *n > 0));
            for w in v.windows(2) {
                assert!(w[1] < w[0]);
            }
            // h = min(2, 4) = 2, so the total carried is 1
            assert_eq!(v.iter().sum::<usize>(), 1);
        }
    }
    // from (1,1): h = 2; only north and east leave two squares of room
    // (min(h, d) = 2), so exactly one slide [1] is generated for each
    let slides: Vec<&Action> =
        actions.iter().filter(|a| matches!(a, Action::Slide(..))).collect();
    assert_eq!(slides.len(), 2);
    assert!(actions.contains(&Action::Slide(Position::new(1, 1), Direction::North, Some(vec![1]))));
    assert!(actions.contains(&Action::Slide(Position::new(1, 1), Direction::East, Some(vec![1]))));
    // black's own enumeration slides only from its corner stone, where
    // h = min(1, 4) = 1 allows no carry at all
    let blk_actions = analyzer.applicable_actions(Blk);
    assert!(blk_actions.iter().all(|a| matches!(a, Action::Place(..))));
}

#[test]
fn metric_cells_are_independent() {
    let board = Board::new(3);
    let analyzer = Analyzer::for_board(&board);
    let mut stones = analyzer.stones_left();
    *stones.of_mut(Red) -= 1;
    assert_eq!(stones.of(Red), 9);
    assert_eq!(stones.of(Blk), 10);
}

#[test]
fn metrics_report_reserves_tops_and_heights() {
    let mut board = Board::new(5);
    put(&mut board, 0, 0, PieceKind::Stone, Red);
    put(&mut board, 0, 1, PieceKind::StandingStone, Red);
    board.set_forcefully(
        Position::new(2, 2),
        Stack::from_vec(vec![
            Piece::new(PieceKind::Stone, Red),
            Piece::new(PieceKind::Stone, Blk),
            Piece::new(PieceKind::Stone, Blk),
        ]),
    );
    let analyzer = Analyzer::for_board(&board);
    let dominance = analyzer.absolute_road_dominance();
    assert_eq!(dominance.of(Red), 2);
    assert_eq!(dominance.of(Blk), 1);
    let stones = analyzer.stones_left();
    assert_eq!(stones.of(Red), 21 - 3);
    assert_eq!(stones.of(Blk), 21 - 2);
    let caps = analyzer.caps_left();
    assert_eq!(caps.of(Red), 1);
    assert_eq!(caps.of(Blk), 1);
    let highest = analyzer.highest_stack();
    assert_eq!(highest.of(Red), 1);
    assert_eq!(highest.of(Blk), 3);
}
