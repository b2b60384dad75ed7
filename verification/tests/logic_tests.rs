use tak_simulator::actions::{Action, Move};
use tak_simulator::board::{Board, Direction};
use tak_simulator::game_over::{MatchResult, Outcome};
use tak_simulator::logic::Logic;
use tak_simulator::piece::{Piece, PieceKind, Stack};
use tak_simulator::player::Color;
use tak_simulator::player::Color::{Blk, Red};
use tak_simulator::position::Position;

fn single_stone(c: Color) -> Stack {
    Stack::from_vec(vec![Piece::new(PieceKind::Stone, c)])
}

fn parse_single(s: &str) -> Stack {
    let s = s.to_lowercase();
    if s.len() == 1 {
        assert_eq!(s, "!");
        Stack::empty()
    } else {
        assert_eq!(s.len() % 2, 0);
        let mut stack = Vec::new();
        let mut cs = s.chars();
        while let Some(c) = cs.next() {
            let color = match c {
                'r' => Red,
                'b' => Blk,
                sym => panic!("Unrecognized symbol `{}`.", sym),
            };
            let kind = match cs.next() {
                Some('s') => PieceKind::Stone,
                Some('w') | Some('x') => PieceKind::StandingStone,
                Some('c') => PieceKind::CapStone,
                Some(_) => panic!("Unrecognized symbol"),
                None => unreachable!(),
            };
            stack.push(Piece::new(kind, color));
        }
        Stack::from_vec(stack)
    }
}

fn parse(width: usize, s: &str) -> Board {
    let mut row = width; // Row 0 is supposed to be the last row.
    let mut col = 0;
    let mut board = Board::new(width);
    for stack in s.split_whitespace().map(parse_single) {
        if !stack.is_empty() {
            board.set_forcefully(Position::new(row - 1, col), stack);
        }
        col += 1;
        if col == width {
            col = 0;
            row -= 1;
        }
    }
    board
}

fn apply(b: &str, width: usize, action: Action, color: Color) -> (Logic, Option<Outcome>) {
    let board = parse(width, b);
    let mut ml = Logic::from_board(board);
    let oc = ml.apply(Move { action, player: color });
    (ml, oc)
}

fn applicable(b: &str, width: usize, action: Action, color: Color) -> bool {
    let board = parse(width, b);
    let ml = Logic::from_board(board);
    ml.applicable(&Move { action, player: color })
}

#[test]
fn test_place_on_empty() {
    let s = "\
        ! ! !
        ! ! !
        ! ! !
        ";
    let target = Position::new(1, 2);
    let action = Action::Place(target, PieceKind::Stone);
    let (ml, oc) = apply(s, 3, action, Red);
    let board = ml.peek();
    let mut it = board.iter().with_pos();
    while let Some((pos, stack)) = it.next() {
        if pos == target {
            assert_eq!(stack, &single_stone(Red));
        } else {
            assert_eq!(stack, &Stack::empty());
        }
    }
    assert!(oc.is_none())
}

#[test]
fn test_applicable_place_invalid() {
    let s = "\
        RS ! !
        !  ! !
        !  ! !
        ";
    let target = Position::new(2, 0);
    let action = Action::Place(target, PieceKind::Stone);
    assert!(!applicable(s, 3, action, Red));
}

#[test]
fn test_applicable_place_invalid_flatten() {
    let s = "\
        RX ! !
        !  ! !
        !  ! !
        ";
    let target = Position::new(0, 0);
    let action = Action::Place(target, PieceKind::CapStone);
    assert!(!applicable(s, 3, action, Red));
}

#[test]
fn test_applicable_invalid_move_on_wall() {
    let s = "\
        RX RS !
        !  ! !
        !  ! !
        ";
    let source = Position::new(2, 1);
    let action = Action::Slide(source, Direction::West, Some(vec![1]));
    assert!(!applicable(s, 3, action, Red));
}

#[test]
fn test_apply_move_on_stone() {
    let start = "\
        RS RS !
        !  ! !
        !  ! !
        ";
    let expected = parse(
        3,
        "\
        RSRS ! !
        !    ! !
        !    ! !
        ",
    );
    let source = Position::new(2, 1);
    let action = Action::Slide(source, Direction::West, Some(vec![1]));
    let (ml, oc) = apply(start, 3, action, Red);
    assert!(oc.is_none());
    let was = ml.peek();
    assert_eq!(was, &expected);
}

#[test]
fn test_apply_move_on_wall() {
    let start = "\
        RX RC ! ! !
        !  !  ! ! !
        !  !  ! ! !
        !  !  ! ! !
        ";
    let expected = parse(
        5,
        "\
        RSRC ! ! ! !
        !    ! ! ! !
        !    ! ! ! !
        !    ! ! ! !
        ",
    );
    let source = Position::new(4, 1);
    let action = Action::Slide(source, Direction::West, Some(vec![1]));
    let (ml, oc) = apply(start, 5, action, Red);
    assert!(oc.is_none());
    let was = ml.peek();
    assert_eq!(was, &expected);
}

#[test]
fn test_apply_slide() {
    let start = "\
        !        !  ! !
        !        !  ! !
        RSBSRSRX RS ! !
        !        !  ! !
        ";
    let expected = parse(
        4,
        "\
        !  !    !    !
        !  !    !    !
        RS RSBS RSRX !
        !  !    !    !
        ",
    );
    let source = Position::new(1, 0);
    let action = Action::Slide(source, Direction::East, Some(vec![3, 2]));
    let (ml, oc) = apply(start, 4, action, Red);
    assert!(oc.is_none());
    let was = ml.peek();
    assert_eq!(was, &expected);
}

#[test]
fn test_apply_slide_invalid_non_dec() {
    let start = "\
        !        !  ! !
        !        !  ! !
        RSBSRSRX RS ! !
        !        !  ! !
        ";
    let source = Position::new(1, 0);
    let action = Action::Slide(source, Direction::East, Some(vec![3, 3]));
    assert!(!applicable(start, 4, action, Red));
}

#[test]
fn test_apply_slide_invalid_too_many() {
    let start = "\
        !        !  ! !
        !        !  ! !
        RSBSRSRX RS ! !
        !        !  ! !
        ";
    let source = Position::new(1, 0);
    let action = Action::Slide(source, Direction::East, Some(vec![5, 1]));
    assert!(!applicable(start, 4, action, Red));
}

#[test]
fn test_game_over() {
    let start = "\
        !          !  ! ! !
        !          !  ! ! !
        !          !  ! ! !
        RSRSRSRSRC BS ! ! !
        !          !  ! ! !
        ";
    let expected = parse(
        5,
        "\
        !  !    !  !  !
        !  !    !  !  !
        !  !    !  !  !
        RS BSRS RS RS RC
        !  !    !  !  !
        ",
    );
    let source = Position::new(1, 0);
    let action = Action::Slide(source, Direction::East, Some(vec![4, 3, 2, 1]));
    let (ml, oc) = apply(start, 5, action, Red);
    let was = ml.peek();
    assert_eq!(was, &expected);
    assert!(oc.is_some());
    let oc = oc.unwrap();
    assert_eq!(oc.board, expected);
    assert_eq!(oc.result, MatchResult::Winner(Color::Red));
}

// End-to-end opening on a 3-board: Red's first action places the stone at
// (1, 2); under the first-move rule the piece carries the opponent's colour,
// every other square stays empty, and the game goes on.
#[test]
fn first_turn_places_for_the_opponent() {
    let mut logic = Logic::new(3);
    logic.first_turn(Position::new(1, 2), Red);
    let board = logic.peek();
    let mut it = board.iter().with_pos();
    while let Some((pos, stack)) = it.next() {
        if pos == Position::new(1, 2) {
            assert_eq!(stack, &single_stone(Blk));
        } else {
            assert_eq!(stack, &Stack::empty());
        }
    }
    assert_eq!(board.piece_count(Blk, PieceKind::Stone), 9);
    assert_eq!(board.piece_count(Red, PieceKind::Stone), 10);
    assert!(logic.get_outcome().is_none());
}

#[test]
fn applicable_rejects_empty_and_zero_carries() {
    let s = "\
        ! ! !
        ! ! !
        RS ! !
        ";
    let src = Position::new(0, 0);
    assert!(!applicable(s, 3, Action::Slide(src, Direction::East, Some(vec![])), Red));
    assert!(!applicable(s, 3, Action::Slide(src, Direction::East, Some(vec![0])), Red));
    assert!(!applicable(s, 3, Action::Slide(src, Direction::East, Some(vec![1, 0])), Red));
}

#[test]
fn applicable_rejects_unowned_and_empty_source() {
    let s = "\
        ! ! !
        ! ! !
        BS ! !
        ";
    let src = Position::new(0, 0);
    assert!(!applicable(s, 3, Action::Slide(src, Direction::East, Some(vec![1])), Red));
    assert!(applicable(s, 3, Action::Slide(src, Direction::East, Some(vec![1])), Blk));
    let empty_src = Position::new(1, 1);
    assert!(!applicable(s, 3, Action::Slide(empty_src, Direction::East, Some(vec![1])), Red));
}

#[test]
fn applicable_rejects_out_of_bounds_slides() {
    let s = "\
        ! ! !
        ! ! !
        ! ! RS
        ";
    let src = Position::new(0, 2);
    assert!(!applicable(s, 3, Action::Slide(src, Direction::East, Some(vec![1])), Red));
    assert!(!applicable(s, 3, Action::Slide(src, Direction::South, Some(vec![1])), Red));
    assert!(applicable(s, 3, Action::Slide(src, Direction::West, Some(vec![1])), Red));
    assert!(applicable(s, 3, Action::Slide(src, Direction::North, Some(vec![1])), Red));
    let off = Position::new(0, 3);
    assert!(!applicable(s, 3, Action::Slide(off, Direction::West, Some(vec![1])), Red));
    assert!(!applicable(s, 3, Action::Place(off, PieceKind::Stone), Red));
}

// An omitted carry list means "the whole stack one square onward".
#[test]
fn slide_without_carries_moves_the_whole_stack() {
    let start = "\
        ! !    !
        ! RSBS !
        ! !    !
        ";
    let expected = parse(
        3,
        "\
        ! !    !
        ! !    RSBS
        ! !    !
        ",
    );
    let src = Position::new(1, 1);
    let action = Action::Slide(src, Direction::East, None);
    assert!(applicable(start, 3, action.clone(), Blk));
    let (ml, oc) = apply(start, 3, action, Blk);
    assert!(oc.is_none());
    assert_eq!(ml.peek(), &expected);
}

#[test]
fn applicable_rejects_incompatible_later_hop() {
    let start = "\
        !      !  !  !
        !      !  !  !
        RSRSRS RS BC !
        !      !  !  !
        ";
    let src = Position::new(1, 0);
    // the second hop would land on a capstone
    assert!(!applicable(start, 4, Action::Slide(src, Direction::East, Some(vec![2, 1])), Red));
    // one hop onto the stone is fine
    assert!(applicable(start, 4, Action::Slide(src, Direction::East, Some(vec![2])), Red));
}

#[test]
fn apply_records_the_move() {
    let mut logic = Logic::new(4);
    assert!(logic.last_applied_move().is_none());
    let mv = Move { action: Action::Place(Position::new(2, 2), PieceKind::Stone), player: Red };
    assert!(logic.applicable(&mv));
    let oc = logic.apply(mv.clone());
    assert!(oc.is_none());
    assert_eq!(logic.last_applied_move(), &Some(mv));
}
