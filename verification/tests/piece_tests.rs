use tak_simulator::piece::{Piece, PieceKind, Stack};
use tak_simulator::player::Color;
use tak_simulator::player::Color::{Blk, Red};

fn stone(c: Color) -> Piece {
    Piece::new(PieceKind::Stone, c)
}

fn cap_stone(c: Color) -> Piece {
    Piece::new(PieceKind::CapStone, c)
}

fn standing(c: Color) -> Piece {
    Piece::new(PieceKind::StandingStone, c)
}

fn single_stone(c: Color) -> Stack {
    Stack::from_vec(vec![stone(c)])
}

fn single_standing(c: Color) -> Stack {
    Stack::from_vec(vec![standing(c)])
}

fn single_cap(c: Color) -> Stack {
    Stack::from_vec(vec![cap_stone(c)])
}

fn stack_stone_rbr() -> Stack {
    Stack::from_vec(vec![stone(Red), stone(Blk), stone(Red)])
}

fn stack_with_cap_rbr() -> Stack {
    Stack::from_vec(vec![stone(Red), stone(Blk), cap_stone(Red)])
}

fn stack_with_standing_rbr() -> Stack {
    Stack::from_vec(vec![stone(Red), stone(Blk), standing(Red)])
}

#[test]
fn take_off() {
    let mut subject = stack_with_cap_rbr();
    assert_eq!(subject.take_off(0), Stack::from_vec(Vec::new()));
    assert_eq!(subject, stack_with_cap_rbr());
    assert_eq!(subject.take_off(1), single_cap(Red));
    assert_eq!(subject, Stack::from_vec(vec![stone(Red), stone(Blk)]));
    assert_eq!(subject.take_off(1), single_stone(Blk));
    assert_eq!(subject, single_stone(Red));
    assert_eq!(subject.take_off(1), single_stone(Red));
    assert_eq!(subject, Stack::from_vec(Vec::new()));
}

#[test]
fn flattening_standing_success() {
    let mut control = stack_with_standing_rbr();
    let mut subject = control.clone();
    let top = single_cap(Red);
    assert!(subject.compatible_with(&top));
    subject.add_stack(top.clone());
    assert_eq!(subject.take_off(top.len()), top);
    let _ = control.take_off(1);
    control.add_piece(Piece::new(PieceKind::Stone, Color::Red));
    assert_eq!(subject, control);
}

#[test]
fn flattening_standing_fail() {
    let bot = stack_with_standing_rbr();
    let top = stack_with_cap_rbr();
    assert!(!bot.compatible_with(&top));
}

#[test]
fn flattening_capstone_fail() {
    let bot = stack_with_standing_rbr();
    let top = stack_with_cap_rbr();
    assert!(!bot.compatible_with(&top));
}

#[test]
fn test_compatible_stack() {
    let bot = stack_with_cap_rbr();
    let top = single_stone(Red);
    assert!(!bot.compatible_with(&top));
}

#[test]
fn test_compatible_solo() {
    let bot = single_cap(Red);
    let top = single_stone(Red);
    assert!(!bot.compatible_with(&top));
}

#[test]
fn test_compatible_stone() {
    let bot = single_stone(Red);
    let top = single_cap(Red);
    assert!(bot.compatible_with(&top));
}

#[test]
fn test_compatible_standing() {
    let bot = single_stone(Red);
    let top = single_standing(Red);
    assert!(bot.compatible_with(&top));
}

#[test]
fn test_nth() {
    let mut s0 = stack_stone_rbr();
    let s1 = stack_with_standing_rbr();
    let s2 = single_cap(Blk);
    s0.add_stack(s1);
    s0.add_stack(s2);
    // Red Blk Red Red Blk Red Blk
    // Sto Sto Sto Sto Sto Sto Cap
    // 6   5   4   3   2   1   0
    assert_eq!(s0.nth_piece(0), cap_stone(Blk));
    assert_eq!(s0.nth_piece(1), stone(Red));
    assert_eq!(s0.nth_piece(2), stone(Blk));
    assert_eq!(s0.nth_piece(3), stone(Red));
    assert_eq!(s0.nth_piece(4), stone(Red));
    assert_eq!(s0.nth_piece(5), stone(Blk));
    assert_eq!(s0.nth_piece(6), stone(Red));
}

// The full compatibility table: a stone top accepts anything, an empty
// square accepts anything, a standing top accepts exactly a lone capstone,
// a capstone top accepts nothing.
#[test]
fn compatibility_table_on_every_top() {
    let stone_bot = single_stone(Red);
    let standing_bot = single_standing(Blk);
    let cap_bot = single_cap(Red);
    let empty = Stack::empty();
    let lone_cap = single_cap(Blk);
    let tall = Stack::from_vec(vec![stone(Blk), cap_stone(Blk)]);
    let flat = single_stone(Blk);

    assert!(stone_bot.compatible_with(&lone_cap));
    assert!(stone_bot.compatible_with(&tall));
    assert!(stone_bot.compatible_with(&flat));
    assert!(empty.compatible_with(&lone_cap));
    assert!(empty.compatible_with(&tall));
    assert!(standing_bot.compatible_with(&lone_cap));
    assert!(!standing_bot.compatible_with(&tall));
    assert!(!standing_bot.compatible_with(&flat));
    assert!(!cap_bot.compatible_with(&lone_cap));
    assert!(!cap_bot.compatible_with(&tall));
    assert!(!cap_bot.compatible_with(&flat));
}

#[test]
fn flatten_changes_only_a_standing_top() {
    let mut s = stack_with_standing_rbr();
    s.flatten();
    assert_eq!(s, stack_stone_rbr());
    let mut c = stack_with_cap_rbr();
    c.flatten();
    assert_eq!(c, stack_with_cap_rbr());
    let mut e = Stack::empty();
    e.flatten();
    assert_eq!(e, Stack::empty());
}

#[test]
fn peek_from_top_leaves_stack_unchanged() {
    let s = stack_with_cap_rbr();
    let peeked = s.peek_from_top(2);
    assert_eq!(peeked, Stack::from_vec(vec![stone(Blk), cap_stone(Red)]));
    assert_eq!(s, stack_with_cap_rbr());
    assert_eq!(s.len(), 3);
    assert!(s.is_road());
    assert!(!s.is_empty());
    assert!(!s.is_atomic());
    assert_eq!(s.color(), Some(Red));
}

#[test]
fn road_and_flattening_predicates() {
    assert!(single_stone(Red).is_road());
    assert!(single_cap(Red).is_road());
    assert!(!single_standing(Red).is_road());
    assert!(!Stack::empty().is_road());
    assert!(single_cap(Blk).is_flattening());
    assert!(!single_stone(Blk).is_flattening());
    assert!(!stack_with_cap_rbr().is_flattening());
    assert!(single_standing(Red).is_flattenable());
    assert!(single_stone(Red).is_flattenable());
    assert!(!single_cap(Red).is_flattenable());
    assert!(single_stone(Red).is_stackable());
    assert!(!single_standing(Red).is_stackable());
    assert!(!single_cap(Red).is_stackable());
}
