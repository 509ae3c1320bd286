use othello::bitboard::{dumb7fill_occluded, BitBoard, ShiftDir};

#[test]
fn test_next_bit() {
    let bb = BitBoard::from_positions(&[(0, 0), (0, 6)]);
    let nb = bb.next_bit();
    assert_eq!(BitBoard::from_positions(&[(0, 0)]), nb);
}

#[test]
fn test_from() {
    let bb = BitBoard::from_pos(4, 2);
    assert_eq!(1 << (4 * 8 + 2), bb.0);
    assert_eq!(true, bb.bit(4, 2));
    assert_eq!(1, bb.count());

    let bb = BitBoard::from_text("X·····X·");
    assert_eq!(BitBoard::from_positions(&[(0, 0), (0, 6)]), bb);
}

#[test]
fn test_tostr() {
    let bb = BitBoard::from_pos(4, 2);
    let s: String = bb.to_text();
    assert_eq!("········\n········\n········\n········\n··X·····\n········\n········\n········", &s);
}

#[test]
fn test_shift() {
    let bb = BitBoard::from_positions(&[(4, 0), (3, 3)]);

    assert_eq!(BitBoard::from_positions(&[(3, 0), (2, 3)]), bb.shift(ShiftDir::Up.shift()));
    assert_eq!(BitBoard::from_positions(&[(5, 0), (4, 3)]), bb.shift(ShiftDir::Down.shift()));

    assert_eq!(BitBoard::from_pos(3, 2), bb.shift(ShiftDir::Left.shift()));
    assert_eq!(BitBoard::from_positions(&[(4, 1), (3, 4)]), bb.shift(ShiftDir::Right.shift()));
}

#[test]
fn test_dumb7fill() {
    let gen = BitBoard::from_text("X··X···X");
    let pro = BitBoard::from_text("·XXX··X·");

    let filled = dumb7fill_occluded(gen, pro, -1);
    assert_eq!(BitBoard::from_text("·XX···X·"), filled);
}

#[test]
fn shift_does_not_wrap_between_edges() {
    let right_edge = BitBoard::from_positions(&[(2, 7), (5, 7)]);
    assert!(right_edge.shift(1).is_empty());
    assert!(right_edge.shift(9).is_empty());
    assert!(right_edge.shift(-7).is_empty());
    let left_edge = BitBoard::from_positions(&[(2, 0), (5, 0)]);
    assert!(left_edge.shift(-1).is_empty());
    assert!(left_edge.shift(7).is_empty());
    assert!(left_edge.shift(-9).is_empty());
    assert_eq!(BitBoard::from_positions(&[(3, 6), (6, 6)]), right_edge.shift(7));
    let top = BitBoard::from_pos(0, 4);
    assert!(top.shift(-8).is_empty());
    assert_eq!(BitBoard::from_pos(1, 4), top.shift(8));
}

#[test]
fn full_fill_keeps_seed_and_reverse_is_opposite() {
    let gen = BitBoard::from_text("X··X···X");
    let pro = BitBoard::from_text("·XXX··X·");
    let filled = othello::bitboard::dumb7fill(gen, pro, -1);
    assert_eq!(BitBoard::from_text("XXXX··XX"), filled);
    for dir in ShiftDir::all() {
        assert_eq!(-dir.shift(), dir.reverse().shift());
    }
}

#[test]
fn pop_next_bit_takes_lowest() {
    let mut bb = BitBoard::from_positions(&[(1, 3), (0, 5), (7, 7)]);
    let first = bb.pop_next_bit();
    assert_eq!(BitBoard::from_pos(0, 5), first);
    assert_eq!((0, 5), first.to_bit_pos());
    assert_eq!(BitBoard::from_positions(&[(1, 3), (7, 7)]), bb);
    assert_eq!(2, bb.count());
    let mut empty = BitBoard::new();
    assert!(empty.pop_next_bit().is_empty());
    assert!(empty.next_bit().is_empty());
}
