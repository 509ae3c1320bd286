use othello::bitboard::BitBoard;
use othello::bitboardgame::BitBoardBoard;
use othello::default::DefaultBoard;
use othello::game::{Board, Colour, Move};
use othello::state::{convert_board, random_board, GameRepr};

#[test]
fn test_new() {
    let bb = BitBoardBoard::new();

    assert_eq!((2, 2), bb.scores());
}

#[test]
fn test_new_moves() {
    let bb = BitBoardBoard::new();
    let mask = bb.move_mask(Colour::Black);
    let expected_moves = BitBoard::from_positions(&[(2, 4), (3, 5), (4, 2), (5, 3)]);
    assert_eq!(expected_moves, mask);
    let all_moves = bb.moves(Colour::Black);
    assert_eq!(4, all_moves.len());
}

#[test]
fn bitboardgame_test_apply_move() {
    let bb = BitBoardBoard::new();
    for mov in bb.moves(Colour::Black) {
        let bb2 = bb.apply(mov);
        assert_eq!((4, 1), bb2.scores());
    }
    for mov in bb.moves(Colour::White) {
        let bb2 = bb.apply(mov);
        assert_eq!((1, 4), bb2.scores());
    }

    let game: GameRepr<BitBoardBoard> = GameRepr::parse(
        "\n\
        ·●●●●●\n\
        ·●○○○●\n\
        ·●○·○●\n\
        ·●○○○●\n\
        ·●●●●●",
    )
    .expect("ok");
    let mov = Move { player: Colour::White, row: 3, col: 3 };
    let game2 = game.apply(mov);
    let expected_game: GameRepr<BitBoardBoard> = GameRepr::parse(
        "\n\
        ·●●●●●\n\
        ·●●●●●\n\
        ·●●●●●\n\
        ·●●●●●\n\
        ·●●●●●",
    )
    .expect("ok");
    assert_eq!(expected_game.board, game2.board);
}

#[test]
fn test_apply_move_bug1() {
    let game: GameRepr<BitBoardBoard> = GameRepr::parse("○○○●○●●·").expect("ok");
    let mov = Move { player: Colour::Black, row: 0, col: 7 };
    let game2 = game.apply(mov);
    let expected_game: GameRepr<BitBoardBoard> = GameRepr::parse("○○○●○○○○").expect("ok");
    assert_eq!(expected_game.board, game2.board);
}

fn same_cells(a: &BitBoardBoard, b: &DefaultBoard) -> bool {
    for i in 0..8 {
        for j in 0..8 {
            if a.get(i, j) != b.get(i, j) {
                return false;
            }
        }
    }
    true
}

#[test]
fn test_random_boards() {
    let mut failed = false;

    for _ in 0..1000 {
        let bitboard: BitBoardBoard = random_board();
        let default_board: DefaultBoard = convert_board(&bitboard);
        assert!(same_cells(&bitboard, &default_board));

        for player in [Colour::Black, Colour::White] {
            let default_moves = default_board.moves(player);
            let bb_moves = bitboard.moves(player);
            let mut default_mask = BitBoard::new();
            for mov in &default_moves {
                default_mask = default_mask.or(BitBoard::from_pos(mov.row, mov.col));
            }
            if default_mask != bitboard.move_mask(player) || default_moves != bb_moves {
                println!("moves differ:\n{}", GameRepr { next_turn: player, board: default_board }.render());
                failed = true;
                continue;
            }
            for mov in bb_moves {
                let bb2 = bitboard.apply(mov);
                let def2 = default_board.apply(mov);
                if !same_cells(&bb2, &def2) || bb2.scores() != def2.scores() {
                    println!("results differ after {:?}", mov);
                    failed = true;
                }
            }
        }
    }

    if failed {
        panic!("at least one board didn't match");
    }
}
