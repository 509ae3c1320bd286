use othello::ai::{evaluate_immediate, AIInfo};
use othello::default::DefaultBoard;
use othello::game::{Colour, Score};
use othello::minimax::evaluate_to_depth;
use othello::state::{Game, GameRepr};

#[test]
fn test_minimax_test_depth_0() {
    let game: GameRepr<DefaultBoard> = GameRepr::parse("●○○○").expect("ok");

    let mut info = AIInfo::default();

    let score = evaluate_to_depth(&game, Colour::Black, 0, &mut info);
    assert_eq!(2, score);

    let score = evaluate_to_depth(&game, Colour::White, 0, &mut info);
    assert_eq!(-2, score);
}

/* Estimate the value of a game assuming the opponent makes its best move, i.e. the worst
move for us! */
fn estimate_game(game: &GameRepr<DefaultBoard>) -> Score {
    let mut best_score = Score::MAX;
    let mut best_move = None;
    for mov in game.valid_moves(game.next_turn) {
        let game2 = game.apply(mov);
        let score = evaluate_immediate(&game2, Colour::Black);
        println!("{mov:?} yields score {score} with game\n{}", game2.render());
        if score < best_score {
            best_score = score;
            best_move = Some(mov);
        }
    }
    println!("Best score for opponent is therefore {best_score} on {best_move:?}");
    best_score
}

#[test]
fn test_minimax_test_depth_1() {
    let mut game: GameRepr<DefaultBoard> = GameRepr::parse(
        "\n\
    ·●○○○\n\
    ·○○\n\
    ·○",
    )
    .expect("ok");

    let mut info = AIInfo::default();

    /* Assume Black has just made a move and wants to evaluate the resulting game. */
    game.next_turn = Colour::White;
    let expected_score = estimate_game(&game);

    let score = evaluate_to_depth(&game, Colour::Black, 1, &mut info);
    assert_eq!(expected_score, score);
}
