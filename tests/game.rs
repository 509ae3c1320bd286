use othello::default::DefaultBoard;
use othello::game::{Colour, Move};
use othello::state::{Game, GameParseError, GameRepr};

#[test]
fn test_game_test_initial_layout() {
    let game: GameRepr<DefaultBoard> = GameRepr::new();

    assert_eq!(None, game.get_piece(0, 0));
    assert_eq!(Some(Colour::Black), game.get_piece(3, 3));
    assert_eq!(Some(Colour::White), game.get_piece(3, 4));
    assert_eq!(Some(Colour::White), game.get_piece(4, 3));
    assert_eq!(Some(Colour::Black), game.get_piece(4, 4));

    assert_eq!(Colour::Black, game.next_turn);
}

#[test]
fn test_game_test_debug() {
    let game: GameRepr<DefaultBoard> = GameRepr::new();

    let str = game.render();

    assert_eq!(
        "········\n········\n········\n\
        ···○●···\n\
        ···●○···\n\
        ········\n········\n········\n",
        str
    );
}

#[test]
fn test_game_test_from_string() {
    let game_str = "○●●·····\n········\n········\n\
        ···○●···\n\
        ···●○···\n\
        ········\n········\n········\n";

    let game: GameRepr<DefaultBoard> = GameRepr::parse(game_str).expect("string should be valid");

    assert_eq!(Some(Colour::Black), game.get_piece(0, 0));
    assert_eq!(Some(Colour::White), game.get_piece(0, 1));
    assert_eq!(Some(Colour::White), game.get_piece(0, 2));
    assert_eq!(Some(Colour::Black), game.get_piece(3, 3));
    assert_eq!(Some(Colour::White), game.get_piece(3, 4));
    assert_eq!(Some(Colour::White), game.get_piece(4, 3));
    assert_eq!(Some(Colour::Black), game.get_piece(4, 4));

    assert_eq!(Colour::Black, game.next_turn);
}

#[test]
fn test_game_test_from_bad_string() {
    let res: Result<GameRepr<DefaultBoard>, _> = GameRepr::parse("●●●●●●●●○");
    assert_eq!(Some(GameParseError::TooManyColumns), res.err());

    let res: Result<GameRepr<DefaultBoard>, _> = GameRepr::parse("●\n●\n●\n●\n●\n●\n●\n●\n○");
    assert_eq!(Some(GameParseError::TooManyRows), res.err());

    let res: Result<GameRepr<DefaultBoard>, _> = GameRepr::parse("qwerty");
    assert_eq!(Some(GameParseError::InvalidPiece), res.err());
}

#[test]
fn test_game_test_initial_moves() {
    let game: GameRepr<DefaultBoard> = GameRepr::new();

    let mut moves = game.valid_moves(Colour::Black).into_iter();

    assert_eq!(Some(Move { player: Colour::Black, row: 2, col: 4 }), moves.next());
    assert_eq!(Some(Move { player: Colour::Black, row: 3, col: 5 }), moves.next());
    assert_eq!(Some(Move { player: Colour::Black, row: 4, col: 2 }), moves.next());
    assert_eq!(Some(Move { player: Colour::Black, row: 5, col: 3 }), moves.next());
    assert_eq!(None, moves.next());
}

#[test]
fn test_game_test_apply_move() {
    let game: GameRepr<DefaultBoard> = GameRepr::new();

    let mov = Move { player: Colour::Black, row: 2, col: 4 };

    let game2 = game.apply(mov);
    assert_eq!(Colour::White, game2.next_turn);

    let str = game2.render();

    assert_eq!(
        "········\n········\n\
        ····○···\n\
        ···○○···\n\
        ···●○···\n\
        ········\n········\n········\n",
        str
    );
}

#[test]
fn test_game_test_no_moves() {
    let game: GameRepr<DefaultBoard> = GameRepr::parse("○●●●●●●●\n").unwrap();

    let mut moves = game.valid_moves(Colour::Black).into_iter();
    assert_eq!(None, moves.next());
}
