use othello::ai::{evaluate_immediate, AIInfo, AI};
use othello::alphabeta::{AlphaBetaAI, WINDOW};
use othello::bitboard::BitBoard;
use othello::bitboardgame::BitBoardBoard;
use othello::default::DefaultBoard;
use othello::game::{Board, Colour, Move};
use othello::immediate::ImmediateAI;
use othello::minimax::MinimaxAI;
use othello::random::RandomAI;
use othello::selfplay::{simulate_many_games, simulate_one_game};
use othello::state::{convert, random_board, Game, GameParseError, GameRepr};
use othello::strategy::AIType;

fn mv(player: Colour, row: i8, col: i8) -> Move {
    Move { player, row, col }
}

#[test]
fn initial_moves_of_both_colours() {
    let game: GameRepr<BitBoardBoard> = GameRepr::new();
    assert_eq!(
        vec![mv(Colour::Black, 2, 4), mv(Colour::Black, 3, 5), mv(Colour::Black, 4, 2), mv(Colour::Black, 5, 3)],
        game.valid_moves(Colour::Black)
    );
    assert_eq!(
        vec![mv(Colour::White, 2, 3), mv(Colour::White, 3, 2), mv(Colour::White, 4, 5), mv(Colour::White, 5, 4)],
        game.valid_moves(Colour::White)
    );
    let dense: GameRepr<DefaultBoard> = GameRepr::new();
    assert_eq!(game.valid_moves(Colour::White), dense.valid_moves(Colour::White));
}

#[test]
fn first_move_flips_one_disc() {
    let game: GameRepr<BitBoardBoard> = GameRepr::new();
    let after = game.apply(mv(Colour::Black, 2, 4));
    assert_eq!(Colour::White, after.next_turn);
    for i in 0..8 {
        for j in 0..8 {
            let expected = if (i, j) == (2, 4) || (i, j) == (3, 4) {
                Some(Colour::Black)
            } else {
                game.get_piece(i, j)
            };
            assert_eq!(expected, after.get_piece(i, j));
        }
    }
    assert_eq!((4, 1), after.scores());
}

#[test]
fn unreachable_corner_gives_no_moves() {
    let mut text = String::from("·●●●●●●●\n");
    for _ in 0..7 {
        text.push_str("●●●●●●●●\n");
    }
    let bits: GameRepr<BitBoardBoard> = GameRepr::parse(&text).unwrap();
    let dense: GameRepr<DefaultBoard> = GameRepr::parse(&text).unwrap();
    assert!(bits.valid_moves(Colour::Black).is_empty());
    assert!(dense.valid_moves(Colour::Black).is_empty());
    assert!(!bits.is_valid_move(mv(Colour::Black, 0, 0)));
    assert!(!dense.is_valid_move(mv(Colour::Black, 0, 0)));
    assert_eq!((0, 63), bits.scores());
}

#[test]
fn capture_in_every_direction() {
    let text = "○·○·○\n·●●●\n○●·●○\n·●●●\n○·○·○";
    let bits: GameRepr<BitBoardBoard> = GameRepr::parse(text).unwrap();
    let dense: GameRepr<DefaultBoard> = GameRepr::parse(text).unwrap();
    let m = mv(Colour::Black, 2, 2);
    assert!(bits.is_valid_move(m));
    assert!(dense.is_valid_move(m));
    let b2 = bits.apply(m);
    let d2 = dense.apply(m);
    assert_eq!((17, 0), b2.scores());
    assert_eq!(b2.render(), d2.render());
    assert!(!bits.is_valid_move(mv(Colour::Black, 8, 0)));
    assert!(!dense.is_valid_move(mv(Colour::Black, -1, 3)));
}

#[test]
fn depth_zero_is_material_balance() {
    let game: GameRepr<DefaultBoard> = GameRepr::parse("○●●●").unwrap();
    let mut info = AIInfo::new();
    assert_eq!(-2, othello::minimax::evaluate_to_depth(&game, Colour::Black, 0, &mut info));
    assert_eq!(2, othello::minimax::evaluate_to_depth(&game, Colour::White, 0, &mut info));
    assert_eq!(-2, evaluate_immediate(&game, Colour::Black));
    assert_eq!(2, info.last_nodes_searched);
    assert_eq!(2, othello::alphabeta::evaluate_to_depth(&game, Colour::White, -WINDOW, WINDOW, 0));
}

#[test]
fn pruned_search_matches_full_search() {
    let mut game: GameRepr<BitBoardBoard> = GameRepr::new();
    let mut chooser = RandomAI {};
    for ply in 0..20 {
        for depth in 0..4 {
            let mut info = AIInfo::new();
            for player in [Colour::Black, Colour::White] {
                let full = othello::minimax::evaluate_to_depth(&game, player, depth, &mut info);
                let pruned = othello::alphabeta::evaluate_to_depth(&game, player, -WINDOW, WINDOW, depth);
                assert_eq!(full, pruned);
            }
            let mut minimax = MinimaxAI::new(depth);
            let mut alphabeta = AlphaBetaAI { max_depth: depth };
            assert_eq!(minimax.choose_move(&game), alphabeta.choose_move(&game));
        }
        if ply % 5 == 0 {
            let mut minimax = MinimaxAI::new(4);
            let mut alphabeta = AlphaBetaAI { max_depth: 4 };
            assert_eq!(minimax.choose_move(&game), alphabeta.choose_move(&game));
        }
        match chooser.choose_move(&game) {
            Some(m) => game = game.apply(m),
            None => break,
        }
    }
}

#[test]
fn window_bounds_are_respected() {
    let game: GameRepr<BitBoardBoard> = GameRepr::new();
    let mut info = AIInfo::new();
    let exact = othello::minimax::evaluate_to_depth(&game, Colour::Black, 2, &mut info);
    let low = othello::alphabeta::evaluate_to_depth(&game, Colour::Black, exact, exact + 10, 2);
    assert!(low <= exact);
    let high = othello::alphabeta::evaluate_to_depth(&game, Colour::Black, exact - 10, exact, 2);
    assert!(high >= exact);
    let inside = othello::alphabeta::evaluate_to_depth(&game, Colour::Black, exact - 1, exact + 1, 2);
    assert_eq!(exact, inside);
}

#[test]
fn render_then_parse_round_trip() {
    for _ in 0..200 {
        let board: DefaultBoard = random_board();
        let game = GameRepr { next_turn: Colour::Black, board };
        let text = game.render();
        let back: GameRepr<BitBoardBoard> = GameRepr::parse(&text).unwrap();
        assert_eq!(text, back.render());
        for i in 0..8 {
            for j in 0..8 {
                assert_eq!(game.get_piece(i, j), back.get_piece(i, j));
            }
        }
    }
    let text = "○●·○●·○●\n········\n●●●●○○○○\n········\n········\n·······○\n········\n●·······\n";
    let game: GameRepr<DefaultBoard> = GameRepr::parse(text).unwrap();
    assert_eq!(text, game.render());
}

#[test]
fn parse_errors() {
    let too_wide: Result<GameRepr<DefaultBoard>, _> = GameRepr::parse("·········");
    assert_eq!(Some(GameParseError::TooManyColumns), too_wide.err());
    let too_tall: Result<GameRepr<DefaultBoard>, _> = GameRepr::parse("\n\n\n\n\n\n\n\n·");
    assert_eq!(Some(GameParseError::TooManyRows), too_tall.err());
    let trailing: Result<GameRepr<DefaultBoard>, _> = GameRepr::parse("·\n·\n·\n·\n·\n·\n·\n·\n\n\n");
    assert!(trailing.is_ok());
    let bad: Result<GameRepr<DefaultBoard>, _> = GameRepr::parse("··x");
    assert_eq!(Some(GameParseError::InvalidPiece), bad.err());
    let bad_first: Result<GameRepr<DefaultBoard>, _> = GameRepr::parse("·········\n\n\n\n\n\n\n\nX");
    assert_eq!(Some(GameParseError::TooManyColumns), bad_first.err());
    let empty: GameRepr<BitBoardBoard> = GameRepr::parse("").unwrap();
    assert_eq!((0, 0), empty.scores());
}

#[test]
fn minimax_counts_nodes() {
    let game: GameRepr<DefaultBoard> = GameRepr::new();
    let mut ai = MinimaxAI::new(1);
    let chosen = ai.choose_move(&game);
    assert!(chosen.is_some());
    let info = ai.info().unwrap();
    assert_eq!(4, info.last_num_choices);
    assert_eq!(16, info.last_nodes_searched);
    assert_eq!(16, info.total_nodes_searched);
    ai.choose_move(&game);
    assert_eq!(32, ai.info().unwrap().total_nodes_searched);
    assert!(AlphaBetaAI { max_depth: 1 }.info().is_none());
}

#[test]
fn immediate_choice_prefers_last_of_equals() {
    let game: GameRepr<DefaultBoard> = GameRepr::new();
    let mut ai = ImmediateAI {};
    assert_eq!(Some(mv(Colour::Black, 5, 3)), ai.choose_move(&game));
    let text = "·●●○\n\n·●○";
    let game: GameRepr<DefaultBoard> = GameRepr::parse(text).unwrap();
    assert_eq!(vec![mv(Colour::Black, 0, 0), mv(Colour::Black, 2, 0)], game.valid_moves(Colour::Black));
    assert_eq!(Some(mv(Colour::Black, 0, 0)), ai.choose_move(&game));
}

#[test]
fn random_choice_is_legal() {
    let game: GameRepr<DefaultBoard> = GameRepr::new();
    let legal = game.valid_moves(Colour::Black);
    let mut ai = RandomAI {};
    for _ in 0..50 {
        let m = ai.choose_move(&game).unwrap();
        assert!(legal.contains(&m));
    }
    let stuck: GameRepr<DefaultBoard> = GameRepr::parse("○●●●●●●●\n").unwrap();
    assert_eq!(None, ai.choose_move(&stuck));
}

#[test]
fn random_boards_vary() {
    let mut seen_black = false;
    let mut seen_white = false;
    let mut seen_empty = false;
    for _ in 0..5 {
        let board: BitBoardBoard = random_board();
        for i in 0..8 {
            for j in 0..8 {
                match board.get(i, j) {
                    Some(Colour::Black) => seen_black = true,
                    Some(Colour::White) => seen_white = true,
                    None => seen_empty = true,
                }
            }
        }
    }
    assert!(seen_black && seen_white && seen_empty);
}

#[test]
fn counts_and_conversion() {
    let bb = BitBoard::from_positions(&[(0, 0), (3, 3), (7, 7), (7, 0)]);
    assert_eq!(4, bb.count());
    assert_eq!(60, bb.not().count());
    let game: GameRepr<DefaultBoard> = GameRepr::parse("○●●\n·○").unwrap();
    let converted: GameRepr<BitBoardBoard> = convert(&game);
    assert_eq!((2, 2), converted.scores());
    assert_eq!(game.render(), converted.render());
}

#[test]
fn self_play_ends_without_moves() {
    for _ in 0..5 {
        let game = simulate_one_game(RandomAI {}, ImmediateAI {});
        assert!(game.valid_moves(game.next_turn).is_empty());
    }
    let total = simulate_many_games(&AlphaBetaAI { max_depth: 1 }, &RandomAI {}, 3);
    assert!(total.abs() <= 3 * 64);
}

#[test]
fn apply_in_place_passes_turn() {
    let mut game: GameRepr<BitBoardBoard> = GameRepr::new();
    game.apply_in_place(mv(Colour::Black, 3, 5));
    assert_eq!(Colour::White, Game::next_turn(&game));
    assert_eq!((4, 1), game.scores());
}

#[test]
fn chunks_share_the_games() {
    assert_eq!(vec![4, 4, 2], othello::selfplay::make_chunks(10, 3));
    assert_eq!(vec![5, 5], othello::selfplay::make_chunks(10, 2));
    assert_eq!(vec![1, 1, 1], othello::selfplay::make_chunks(3, 8));
    assert!(othello::selfplay::make_chunks(0, 4).is_empty());
}

#[test]
fn strategy_choice_dispatches() {
    let game: GameRepr<DefaultBoard> = GameRepr::new();
    let mut searching = AIType::MinimaxAI(MinimaxAI::new(2));
    let mut plain = MinimaxAI::new(2);
    assert_eq!(plain.choose_move(&game), searching.choose_move(&game));
    assert_eq!(plain.info().unwrap().total_nodes_searched, searching.info().unwrap().total_nodes_searched);
    let mut random = AIType::RandomAI(RandomAI {});
    assert!(random.choose_move(&game).is_some());
    assert!(random.info().is_none());
}

#[test]
fn move_walk_hands_out_moves_in_order() {
    let board = DefaultBoard::new();
    let mut walk = othello::default::ValidMoveIterator::new(&board, Colour::White);
    let mut seen = Vec::new();
    while let Some(m) = walk.next() {
        seen.push(m);
    }
    assert_eq!(board.moves(Colour::White), seen);
    assert_eq!(None, walk.next());
}

#[test]
fn random_playout_statistics() {
    for _ in 0..10 {
        let (turns, total_moves, max_moves, max_game) = othello::selfplay::run_one_game();
        assert!(turns >= 1 && turns <= 60);
        assert!(max_moves >= 1 && max_moves <= total_moves);
        let game = max_game.unwrap();
        assert_eq!(max_moves, game.valid_moves(game.next_turn).len());
    }
}

#[test]
fn move_names() {
    assert_eq!(('E', '3'), mv(Colour::Black, 2, 4).name());
    assert_eq!(('A', '1'), mv(Colour::White, 0, 0).name());
    assert_eq!(('H', '8'), mv(Colour::White, 7, 7).name());
}

#[test]
fn no_discs_means_no_moves() {
    let game: GameRepr<BitBoardBoard> = GameRepr::parse("·●●●●●●●\n●●●●●●●●\n·●·●").unwrap();
    assert!(game.valid_moves(Colour::Black).is_empty());
    assert_eq!((0, 17), game.scores());
}

#[test]
fn fresh_minimax_counters_are_zero() {
    let ai = MinimaxAI::new(3);
    assert_eq!(3, ai.max_depth);
    let info = ai.info().unwrap();
    assert_eq!(0, info.total_nodes_searched);
    assert_eq!(0, info.last_nodes_searched);
    assert_eq!(0, info.last_num_choices);
    assert!(RandomAI {}.info().is_none());
    assert!(ImmediateAI {}.info().is_none());
    assert!(AIType::RandomAI(RandomAI {}).info().is_none());
    assert_eq!(0, AIType::MinimaxAI(MinimaxAI::new(2)).info().unwrap().total_nodes_searched);
}

#[test]
fn board_from_listed_pieces() {
    let mut pieces = vec![None; 64];
    pieces[0] = Some(Colour::Black);
    pieces[9] = Some(Colour::White);
    pieces[63] = Some(Colour::Black);
    let bits: BitBoardBoard = othello::state::board_from_pieces(&pieces);
    let dense: DefaultBoard = othello::state::board_from_pieces(&pieces);
    for i in 0..64usize {
        let (row, col) = ((i / 8) as i8, (i % 8) as i8);
        assert_eq!(pieces[i], bits.get(row, col));
        assert_eq!(pieces[i], dense.get(row, col));
    }
    assert_eq!((2, 1), bits.scores());
}

#[test]
fn game_state_clones_compare_equal() {
    let game: GameRepr<BitBoardBoard> = GameRepr::new();
    let copy = game.clone();
    assert!(copy == game);
    assert!(copy.apply(mv(Colour::Black, 2, 4)) != game);
}
