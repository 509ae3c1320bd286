//! One-ply choice: the move whose result has the best material balance.

use vstd::prelude::*;

use crate::ai::{
    best_move, evaluate_immediate, lemma_last_best_agree, minimax_choice, move_value, pick_best_move, scores_from,
    AIInfo, AI,
};
use crate::bitboardgame::BitBoardBoard;
use crate::game::{is_legal, legal_moves, Board, Move, Score};
use crate::state::{convert, Game, GameRepr};

verus! {

/// Chooses the move after which the mover's material balance is highest.
#[derive(Clone, Copy, Debug)]
pub struct ImmediateAI {}

impl AI for ImmediateAI {
    fn choose_move<G: Game>(&mut self, game: &G) -> (r: Option<Move>)
        ensures
            r == minimax_choice(game.position(), game.turn(), 0),
    {
        let g: GameRepr<BitBoardBoard> = convert(game);
        let ghost cells = g.board.cells();
        let ghost turn = g.next_turn;
        let evaluate_move = |g2: &GameRepr<BitBoardBoard>, m: Move| -> (s: Score)
            requires
                g2.board.wf(),
                m.player == g2.next_turn,
                is_legal(g2.board.cells(), m.player, m.row as int, m.col as int),
            ensures
                s == move_value(g2.board.cells(), g2.next_turn, 0, m),
            {
                let game2 = g2.apply(m);
                evaluate_immediate(&game2, g2.next_turn)
            };
        let r = pick_best_move(&g, evaluate_move);
        proof {
            let ms = legal_moves(cells, turn);
            let scores = choose|scores: Seq<Score>|
                #[trigger] scores_from(evaluate_move, &g, ms, scores) && r == best_move(ms, |i: int| scores[i] as int);
            assert forall|i: int| 0 <= i < ms.len() implies #[trigger] scores[i] as int == move_value(cells, turn, 0, ms[i]) by {
                assert(call_ensures(evaluate_move, (&g, ms[i]), scores[i]));
            }
            lemma_last_best_agree(ms.len() as int, |i: int| scores[i] as int, |i: int| move_value(cells, turn, 0, ms[i]));
        }
        r
    }

    /// Keeps no search counters.
    fn info(&self) -> (r: Option<AIInfo>)
        ensures
            r is None,
    {
        None
    }
}

} // verus!
