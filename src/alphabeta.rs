//! Negamax search with alpha-beta pruning: the same values and choices as the full-width
//! search, with fewer positions visited.

use vstd::prelude::*;

use crate::ai::{
    best_move, evaluate_immediate, lemma_last_best_agree, lemma_search_bounds, minimax_choice, minimax_value,
    move_value, pick_best_move, scores_from, search, search_replies, AIInfo, AI,
};
use crate::bitboardgame::BitBoardBoard;
use crate::game::{after_move, is_legal, lemma_legal_moves_legal, legal_moves, Board, Cells, Colour, Move, Score};
use crate::state::{convert, Game, GameRepr};

verus! {

/// The bound beyond every value that the search can reach, used as the initial window.
pub const WINDOW: Score = 1_000_000;

/// Every searched value lies strictly inside the initial window, so a search from that
/// window returns the full-width value itself.
pub proof fn lemma_initial_window(cells: Cells, player: Colour, depth: nat)
    ensures
        -WINDOW < minimax_value(cells, player, depth) < WINDOW,
{
    lemma_search_bounds(cells, player, depth);
}

/// Over more of the replies the lowest value can only fall.
proof fn lemma_replies_prefix(cells: Cells, player: Colour, ms: Seq<Move>, depth: nat, j: int)
    requires
        depth > 0,
        1 <= j <= ms.len(),
    ensures
        search_replies(cells, player, ms, depth).0 <= search_replies(cells, player, ms.take(j), depth).0,
    decreases ms.len(),
{
    if j == ms.len() {
        assert(ms.take(j) =~= ms);
    } else {
        assert(ms.drop_last().take(j) =~= ms.take(j));
        lemma_replies_prefix(cells, player, ms.drop_last(), depth, j);
    }
}

/// The value of `game` for `player`, who has just moved, searched `depth` plies deep within
/// the window (alpha, beta): exact when it lies inside the window, and otherwise at or
/// beyond the bound that it passes.
pub fn evaluate_to_depth<B: Board>(game: &GameRepr<B>, player: Colour, alpha: Score, beta: Score, depth: usize) -> (r: Score)
    requires
        game.board.wf(),
        i32::MIN < alpha < beta,
    ensures
        ({
            let v = minimax_value(game.board.cells(), player, depth as nat);
            &&& alpha < v < beta ==> r == v
            &&& v <= alpha ==> r <= alpha
            &&& v >= beta ==> r >= beta
        }),
        (if alpha < -64 { alpha as int } else { -64 }) <= r <= (if beta > 64 { beta as int } else { 64 }),
    decreases depth,
{
    let ghost cells = game.board.cells();
    proof {
        lemma_search_bounds(cells, player, depth as nat);
    }
    if depth == 0 {
        return evaluate_immediate(game, player);
    }
    let opponent = player.opponent();
    let moves = game.valid_moves(opponent);
    proof {
        lemma_legal_moves_legal(cells, opponent);
    }
    if moves.len() == 0 {
        return evaluate_immediate(game, player);
    }
    /* The opponent's best reply, seen from its side, within the window (-beta, -alpha). */
    let mut a: Score = -beta;
    let b: Score = -alpha;
    let mut i: usize = 0;
    while i < moves.len()
        invariant
            0 < depth,
            i <= moves.len(),
            cells == game.board.cells(),
            game.board.wf(),
            opponent == player.opponent(),
            moves@ == legal_moves(cells, opponent),
            forall|q: int| 0 <= q < moves@.len() ==> {
                let m = #[trigger] moves@[q];
                m.player == opponent && is_legal(cells, opponent, m.row as int, m.col as int)
            },
            i32::MIN < alpha < beta,
            b == -alpha,
            -beta <= a < b,
            i == 0 ==> a == -beta,
            i > 0 ==> {
                let low = search_replies(cells, player, moves@.take(i as int), depth as nat).0;
                &&& low > alpha
                &&& a == (if -low >= -beta { -low } else { -beta as int })
            },
        decreases moves.len() - i,
    {
        let m = moves[i];
        let g = game.apply(m);
        let s = evaluate_to_depth(&g, opponent, a, b, depth - 1);
        let ghost after = after_move(cells, opponent, m.row as int, m.col as int);
        let ghost v = minimax_value(after, opponent, (depth - 1) as nat);
        proof {
            lemma_search_bounds(after, opponent, (depth - 1) as nat);
            let ms = moves@.take(i + 1);
            assert(ms.drop_last() =~= moves@.take(i as int));
            assert(ms.last() == m);
        }
        if s >= b {
            proof {
                assert(v >= b);
                lemma_replies_prefix(cells, player, moves@, depth as nat, i + 1);
                assert(moves@.take(moves@.len() as int) =~= moves@);
            }
            return -b;
        }
        if s > a {
            a = s;
        }
        i += 1;
    }
    proof {
        assert(moves@.take(moves.len() as int) =~= moves@);
    }
    -a
}

/// Chooses by alpha-beta search `max_depth` plies below each move.
#[derive(Clone, Copy, Debug)]
pub struct AlphaBetaAI {
    pub max_depth: usize,
}

impl AI for AlphaBetaAI {
    fn choose_move<G: Game>(&mut self, game: &G) -> (r: Option<Move>)
        ensures
            r == minimax_choice(game.position(), game.turn(), old(self).max_depth as nat),
    {
        let g: GameRepr<BitBoardBoard> = convert(game);
        let turn = g.next_turn;
        let depth = self.max_depth;
        let ghost cells = g.board.cells();
        let evaluate_move = |g2: &GameRepr<BitBoardBoard>, m: Move| -> (s: Score)
            requires
                g2.board.wf(),
                m.player == turn,
                is_legal(g2.board.cells(), m.player, m.row as int, m.col as int),
            ensures
                s == move_value(g2.board.cells(), turn, depth as nat, m),
            {
                proof {
                    lemma_search_bounds(
                        after_move(g2.board.cells(), turn, m.row as int, m.col as int),
                        turn,
                        depth as nat,
                    );
                }
                evaluate_to_depth(&g2.apply(m), turn, -WINDOW, WINDOW, depth)
            };
        let r = pick_best_move(&g, evaluate_move);
        proof {
            let ms = legal_moves(cells, turn);
            let scores = choose|scores: Seq<Score>|
                #[trigger] scores_from(evaluate_move, &g, ms, scores) && r == best_move(ms, |i: int| scores[i] as int);
            assert forall|i: int| 0 <= i < ms.len() implies #[trigger] scores[i] as int == move_value(cells, turn, depth as nat, ms[i]) by {
                assert(call_ensures(evaluate_move, (&g, ms[i]), scores[i]));
            }
            lemma_last_best_agree(ms.len() as int, |i: int| scores[i] as int, |i: int| move_value(cells, turn, depth as nat, ms[i]));
        }
        r
    }

    /// Keeps no search counters.
    fn info(&self) -> (r: Option<AIInfo>)
        ensures
            r is None,
    {
        None
    }
}

} // verus!
