//! Full-width negamax search to a fixed depth.

use vstd::prelude::*;

use crate::ai::{
    best_of, evaluate_immediate, lemma_last_best_agree, lemma_saturate_add, lemma_search_bounds, minimax_choice,
    minimax_value, move_value, saturate, search, search_replies, AIInfo, AI,
};
use crate::bitboardgame::BitBoardBoard;
use crate::game::{after_move, lemma_legal_moves_legal, legal_moves, Board, Cells, Colour, Move, Score};
use crate::state::{convert, Game, GameRepr};

verus! {

/// The positions visited when the first `n` moves of `ms` are each played by `player` and
/// the result searched `depth` plies deep.
pub open spec fn choice_nodes(cells: Cells, player: Colour, depth: nat, ms: Seq<Move>, n: int) -> int
    decreases n,
{
    if n <= 0 {
        0
    } else {
        choice_nodes(cells, player, depth, ms, n - 1) + search(
            after_move(cells, player, ms[n - 1].row as int, ms[n - 1].col as int),
            player,
            depth,
        ).1
    }
}

/// The value of `game` for `player`, who has just moved, searched `depth` plies deep;
/// every position visited is counted in `info`.
pub fn evaluate_to_depth<B: Board>(game: &GameRepr<B>, player: Colour, depth: usize, info: &mut AIInfo) -> (r: Score)
    requires
        game.board.wf(),
    ensures
        r == minimax_value(game.board.cells(), player, depth as nat),
        final(info).last_nodes_searched == saturate(
            old(info).last_nodes_searched + search(game.board.cells(), player, depth as nat).1,
        ),
        final(info).total_nodes_searched == old(info).total_nodes_searched,
        final(info).last_num_choices == old(info).last_num_choices,
    decreases depth,
{
    let ghost cells = game.board.cells();
    let ghost start = old(info).last_nodes_searched as int;
    info.add_node();
    if depth == 0 {
        return evaluate_immediate(game, player);
    }
    let opponent = player.opponent();
    let moves = game.valid_moves(opponent);
    proof {
        lemma_legal_moves_legal(cells, opponent);
    }
    if moves.len() == 0 {
        return evaluate_immediate(game, player);
    }
    let mut best: Score = 0;
    let ghost mut nodes: int = 0;
    let mut i: usize = 0;
    while i < moves.len()
        invariant
            0 < depth,
            i <= moves.len(),
            cells == game.board.cells(),
            game.board.wf(),
            opponent == player.opponent(),
            moves@ == legal_moves(cells, opponent),
            forall|q: int| 0 <= q < moves@.len() ==> {
                let m = #[trigger] moves@[q];
                m.player == opponent && crate::game::is_legal(cells, opponent, m.row as int, m.col as int)
            },
            i > 0 ==> best == search_replies(cells, player, moves@.take(i as int), depth as nat).0,
            i > 0 ==> nodes == search_replies(cells, player, moves@.take(i as int), depth as nat).1,
            i == 0 ==> nodes == 0,
            nodes >= 0,
            -64 <= best <= 64,
            info.last_nodes_searched == saturate(start + 1 + nodes),
            info.total_nodes_searched == old(info).total_nodes_searched,
            info.last_num_choices == old(info).last_num_choices,
        decreases moves.len() - i,
    {
        let m = moves[i];
        let g = game.apply(m);
        let ghost before = info.last_nodes_searched as int;
        let score = evaluate_to_depth(&g, opponent, depth - 1, info);
        proof {
            let after = after_move(cells, opponent, m.row as int, m.col as int);
            lemma_search_bounds(after, opponent, (depth - 1) as nat);
            lemma_saturate_add(start + 1 + nodes, search(after, opponent, (depth - 1) as nat).1 as int);
            let ms = moves@.take(i + 1);
            assert(ms.drop_last() =~= moves@.take(i as int));
            assert(ms.last() == m);
            nodes = nodes + search(after, opponent, (depth - 1) as nat).1;
        }
        let neg = -score;
        if i == 0 || neg < best {
            best = neg;
        }
        i += 1;
    }
    proof {
        assert(moves@.take(moves.len() as int) =~= moves@);
    }
    best
}

/// Chooses by full-width search `max_depth` plies below each move.
#[derive(Clone, Copy, Debug)]
pub struct MinimaxAI {
    pub max_depth: usize,
    pub info: AIInfo,
}

impl MinimaxAI {
    /// A search `max_depth` plies deep, with its counters at zero.
    pub fn new(max_depth: usize) -> (r: Self)
        ensures
            r.max_depth == max_depth,
            r.info.total_nodes_searched == 0,
            r.info.last_nodes_searched == 0,
            r.info.last_num_choices == 0,
    {
        let info = AIInfo::new();
        MinimaxAI { max_depth, info }
    }
}

impl AI for MinimaxAI {
    fn choose_move<G: Game>(&mut self, game: &G) -> (r: Option<Move>)
        ensures
            r == minimax_choice(game.position(), game.turn(), old(self).max_depth as nat),
            final(self).max_depth == old(self).max_depth,
            final(self).info.last_num_choices == legal_moves(game.position(), game.turn()).len(),
            final(self).info.last_nodes_searched == saturate(
                choice_nodes(
                    game.position(),
                    game.turn(),
                    old(self).max_depth as nat,
                    legal_moves(game.position(), game.turn()),
                    legal_moves(game.position(), game.turn()).len() as int,
                ),
            ),
            final(self).info.total_nodes_searched == saturate(
                old(self).info.total_nodes_searched + final(self).info.last_nodes_searched,
            ),
    {
        let g: GameRepr<BitBoardBoard> = convert(game);
        let ghost cells = g.board.cells();
        let turn = g.next_turn;
        let moves = g.valid_moves(turn);
        proof {
            lemma_legal_moves_legal(cells, turn);
        }
        self.info.begin_search(moves.len());
        let mut scores: Vec<Score> = Vec::new();
        let mut i: usize = 0;
        while i < moves.len()
            invariant
                i <= moves.len(),
                g.board.wf(),
                cells == g.board.cells(),
                turn == g.next_turn,
                moves@ == legal_moves(cells, turn),
                forall|q: int| 0 <= q < moves@.len() ==> {
                    let m = #[trigger] moves@[q];
                    m.player == turn && crate::game::is_legal(cells, turn, m.row as int, m.col as int)
                },
                scores.len() == i,
                forall|q: int| 0 <= q < i ==> #[trigger] scores@[q] as int == move_value(cells, turn, self.max_depth as nat, moves@[q]),
                self.max_depth == old(self).max_depth,
                self.info.last_num_choices == moves.len(),
                self.info.total_nodes_searched == old(self).info.total_nodes_searched,
                self.info.last_nodes_searched == saturate(choice_nodes(cells, turn, self.max_depth as nat, moves@, i as int)),
            decreases moves.len() - i,
        {
            let m = moves[i];
            let g2 = g.apply(m);
            proof {
                let after = after_move(cells, turn, m.row as int, m.col as int);
                lemma_search_bounds(after, turn, self.max_depth as nat);
                lemma_saturate_add(
                    choice_nodes(cells, turn, self.max_depth as nat, moves@, i as int),
                    search(after, turn, self.max_depth as nat).1 as int,
                );
                assert(choice_nodes(cells, turn, self.max_depth as nat, moves@, i as int) >= 0) by {
                    lemma_choice_nodes_nonneg(cells, turn, self.max_depth as nat, moves@, i as int);
                }
            }
            let s = evaluate_to_depth(&g2, turn, self.max_depth, &mut self.info);
            scores.push(s);
            i += 1;
        }
        let mov = best_of(&moves, &scores);
        proof {
            lemma_last_best_agree(
                moves@.len() as int,
                |q: int| scores@[q] as int,
                |q: int| move_value(cells, turn, self.max_depth as nat, moves@[q]),
            );
        }
        self.info.finish_search();
        mov
    }

    fn info(&self) -> (r: Option<AIInfo>)
        ensures
            r == Some(self.info),
    {
        Some(self.info)
    }
}

proof fn lemma_choice_nodes_nonneg(cells: Cells, player: Colour, depth: nat, ms: Seq<Move>, n: int)
    ensures
        choice_nodes(cells, player, depth, ms, n) >= 0,
    decreases n,
{
    if n > 0 {
        lemma_choice_nodes_nonneg(cells, player, depth, ms, n - 1);
    }
}

} // verus!
