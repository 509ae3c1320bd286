//! What the move-choosing strategies share: the evaluation, the search's meaning, the
//! choice of the best move, and the node counters.

use vstd::prelude::*;

use crate::game::{
    after_move, count, is_legal, lemma_count_bounds, lemma_legal_moves_legal, legal_moves, Board, Cells, Colour,
    Move, Score,
};
use crate::state::{Game, GameRepr};

verus! {

/// The material balance of `cells` as `player` sees it: `player`'s discs minus the
/// opponent's.
pub open spec fn heuristic(cells: Cells, player: Colour) -> int {
    (count(cells, Colour::Black) - count(cells, Colour::White)) * player.spec_sign()
}

/// Searching the position `cells` for `player`, who has just moved, `depth` plies deep:
/// its value for `player`, and the number of positions visited. At depth 0, or when the
/// opponent has no move, the value is the material balance; otherwise it is the lowest
/// of the negated values, for the opponent one ply less deep, of the opponent's replies.
pub open spec fn search(cells: Cells, player: Colour, depth: nat) -> (int, nat)
    decreases depth, 1nat, 0nat,
{
    if depth == 0 {
        (heuristic(cells, player), 1)
    } else {
        let replies = legal_moves(cells, player.opponent());
        if replies.len() == 0 {
            (heuristic(cells, player), 1)
        } else {
            let r = search_replies(cells, player, replies, depth);
            (r.0, r.1 + 1)
        }
    }
}

/// Over the opponent's replies `ms` (at least one), the lowest negated value of the
/// position after a reply, searched for the opponent one ply less deep, and the positions
/// visited in all.
pub open spec fn search_replies(cells: Cells, player: Colour, ms: Seq<Move>, depth: nat) -> (int, nat)
    decreases depth, 0nat, ms.len(),
{
    if depth == 0 || ms.len() == 0 {
        (0, 0)
    } else {
        let m = ms.last();
        let reply = search(
            after_move(cells, player.opponent(), m.row as int, m.col as int),
            player.opponent(),
            (depth - 1) as nat,
        );
        if ms.len() == 1 {
            (-reply.0, reply.1)
        } else {
            let rest = search_replies(cells, player, ms.drop_last(), depth);
            (if rest.0 <= -reply.0 {
                rest.0
            } else {
                -reply.0
            }, rest.1 + reply.1)
        }
    }
}

/// The value of `cells` for `player`, who has just moved, searched `depth` plies deep.
pub open spec fn minimax_value(cells: Cells, player: Colour, depth: nat) -> int {
    search(cells, player, depth).0
}

/// The index among the first `n` whose score is highest; of equal scores, the last.
pub open spec fn last_best(n: int, score: spec_fn(int) -> int) -> int
    decreases n,
{
    if n <= 1 {
        0
    } else {
        let k = last_best(n - 1, score);
        if score(n - 1) >= score(k) {
            n - 1
        } else {
            k
        }
    }
}

/// The move of `ms` with the highest score, the last of equals; `None` when `ms` is empty.
pub open spec fn best_move(ms: Seq<Move>, score: spec_fn(int) -> int) -> Option<Move> {
    if ms.len() == 0 {
        None
    } else {
        Some(ms[last_best(ms.len() as int, score)])
    }
}

/// The value for `player` of playing `m` and searching the result `depth` plies deep.
pub open spec fn move_value(cells: Cells, player: Colour, depth: nat, m: Move) -> int {
    minimax_value(after_move(cells, player, m.row as int, m.col as int), player, depth)
}

/// The move that search `depth` plies deep chooses for `player` in `cells`.
pub open spec fn minimax_choice(cells: Cells, player: Colour, depth: nat) -> Option<Move> {
    let ms = legal_moves(cells, player);
    best_move(ms, |i: int| move_value(cells, player, depth, ms[i]))
}

/// Saturation at the largest counter value.
pub open spec fn saturate(x: int) -> int {
    if x > usize::MAX {
        usize::MAX as int
    } else {
        x
    }
}

pub proof fn lemma_saturate_add(x: int, y: int)
    requires
        x >= 0,
        y >= 0,
    ensures
        saturate(saturate(x) + y) == saturate(x + y),
{
}

pub proof fn lemma_heuristic_bounds(cells: Cells, player: Colour)
    ensures
        -64 <= heuristic(cells, player) <= 64,
{
    lemma_count_bounds(cells, 64);
}

pub proof fn lemma_search_bounds(cells: Cells, player: Colour, depth: nat)
    ensures
        -64 <= search(cells, player, depth).0 <= 64,
        search(cells, player, depth).1 >= 1,
    decreases depth, 1nat, 0nat,
{
    lemma_heuristic_bounds(cells, player);
    if depth > 0 {
        let replies = legal_moves(cells, player.opponent());
        if replies.len() > 0 {
            lemma_replies_bounds(cells, player, replies, depth);
        }
    }
}

pub proof fn lemma_replies_bounds(cells: Cells, player: Colour, ms: Seq<Move>, depth: nat)
    ensures
        -64 <= search_replies(cells, player, ms, depth).0 <= 64,
    decreases depth, 0nat, ms.len(),
{
    if depth > 0 && ms.len() > 0 {
        let m = ms.last();
        lemma_search_bounds(
            after_move(cells, player.opponent(), m.row as int, m.col as int),
            player.opponent(),
            (depth - 1) as nat,
        );
        if ms.len() > 1 {
            lemma_replies_bounds(cells, player, ms.drop_last(), depth);
        }
    }
}

/// Searched zero plies deep, a position is worth the player's discs minus the opponent's.
pub proof fn lemma_depth_zero(cells: Cells, player: Colour)
    ensures
        minimax_value(cells, player, 0) == count(cells, player) - count(cells, player.opponent()),
{
}

/// Scores that agree on the first `n` indices pick the same index.
pub proof fn lemma_last_best_agree(n: int, f: spec_fn(int) -> int, g: spec_fn(int) -> int)
    requires
        forall|i: int| 0 <= i < n ==> #[trigger] f(i) == g(i),
    ensures
        last_best(n, f) == last_best(n, g),
        n >= 1 ==> 0 <= last_best(n, f) < n,
    decreases n,
{
    if n > 1 {
        lemma_last_best_agree(n - 1, f, g);
    }
}

/// The material balance of `game` as `player` sees it.
pub fn evaluate_immediate<G: Game>(game: &G, player: Colour) -> (r: Score)
    requires
        game.valid(),
    ensures
        r == heuristic(game.position(), player),
{
    proof {
        lemma_heuristic_bounds(game.position(), player);
        lemma_count_bounds(game.position(), 64);
    }
    let (black_count, white_count) = game.scores();
    let score = black_count - white_count;
    score * player.sign()
}

/// The move of `moves` with the highest of `scores`, the last of equals.
pub fn best_of(moves: &Vec<Move>, scores: &Vec<Score>) -> (r: Option<Move>)
    requires
        moves.len() == scores.len(),
    ensures
        r == best_move(moves@, |i: int| scores@[i] as int),
{
    let ghost f = |i: int| scores@[i] as int;
    if moves.len() == 0 {
        return None;
    }
    let mut best: usize = 0;
    let mut i: usize = 1;
    while i < moves.len()
        invariant
            1 <= i <= moves.len(),
            moves.len() == scores.len(),
            f == (|i: int| scores@[i] as int),
            best == last_best(i as int, f),
            best < i,
        decreases moves.len() - i,
    {
        if scores[i] >= scores[best] {
            best = i;
        }
        i += 1;
    }
    Some(moves[best])
}

/// `scores` are scores that `evaluate_move` may give the moves `ms` in `game`.
pub open spec fn scores_from<B: Board, F: Fn(&GameRepr<B>, Move) -> Score>(
    evaluate_move: F,
    game: &GameRepr<B>,
    ms: Seq<Move>,
    scores: Seq<Score>,
) -> bool {
    &&& scores.len() == ms.len()
    &&& forall|i: int| 0 <= i < ms.len() ==> call_ensures(evaluate_move, (game, ms[i]), #[trigger] scores[i])
}

/// Picks the move of the player to move whose result `evaluate_move` scores highest, the
/// last of equals; `None` when that player has no move.
pub fn pick_best_move<B: Board, F: Fn(&GameRepr<B>, Move) -> Score>(game: &GameRepr<B>, evaluate_move: F) -> (r: Option<Move>)
    requires
        game.board.wf(),
        forall|m: Move|
            m.player == game.next_turn && is_legal(game.board.cells(), m.player, m.row as int, m.col as int)
                ==> call_requires(evaluate_move, (game, m)),
    ensures
        exists|scores: Seq<Score>|
            #[trigger] scores_from(evaluate_move, game, legal_moves(game.board.cells(), game.next_turn), scores)
                && r == best_move(legal_moves(game.board.cells(), game.next_turn), |i: int| scores[i] as int),
{
    let moves = game.valid_moves(game.next_turn);
    proof {
        lemma_legal_moves_legal(game.board.cells(), game.next_turn);
    }
    let mut scores: Vec<Score> = Vec::new();
    let mut i: usize = 0;
    while i < moves.len()
        invariant
            i <= moves.len(),
            moves@ == legal_moves(game.board.cells(), game.next_turn),
            scores.len() == i,
            forall|m: Move|
                m.player == game.next_turn && is_legal(game.board.cells(), m.player, m.row as int, m.col as int)
                    ==> call_requires(evaluate_move, (game, m)),
            forall|q: int| 0 <= q < moves@.len() ==> {
                let m = #[trigger] moves@[q];
                m.player == game.next_turn && is_legal(game.board.cells(), game.next_turn, m.row as int, m.col as int)
            },
            forall|q: int| 0 <= q < i ==> call_ensures(evaluate_move, (game, moves@[q]), #[trigger] scores@[q]),
        decreases moves.len() - i,
    {
        let m = moves[i];
        let s = evaluate_move(game, m);
        scores.push(s);
        i += 1;
    }
    let r = best_of(&moves, &scores);
    proof {
        assert(scores_from(evaluate_move, game, moves@, scores@));
    }
    r
}

/// Counters of the positions that a search visits.
#[derive(Clone, Copy, Debug)]
pub struct AIInfo {
    pub total_nodes_searched: usize,
    pub last_nodes_searched: usize,
    pub last_num_choices: usize,
}

impl AIInfo {
    /// All counters at zero.
    pub fn new() -> (r: AIInfo)
        ensures
            r.total_nodes_searched == 0,
            r.last_nodes_searched == 0,
            r.last_num_choices == 0,
    {
        AIInfo { total_nodes_searched: 0, last_nodes_searched: 0, last_num_choices: 0 }
    }

    /// Counts one more visited position in the current search.
    pub fn add_node(&mut self)
        ensures
            final(self).last_nodes_searched == saturate(old(self).last_nodes_searched + 1),
            final(self).total_nodes_searched == old(self).total_nodes_searched,
            final(self).last_num_choices == old(self).last_num_choices,
    {
        if self.last_nodes_searched < usize::MAX {
            self.last_nodes_searched = self.last_nodes_searched + 1;
        }
    }

    /// Starts a search among `num_choices` moves.
    pub fn begin_search(&mut self, num_choices: usize)
        ensures
            final(self).last_nodes_searched == 0,
            final(self).last_num_choices == num_choices,
            final(self).total_nodes_searched == old(self).total_nodes_searched,
    {
        self.last_num_choices = num_choices;
        self.last_nodes_searched = 0;
    }

    /// Adds the current search's count to the total.
    pub fn finish_search(&mut self)
        ensures
            final(self).total_nodes_searched == saturate(
                old(self).total_nodes_searched + old(self).last_nodes_searched,
            ),
            final(self).last_nodes_searched == old(self).last_nodes_searched,
            final(self).last_num_choices == old(self).last_num_choices,
    {
        if self.total_nodes_searched <= usize::MAX - self.last_nodes_searched {
            self.total_nodes_searched = self.total_nodes_searched + self.last_nodes_searched;
        } else {
            self.total_nodes_searched = usize::MAX;
        }
    }
}

impl Default for AIInfo {
    fn default() -> (r: AIInfo)
        ensures
            r.total_nodes_searched == 0,
            r.last_nodes_searched == 0,
            r.last_num_choices == 0,
    {
        AIInfo::new()
    }
}

/// A strategy that chooses the move of the player to move.
pub trait AI: Clone {
    /// A legal move of the player to move; `None` exactly when that player has none.
    fn choose_move<G: Game>(&mut self, game: &G) -> (r: Option<Move>)
        requires
            game.valid(),
        ensures
            r is None <==> legal_moves(game.position(), game.turn()).len() == 0,
            r is Some ==> legal_moves(game.position(), game.turn()).contains(r->0),
    ;

    /// The strategy's search counters, where it keeps any.
    fn info(&self) -> (r: Option<AIInfo>)
    {
        None
    }
}

} // verus!
