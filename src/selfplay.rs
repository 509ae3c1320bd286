//! Games played out between two strategies.

use vstd::prelude::*;

use crate::ai::{evaluate_immediate, lemma_heuristic_bounds, AI};
use crate::game::{
    after_move, at, count_prefix, initial_cells, lemma_initial_moves, holds_at, is_flipped, is_legal, lemma_count_bounds, lemma_legal_moves_legal,
    legal_moves, Board, Cells, Colour,
};
use crate::state::{DefaultGame, Game, GameRepr};

verus! {

/// The number of the first `n` cells that hold a disc.
pub open spec fn filled_prefix(cells: Cells, n: int) -> int {
    count_prefix(cells, Colour::Black, n) + count_prefix(cells, Colour::White, n)
}

proof fn lemma_move_fills_one(cells: Cells, player: Colour, row: int, col: int, n: int)
    requires
        cells.len() == 64,
        is_legal(cells, player, row, col),
        0 <= n <= 64,
    ensures
        filled_prefix(after_move(cells, player, row, col), n) == filled_prefix(cells, n) + if row * 8 + col < n {
            1int
        } else {
            0int
        },
    decreases n,
{
    if n > 0 {
        lemma_move_fills_one(cells, player, row, col, n - 1);
        let i = n - 1;
        let after = after_move(cells, player, row, col);
        if i != row * 8 + col && is_flipped(cells, player, row, col, i / 8, i % 8) {
            let (dr, dc) = choose|dr: int, dc: int|
                crate::game::is_direction(dr, dc) && #[trigger] crate::game::flipped_along(cells, player, row, col, dr, dc, i / 8, i % 8);
            let (m, k) = choose|m: int, k: int|
                #[trigger] crate::game::flanks(cells, player, row, col, dr, dc, m) && 1 <= k <= m
                    && #[trigger] crate::game::on_ray(row, col, dr, dc, k, i / 8, i % 8);
            assert(holds_at(cells, player.opponent(), row, col, dr, dc, k));
            assert(at(cells, i / 8, i % 8) == Some(player.opponent()));
        }
    }
}

/// Plays a game from the starting position, each strategy moving for its colour, until the
/// player to move has no move; returns the final game.
pub fn simulate_one_game<A: AI, W: AI>(black_ai: A, white_ai: W) -> (g: DefaultGame)
    ensures
        g.board.wf(),
        legal_moves(g.board.cells(), g.next_turn).len() == 0,
{
    let mut black_ai = black_ai;
    let mut white_ai = white_ai;
    let mut game: DefaultGame = GameRepr::new();
    proof {
        game.board.lemma_cells_len();
        lemma_count_bounds(game.board.cells(), 64);
    }
    loop
        invariant
            game.board.wf(),
            game.board.cells().len() == 64,
            0 <= filled_prefix(game.board.cells(), 64) <= 64,
        ensures
            game.board.wf(),
            legal_moves(game.board.cells(), game.next_turn).len() == 0,
        decreases 64 - filled_prefix(game.board.cells(), 64),
    {
        let mov = if game.next_turn == Colour::Black {
            black_ai.choose_move(&game)
        } else {
            white_ai.choose_move(&game)
        };
        let Some(mov) = mov else {
            break;
        };
        proof {
            let cells = game.board.cells();
            lemma_legal_moves_legal(cells, game.next_turn);
            let q = choose|q: int| 0 <= q < legal_moves(cells, game.next_turn).len() && legal_moves(cells, game.next_turn)[q] == mov;
            assert(is_legal(cells, mov.player, mov.row as int, mov.col as int));
            lemma_move_fills_one(cells, mov.player, mov.row as int, mov.col as int, 64);
        }
        game = game.apply(mov);
        proof {
            game.board.lemma_cells_len();
            lemma_count_bounds(game.board.cells(), 64);
        }
    }
    game
}

/// Plays `num_games` games and sums their final material balances, seen by Black.
pub fn simulate_many_games<A: AI, W: AI>(black_ai: &A, white_ai: &W, num_games: usize) -> (total: isize)
    requires
        64 * num_games <= isize::MAX,
    ensures
        -64 * num_games <= total <= 64 * num_games,
{
    let mut total_score: isize = 0;
    let mut i: usize = 0;
    while i < num_games
        invariant
            i <= num_games,
            64 * num_games <= isize::MAX,
            -64 * i <= total_score <= 64 * i,
        decreases num_games - i,
    {
        let game = simulate_one_game(black_ai.clone(), white_ai.clone());
        let score = evaluate_immediate(&game, Colour::Black);
        proof {
            lemma_heuristic_bounds(game.board.cells(), Colour::Black);
        }
        total_score = total_score + score as isize;
        i += 1;
    }
    total_score
}

/// Plays random moves from the starting position until the player to move has none.
/// Returns the number of turns played, the number of moves that were open over all of
/// them, the most that were open at one turn, and the first game at which that most was
/// open. Black always has four opening moves, so at least one turn is played.
pub fn run_one_game() -> (r: (usize, usize, usize, Option<DefaultGame>))
    ensures
        1 <= r.0 <= 64,
        r.0 <= r.1,
        r.2 >= 4,
        r.1 <= 64 * r.0,
        r.2 <= 64,
        r.2 <= r.1,
        r.3 is Some <==> r.0 > 0,
        r.3 is Some ==> r.3->0.board.wf() && legal_moves(r.3->0.board.cells(), r.3->0.next_turn).len() == r.2,
{
    let mut turns: usize = 0;
    let mut total_moves: usize = 0;
    let mut max_moves: usize = 0;
    let mut max_moves_game: Option<DefaultGame> = None;
    let mut game: DefaultGame = GameRepr::new();
    proof {
        game.board.lemma_cells_len();
        lemma_count_bounds(game.board.cells(), 64);
    }
    loop
        invariant
            game.board.wf(),
            game.board.cells().len() == 64,
            turns <= filled_prefix(game.board.cells(), 64) <= 64,
            total_moves <= 64 * turns,
            max_moves <= 64,
            max_moves <= total_moves,
            max_moves_game is Some <==> turns > 0,
            turns == 0 ==> game.board.cells() == initial_cells() && game.next_turn == Colour::Black,
            turns > 0 ==> max_moves >= 4,
            turns <= total_moves,
            max_moves_game is Some ==> max_moves_game->0.board.wf() && legal_moves(
                max_moves_game->0.board.cells(),
                max_moves_game->0.next_turn,
            ).len() == max_moves,
        ensures
            turns >= 1,
            max_moves >= 4,
        decreases 64 - filled_prefix(game.board.cells(), 64),
    {
        let moves = game.valid_moves(game.next_turn);
        proof {
            lemma_legal_moves_legal(game.board.cells(), game.next_turn);
        }
        proof {
            if turns == 0 {
                lemma_initial_moves();
            }
        }
        if moves.len() == 0 {
            break;
        }
        let num = moves.len();
        turns += 1;
        total_moves += num;
        if num > max_moves {
            max_moves = num;
            max_moves_game = Some(GameRepr { next_turn: game.next_turn, board: game.board });
        }
        let mov = crate::random::choose_one(&moves).unwrap();
        proof {
            let cells = game.board.cells();
            assert(moves@.contains(mov));
            let q = choose|q: int| 0 <= q < moves@.len() && moves@[q] == mov;
            assert(is_legal(cells, mov.player, mov.row as int, mov.col as int));
            lemma_move_fills_one(cells, mov.player, mov.row as int, mov.col as int, 64);
        }
        game = game.apply(mov);
        proof {
            game.board.lemma_cells_len();
            lemma_count_bounds(game.board.cells(), 64);
        }
    }
    (turns, total_moves, max_moves, max_moves_game)
}

/// The sum of `s`.
pub open spec fn sum(s: Seq<usize>) -> int
    decreases s.len(),
{
    if s.len() == 0 {
        0
    } else {
        sum(s.drop_last()) + s.last()
    }
}

/// The size of each of `num_chunks` near-equal shares of `total`, rounded up.
pub open spec fn share(total: int, num_chunks: int) -> int {
    if (total / num_chunks) * num_chunks < total {
        total / num_chunks + 1
    } else {
        total / num_chunks
    }
}

/// Splits `total` games into shares of `share(total, num_chunks)` each but the last, which
/// holds the rest.
pub fn make_chunks(total: usize, num_chunks: usize) -> (r: Vec<usize>)
    requires
        num_chunks > 0,
    ensures
        sum(r@) == total,
        forall|i: int| 0 <= i < r@.len() - 1 ==> #[trigger] r@[i] == share(total as int, num_chunks as int),
        forall|i: int| 0 <= i < r@.len() ==> 1 <= #[trigger] r@[i] <= share(total as int, num_chunks as int),
{
    let ghost all = total as int;
    let mut total = total;
    let mut chunks: Vec<usize> = Vec::new();
    proof {
        vstd::arithmetic::div_mod::lemma_fundamental_div_mod(all, num_chunks as int);
        vstd::arithmetic::div_mod::lemma_mod_pos_bound(all, num_chunks as int);
        let q = all / num_chunks as int;
        let m = all % num_chunks as int;
        assert(q * num_chunks as int <= all) by (nonlinear_arith)
            requires
                all == num_chunks as int * q + m,
                m >= 0,
        ;
        vstd::arithmetic::div_mod::lemma_div_pos_is_pos(all, num_chunks as int);
        vstd::arithmetic::div_mod::lemma_div_is_ordered_by_denominator(all, 1, num_chunks as int);
    }
    let mut chunk_size = total / num_chunks;
    proof {
        assert(chunk_size * num_chunks >= chunk_size) by (nonlinear_arith)
            requires num_chunks >= 1;
    }
    if chunk_size * num_chunks < total {
        chunk_size += 1
    }
    proof {
        if all > 0 {
            assert(chunk_size >= 1) by (nonlinear_arith)
                requires
                    all > 0,
                    chunk_size == share(all, num_chunks as int),
                    (all / num_chunks as int) * num_chunks as int <= all,
                    all / num_chunks as int >= 0,
            ;
        }
    }
    while total >= 1
        invariant
            chunk_size == share(all, num_chunks as int),
            all > 0 ==> chunk_size >= 1,
            sum(chunks@) + total == all,
            total > 0 ==> forall|i: int| 0 <= i < chunks@.len() ==> #[trigger] chunks@[i] == chunk_size,
            forall|i: int| 0 <= i < chunks@.len() - 1 ==> #[trigger] chunks@[i] == chunk_size,
            forall|i: int| 0 <= i < chunks@.len() ==> 1 <= #[trigger] chunks@[i] <= chunk_size,
        decreases total,
    {
        let size = if chunk_size < total { chunk_size } else { total };
        total -= size;
        let ghost before = chunks@;
        chunks.push(size);
        proof {
            assert(chunks@.drop_last() =~= before);
        }
    }
    chunks
}

} // verus!
