//! Uniformly random choice among the legal moves.

use rand::seq::SliceRandom;
use vstd::prelude::*;

use crate::game::Move;
use crate::state::Game;
use crate::ai::{AIInfo, AI};

verus! {

/// Relies on rand's `SliceRandom::choose` with the thread-local generator: `None` for an
/// empty slice, otherwise one of its elements.
#[verifier::external_body]
pub(crate) fn choose_one<T: Copy>(items: &Vec<T>) -> (r: Option<T>)
    ensures
        r is None <==> items.len() == 0,
        r is Some ==> items@.contains(r->0),
{
    items.choose(&mut rand::thread_rng()).copied()
}

/// Chooses a legal move at random.
#[derive(Clone, Copy, Debug)]
pub struct RandomAI {}

impl AI for RandomAI {
    fn choose_move<G: Game>(&mut self, game: &G) -> (r: Option<Move>) {
        let moves = game.valid_moves(game.next_turn());
        choose_one(&moves)
    }

    /// Keeps no search counters.
    fn info(&self) -> (r: Option<AIInfo>)
        ensures
            r is None,
    {
        None
    }
}

} // verus!
