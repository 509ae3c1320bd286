//! The strategies that a front end lets a player pick from, as one closed type.

use vstd::prelude::*;

use crate::ai::{AIInfo, AI};
use crate::game::Move;
use crate::minimax::MinimaxAI;
use crate::random::RandomAI;
use crate::state::Game;

verus! {

/// A random player or a searching one.
#[derive(Clone, Copy, Debug)]
pub enum AIType {
    RandomAI(RandomAI),
    MinimaxAI(MinimaxAI),
}

impl AI for AIType {
    fn choose_move<G: Game>(&mut self, game: &G) -> (r: Option<Move>) {
        match self {
            AIType::RandomAI(ai) => ai.choose_move(game),
            AIType::MinimaxAI(ai) => ai.choose_move(game),
        }
    }

    fn info(&self) -> (r: Option<AIInfo>)
        ensures
            match *self {
                AIType::RandomAI(_) => r is None,
                AIType::MinimaxAI(ai) => r == Some(ai.info),
            },
    {
        match self {
            AIType::RandomAI(ai) => ai.info(),
            AIType::MinimaxAI(ai) => ai.info(),
        }
    }
}

} // verus!
