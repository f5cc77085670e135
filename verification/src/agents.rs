//! The agent capability exposed to callers: a fixed evaluator and search
//! depth chosen at construction time, and a best-action query per position.

use vstd::prelude::*;
use crate::games::{Game, GameState, Player};
use crate::evaluators::Evaluator;
use crate::search::{abnegamax_best_action, action_value, spec_negamax};

verus! {

/// An agent that answers move queries with an alpha-beta negamax search of a
/// fixed depth, judged by a fixed evaluator.
pub struct MinimaxAgent<E> {
    pub evaluator: E,
    pub depth: u32,
}

impl<E> MinimaxAgent<E> {
    pub fn new(evaluator: E, depth: u32) -> (r: MinimaxAgent<E>)
        ensures
            r.evaluator == evaluator,
            r.depth == depth,
    {
        MinimaxAgent { evaluator, depth }
    }

    /// The action this agent chooses: one of the legal actions achieving the
    /// search value of the position for `player`.
    pub fn get_action<T: Game>(&self, board: &T, player: Player) -> (r: T::Action) where
        E: Evaluator<T>,

        requires
            board.wf(),
            board.state_spec() == GameState::InProgress,
            self.depth >= 1,
        ensures
            board.legal_spec().contains(r),
            action_value(self.evaluator, *board, r, self.depth as nat, player) == spec_negamax(
                self.evaluator, *board, self.depth as nat, player,
            ),
    {
        abnegamax_best_action(board, self.depth, &self.evaluator, player)
    }
}

} // verus!
