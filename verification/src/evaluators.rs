//! The evaluator capability the search consumes: a bounded, higher-is-better
//! score of one position for one player, and a bulk form over many positions.
//! Scores are fixed-point integers; a won position scores `WIN_VALUE`, a lost
//! one `-WIN_VALUE`.

use vstd::prelude::*;
use crate::games::{Game, GameState, Player};

verus! {

/// Every evaluator keeps its scores within this magnitude.
pub const VAL_MAX: i64 = 1_000_000_000;

/// The sentinel score of a won terminal position.
pub const WIN_VALUE: i64 = 1_000_000_000;

/// Scalar and bulk valuation of positions. The score must be a function of
/// the position's uid (and the asked player), so that the batched search may
/// memoize values by uid.
pub trait Evaluator<T: Game>: Sized {
    /// The score this evaluator assigns to `b` for `player`.
    spec fn spec_value(self, b: T, player: Player) -> int;

    /// Scores stay within the agreed bound.
    proof fn lemma_value_bounds(self, b: T, player: Player)
        ensures
            -VAL_MAX <= self.spec_value(b, player) <= VAL_MAX,
    ;

    /// Two well-formed boards with the same uid and the same player to move
    /// receive the same score.
    proof fn lemma_value_uid(self, b1: T, b2: T, player: Player)
        requires
            b1.wf(),
            b2.wf(),
            b1.uid_spec() == b2.uid_spec(),
            b1.player_spec() == b2.player_spec(),
        ensures
            self.spec_value(b1, player) == self.spec_value(b2, player),
    ;

    fn value(&self, board: &T, player: Player) -> (r: i64)
        requires
            board.wf(),
        ensures
            r as int == self.spec_value(*board, player),
            -VAL_MAX <= r <= VAL_MAX,
    ;

    /// Bulk valuation: one score per board, in matching order.
    fn values(&self, boards: &Vec<T>, player: Player) -> (r: Vec<i64>)
        requires
            forall|i: int| 0 <= i < boards@.len() ==> (#[trigger] boards@[i]).wf(),
        ensures
            r@.len() == boards@.len(),
            forall|i: int|
                0 <= i < boards@.len() ==> (#[trigger] r@[i]) as int == self.spec_value(
                    boards@[i], player,
                ),
            forall|i: int| 0 <= i < r@.len() ==> -VAL_MAX <= #[trigger] r@[i] <= VAL_MAX,
    ;
}

/// The win/draw evaluator: `WIN_VALUE` when `player` has won, `-WIN_VALUE`
/// when the opponent has, zero for a draw or an undecided position.
#[derive(Clone, Copy, PartialEq, Eq, Structural, Debug)]
pub struct SimpleEval {
    pub player: Player,
}

impl SimpleEval {
    pub fn new(player: Player) -> (r: SimpleEval)
        ensures
            r.player == player,
    {
        SimpleEval { player }
    }
}

impl<T: Game> Evaluator<T> for SimpleEval {
    open spec fn spec_value(self, b: T, player: Player) -> int {
        match b.state_spec() {
            GameState::Won(p) => if p == player {
                WIN_VALUE as int
            } else {
                -WIN_VALUE as int
            },
            GameState::Draw => 0,
            GameState::InProgress => 0,
        }
    }

    proof fn lemma_value_bounds(self, b: T, player: Player) {
    }

    proof fn lemma_value_uid(self, b1: T, b2: T, player: Player) {
        b1.lemma_uid_state(b2);
    }

    fn value(&self, board: &T, player: Player) -> (r: i64) {
        match board.game_state() {
            GameState::Won(p) => if p == player {
                WIN_VALUE
            } else {
                -WIN_VALUE
            },
            GameState::Draw => 0,
            GameState::InProgress => 0,
        }
    }

    fn values(&self, boards: &Vec<T>, player: Player) -> (r: Vec<i64>) {
        let mut r: Vec<i64> = Vec::new();
        let mut i: usize = 0;
        while i < boards.len()
            invariant
                i <= boards@.len(),
                r@.len() == i,
                forall|j: int| 0 <= j < boards@.len() ==> (#[trigger] boards@[j]).wf(),
                forall|j: int|
                    0 <= j < i ==> (#[trigger] r@[j]) as int == self.spec_value(
                        boards@[j], player,
                    ),
                forall|j: int| 0 <= j < i ==> -VAL_MAX <= #[trigger] r@[j] <= VAL_MAX,
            decreases boards@.len() - i,
        {
            let v = self.value(&boards[i], player);
            r.push(v);
            i = i + 1;
        }
        r
    }
}

} // verus!
