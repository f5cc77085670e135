//! The two-player game abstraction: players, tile states, game status, and
//! the `Game` trait that every concrete board implements.

use vstd::prelude::*;

verus! {

/// One of the two players. In the packed bit representation a tile owned by
/// `Red` holds the code 1 and a tile owned by `Yellow` holds the code 2.
#[derive(Clone, Copy, PartialEq, Eq, Structural, Debug, Hash)]
pub enum Player {
    Red,
    Yellow,
}

/// The contents of one board cell.
#[derive(Clone, Copy, PartialEq, Eq, Structural, Debug)]
pub enum TileStates {
    Empty,
    Full(Player),
}

/// Status of a game: still being played, drawn, or won by one player.
#[derive(Clone, Copy, PartialEq, Eq, Structural, Debug, Hash)]
pub enum GameState {
    Won(Player),
    Draw,
    InProgress,
}

impl Player {
    /// The opposing player.
    pub open spec fn opponent_spec(self) -> Player {
        match self {
            Player::Red => Player::Yellow,
            Player::Yellow => Player::Red,
        }
    }

    /// The two-bit code this player's tiles carry in a packed board.
    pub open spec fn code_spec(self) -> u8 {
        match self {
            Player::Red => 1u8,
            Player::Yellow => 2u8,
        }
    }

    pub fn opponent(self) -> (r: Player)
        ensures
            r == self.opponent_spec(),
    {
        match self {
            Player::Red => Player::Yellow,
            Player::Yellow => Player::Red,
        }
    }

    pub fn code(self) -> (r: u8)
        ensures
            r == self.code_spec(),
    {
        match self {
            Player::Red => 1u8,
            Player::Yellow => 2u8,
        }
    }
}

/// A two-player game with three possible outcomes: a win for either player or
/// a draw. A board is mutated exclusively through `play_action` /
/// `reverse_last_action` pairs in strict last-in-first-out order.
pub trait Game: Sized + Copy {
    type Action: Copy;

    /// Internal consistency of a board value: the cached status and the
    /// packed cells agree. Established by `new` and preserved by legal play.
    spec fn wf(self) -> bool;

    spec fn state_spec(self) -> GameState;

    spec fn player_spec(self) -> Player;

    spec fn uid_spec(self) -> u128;

    /// The legal actions, in the order `legal_actions` enumerates them.
    spec fn legal_spec(self) -> Seq<Self::Action>;

    /// The board after playing `a`: the touched cell filled, the status
    /// recomputed, the turn passed to the opponent.
    spec fn play_spec(self, a: Self::Action) -> Self;

    /// The structural inverse of `play_spec`: the touched cell cleared, the
    /// status back in progress, the turn handed back.
    spec fn unplay_spec(self, a: Self::Action) -> Self;

    spec fn vectorize_spec(self, player: Player) -> Seq<i64>;

    /// Playing a legal action keeps the board well formed and passes the turn.
    proof fn lemma_play_wf(self, a: Self::Action)
        requires
            self.wf(),
            self.state_spec() == GameState::InProgress,
            self.legal_spec().contains(a),
        ensures
            self.play_spec(a).wf(),
            self.play_spec(a).player_spec() == self.player_spec().opponent_spec(),
    ;

    /// Reversing the action just played restores the exact previous board.
    proof fn lemma_unplay_play(self, a: Self::Action)
        requires
            self.wf(),
            self.state_spec() == GameState::InProgress,
            self.legal_spec().contains(a),
        ensures
            self.play_spec(a).unplay_spec(a) == self,
    ;

    /// A board still in progress always offers at least one action.
    proof fn lemma_inprogress_has_actions(self)
        requires
            self.wf(),
            self.state_spec() == GameState::InProgress,
        ensures
            self.legal_spec().len() > 0,
    ;

    /// The uid determines the game status of a well-formed board, which makes
    /// it a sound memoization key for position values.
    proof fn lemma_uid_state(self, other: Self)
        requires
            self.wf(),
            other.wf(),
            self.uid_spec() == other.uid_spec(),
        ensures
            self.state_spec() == other.state_spec(),
    ;

    fn new() -> (r: Self)
        ensures
            r.wf(),
            r.uid_spec() == 0,
            r.state_spec() == GameState::InProgress,
            r.player_spec() == Player::Red,
    ;

    fn play_action(&mut self, action: Self::Action)
        requires
            old(self).wf(),
            old(self).state_spec() == GameState::InProgress,
            old(self).legal_spec().contains(action),
        ensures
            *final(self) == old(self).play_spec(action),
    ;

    fn reverse_last_action(&mut self, last_action: Self::Action)
        requires
            exists|b: Self|
                #[trigger] b.play_spec(last_action) == *old(self) && b.wf() && b.state_spec()
                    == GameState::InProgress && b.legal_spec().contains(last_action),
        ensures
            *final(self) == old(self).unplay_spec(last_action),
    ;

    fn game_state(&self) -> (r: GameState)
        ensures
            r == self.state_spec(),
    ;

    fn cur_player(&self) -> (r: Player)
        ensures
            r == self.player_spec(),
    ;

    fn legal_actions(&self) -> (r: Vec<Self::Action>)
        ensures
            r@ == self.legal_spec(),
    ;

    /// Feature vector for an external evaluator: 1 for cells owned by
    /// `player`, -1 for the opponent's, 0 for empty ones.
    fn vectorize(&self, player: Player) -> (r: Vec<i64>)
        ensures
            r@ == self.vectorize_spec(player),
    ;

    /// The packed cell pattern, which uniquely identifies the position.
    fn uid(&self) -> (r: u128)
        ensures
            r == self.uid_spec(),
    ;
}

} // verus!
