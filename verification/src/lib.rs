//! Adversarial game-tree search for two-player, perfect-information board
//! games of the Connect-Four family: bitboard boards with reversible moves,
//! negamax / alpha-beta / batch-evaluated search, and best-action selection.

pub mod agents;
pub mod connect4;
pub mod evaluators;
pub mod games;
pub mod grid;
pub mod search;
pub mod stack4;

pub use games::{GameState, Player, TileStates};
