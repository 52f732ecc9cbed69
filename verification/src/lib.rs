//! An approximate Nash-equilibrium trainer for two-player Kuhn poker, by
//! counterfactual regret minimization.
//!
//! The rules of the hand live in the payoff oracle `get_payoff`. A
//! `CfrPlayer` trains by self-play: each hand, a walker recurses through the
//! game tree and folds counterfactual regrets and strategy weights into one
//! node per information set — the pair of public history and own card. The
//! full walker (`InfoSetStore::cfr`) visits both actions at every decision
//! point; the sampled walker (`InfoSetStore::mccfr`) draws one action from
//! an exploring distribution and importance-weights its updates. The
//! normalized long-run strategy weights converge toward an equilibrium.
//!
//! The crate models the game with exact integer arithmetic: probabilities
//! and accumulated statistics are fixed-point values scaled by `SCALE`.

use vstd::prelude::*;

mod cfr_player;
mod fixed;
mod kuhn;
mod node;
mod player;
mod rng;

pub use kuhn::Action;
pub use kuhn::ActionHistory;
pub use kuhn::get_payoff;
pub use kuhn::deal_cards;
pub use kuhn::KuhnGame;
pub use node::CfrNode;
pub use player::Player;
pub use cfr_player::CfrPlayer;
pub use cfr_player::InfoSetStore;
pub use cfr_player::InformationSet;

verus! {

/// Fixed-point scale: a probability of one is represented by `SCALE`.
pub const SCALE: u64 = 1_000_000;

} // verus!
