//! The pluggable player interface the game harness drives.

use vstd::prelude::*;
use crate::kuhn::Action;
use crate::kuhn::ActionHistory;

verus! {

/// A participant in a hand: it is told its seat and its card, is asked for
/// an action whenever it is to move, and is handed the hand's outcome.
/// `wf` is whatever well-formedness the implementation maintains between
/// calls.
pub trait Player: Sized {
    spec fn wf(&self) -> bool;

    /// Called once when the player joins a game, with its seat index.
    fn on_register(&mut self, player_id: i32)
        requires
            old(self).wf(),
        ensures
            final(self).wf(),
    ;

    /// Called at the start of every hand with the player's private card.
    fn on_start(&mut self, card: i32)
        requires
            old(self).wf(),
        ensures
            final(self).wf(),
    ;

    /// Asked whenever the player is to move, given the public history.
    fn decide_action(&mut self, game_info: &ActionHistory) -> (action: Action)
        requires
            old(self).wf(),
        ensures
            final(self).wf(),
    ;

    /// Handed the public history and this player's payoff when a hand ends.
    fn handle_result(&mut self, game_info: &ActionHistory, payoff: i64)
        requires
            old(self).wf(),
        ensures
            final(self).wf(),
    ;
}

} // verus!
