//! Rules of the Kuhn poker hand: actions, histories, and the payoff oracle.
//!
//! Two players each ante one chip. Three cards, ranked 1 to 3, are shuffled
//! and one is dealt to each player as private information. Play alternates,
//! starting with player 0. On a turn a player may check or bet one chip.
//! A check after a bet folds: the bettor takes the pot. Two successive
//! checks or two successive bets end the hand in a showdown, where the
//! higher card takes the pot.

use vstd::prelude::*;

verus! {

/// One of the two moves a player may make on their turn.
#[derive(Debug, PartialEq, Eq, Copy, Clone, Hash, Structural)]
pub enum Action {
    Check,
    Bet,
}

impl Action {
    /// Decodes an action from its index: 0 is `Check`, 1 is `Bet`.
    pub fn from_int(action_id: usize) -> (action: Action)
        requires
            action_id < 2,
        ensures
            action == (if action_id == 0 { Action::Check } else { Action::Bet }),
    {
        if action_id == 0 {
            Action::Check
        } else {
            Action::Bet
        }
    }

    /// The size of the action space: every decision point offers two actions.
    pub fn num() -> (n: usize)
        ensures
            n == 2,
    {
        2
    }

    /// Draws one of the two actions uniformly at random.
    pub fn random() -> (action: Action)
    {
        let id = crate::rng::rand_below(2);
        Action::from_int(id as usize)
    }
}

/// The public, append-only record of the actions taken so far in a hand.
#[derive(Debug, PartialEq, Eq, Clone, Hash)]
pub struct ActionHistory(pub Vec<Action>);

impl ActionHistory {
    pub fn new(raw: Vec<Action>) -> (h: ActionHistory)
        ensures
            h.0@ == raw@,
    {
        ActionHistory(raw)
    }

    /// An owned copy with the same actions.
    pub fn duplicate(&self) -> (h: ActionHistory)
        ensures
            h.0@ == self.0@,
    {
        let mut raw: Vec<Action> = Vec::new();
        let mut i: usize = 0;
        while i < self.0.len()
            invariant
                i <= self.0@.len(),
                raw@ == self.0@.take(i as int),
            decreases self.0@.len() - i,
        {
            raw.push(self.0[i]);
            proof {
                assert(raw@ =~= self.0@.take(i + 1));
            }
            i += 1;
        }
        proof {
            assert(raw@ =~= self.0@);
        }
        ActionHistory(raw)
    }
}

/// Whether a history has reached the end of a hand.
///
/// A hand is over once at least two actions were taken and the last two are
/// not a bet answering a check: a final check ends the hand (as a fold after
/// a bet, or as the second of two checks), and a bet answered by a bet ends
/// it in a showdown.
pub open spec fn is_terminal(h: Seq<Action>) -> bool {
    h.len() >= 2 && !(h[h.len() - 1] == Action::Bet && h[h.len() - 2] == Action::Check)
}

/// The payoff to player 0 at a terminal history, given the two dealt cards.
/// `None` when the history is not yet terminal.
pub open spec fn spec_payoff(h: Seq<Action>, card0: int, card1: int) -> Option<int> {
    if h.len() < 2 {
        None
    } else {
        let last = h[h.len() - 1];
        let prev = h[h.len() - 2];
        if last == Action::Check {
            if prev == Action::Check {
                // showdown after two checks: pot of 1 to the higher card
                if card0 > card1 { Some(1) } else { Some(-1) }
            } else {
                // a check answering a bet is a fold: the bettor takes the pot;
                // the bettor acted two plies back, at index len - 2
                if h.len() % 2 == 0 { Some(1) } else { Some(-1) }
            }
        } else if prev == Action::Bet {
            // showdown after bet and re-bet: pot of 2 to the higher card
            if card0 > card1 { Some(2) } else { Some(-2) }
        } else {
            // a single unanswered bet: the hand goes on
            None
        }
    }
}

/// A history is a valid prefix of a legal hand when no proper prefix of it
/// has already ended the hand.
pub open spec fn valid_history(h: Seq<Action>) -> bool {
    forall|i: int| 2 <= i < h.len() ==> !is_terminal(#[trigger] h.take(i))
}

/// The payoff oracle: the payoff to the first-acting player (player 0) at a
/// terminal history, or `None` while the hand is still live. Player 1's
/// payoff is always the negation. `cards[0]` and `cards[1]` are the two
/// players' cards; any further entries are the undealt remainder of the deck.
pub fn get_payoff(action_history: &ActionHistory, cards: &Vec<i32>) -> (payoff: Option<i64>)
    requires
        cards@.len() >= 2,
    ensures
        payoff matches Some(p) ==> spec_payoff(action_history.0@, cards@[0] as int, cards@[1] as int)
            == Some(p as int),
        payoff is None <==> spec_payoff(action_history.0@, cards@[0] as int, cards@[1] as int) is None,
        payoff is Some <==> is_terminal(action_history.0@),
{
    let n = action_history.0.len();
    if n < 2 {
        return None;
    }

    let prev_action = action_history.0[n - 1];
    let prev_prev_action = action_history.0[n - 2];

    if prev_action == Action::Check {
        if prev_prev_action == Action::Check {
            if cards[0] > cards[1] {
                return Some(1);
            }
            return Some(-1);
        }
        // the player who bet wins the pot; the bet sat two plies back
        let bet_player_id = n % 2;
        if bet_player_id == 0 {
            return Some(1);
        }
        return Some(-1);
    }

    if prev_action == Action::Bet && prev_prev_action == Action::Bet {
        if cards[0] > cards[1] {
            return Some(2);
        }
        return Some(-2);
    }

    // a check followed by a bet: not terminal yet
    None
}

/// The player to move: histories of even length are player 0's turn.
pub open spec fn mover_of(h: Seq<Action>) -> int {
    h.len() as int % 2
}

/// The card of the player to move, out of the two dealt cards.
pub open spec fn mover_card(h: Seq<Action>, card0: int, card1: int) -> int {
    if mover_of(h) == 0 {
        card0
    } else {
        card1
    }
}

/// The terminal payoff seen from the player whose turn it would be: the
/// oracle's player-0 value, negated when player 1 is to move.
pub open spec fn mover_view_payoff(h: Seq<Action>, card0: int, card1: int) -> int
    recommends
        spec_payoff(h, card0, card1) is Some,
{
    if mover_of(h) == 0 {
        spec_payoff(h, card0, card1)->Some_0
    } else {
        -spec_payoff(h, card0, card1)->Some_0
    }
}

/// The deck order a deal index stands for: the six permutations of the
/// three-card deck, one per index.
pub open spec fn deal_spec(k: int) -> Seq<i32> {
    if k == 0 {
        seq![1i32, 2i32, 3i32]
    } else if k == 1 {
        seq![1i32, 3i32, 2i32]
    } else if k == 2 {
        seq![2i32, 1i32, 3i32]
    } else if k == 3 {
        seq![2i32, 3i32, 1i32]
    } else if k == 4 {
        seq![3i32, 1i32, 2i32]
    } else {
        seq![3i32, 2i32, 1i32]
    }
}

/// The six orders in which the three-card deck can be dealt: the first two
/// cards go to the players, the third stays face down.
pub fn deal_cards(k: usize) -> (cards: Vec<i32>)
    requires
        k < 6,
    ensures
        cards@ == deal_spec(k as int),
        cards@.len() == 3,
        1 <= cards@[0] <= 3,
        1 <= cards@[1] <= 3,
        1 <= cards@[2] <= 3,
        cards@[0] != cards@[1],
        cards@[0] != cards@[2],
        cards@[1] != cards@[2],
{
    if k == 0 {
        vec![1, 2, 3]
    } else if k == 1 {
        vec![1, 3, 2]
    } else if k == 2 {
        vec![2, 1, 3]
    } else if k == 3 {
        vec![2, 3, 1]
    } else if k == 4 {
        vec![3, 1, 2]
    } else {
        vec![3, 2, 1]
    }
}

/// The payoff to a given player at a terminal history: player 0 receives the
/// oracle's value, player 1 its negation.
pub open spec fn payoff_for_player(h: Seq<Action>, card0: int, card1: int, player: int) -> int
    recommends
        spec_payoff(h, card0, card1) is Some,
        0 <= player < 2,
{
    if player == 0 {
        spec_payoff(h, card0, card1)->Some_0
    } else {
        -spec_payoff(h, card0, card1)->Some_0
    }
}

/// The game is zero-sum: at every terminal history, for every deal, the two
/// players' payoffs sum to zero.
pub proof fn lemma_zero_sum(h: Seq<Action>, card0: int, card1: int)
    requires
        spec_payoff(h, card0, card1) is Some,
    ensures
        payoff_for_player(h, card0, card1, 0) + payoff_for_player(h, card0, card1, 1) == 0,
{
}

/// A valid history that is still live holds at most two actions: any longer
/// live history would have to extend a check answering a bet, but then its
/// prefix would already have folded.
pub proof fn lemma_live_history_is_short(h: Seq<Action>)
    requires
        valid_history(h),
        !is_terminal(h),
    ensures
        h.len() <= 2,
{
    if h.len() > 2 {
        // h is live, so it ends with a check answered by a bet
        let p = h.take(h.len() - 1);
        assert(p[p.len() - 1] == h[h.len() - 2]);
        assert(is_terminal(p));
    }
}

/// Extending a live valid history by one action keeps it valid.
pub proof fn lemma_push_keeps_valid(h: Seq<Action>, a: Action)
    requires
        valid_history(h),
        !is_terminal(h),
    ensures
        valid_history(h.push(a)),
{
    let hp = h.push(a);
    assert forall|i: int| 2 <= i < hp.len() implies !is_terminal(#[trigger] hp.take(i)) by {
        assert(hp.take(i) =~= h.take(i));
        if i < h.len() {
        } else {
            assert(h.take(i) =~= h);
        }
    }
}

/// Whichever action extends a live history of two or more actions ends the
/// hand: the only live suffix is a bet answering a check, and both replies
/// to a bet are terminal.
pub proof fn lemma_reply_to_bet_ends_hand(h: Seq<Action>, a: Action)
    requires
        !is_terminal(h),
        h.len() >= 2,
    ensures
        is_terminal(h.push(a)),
{
    let hp = h.push(a);
    assert(hp[hp.len() - 2] == h[h.len() - 1]);
}

/// How many more actions a hand from history `h` can take before it ends:
/// a live history of two or more actions ends on the very next action, and
/// a shorter one within three.
pub open spec fn hand_measure(h: Seq<Action>) -> int {
    if is_terminal(h) {
        0
    } else if h.len() >= 2 {
        1
    } else {
        3 - h.len()
    }
}

/// Appending any action to a live history brings the hand strictly closer
/// to its end.
pub proof fn lemma_hand_measure_decreases(h: Seq<Action>, a: Action)
    requires
        !is_terminal(h),
    ensures
        0 <= hand_measure(h.push(a)) < hand_measure(h),
{
    if h.len() >= 2 {
        lemma_reply_to_bet_ends_hand(h, a);
    }
}

/// The two-player turn-taking harness: it deals, asks the registered
/// players to move in turn until the hand is over, and hands both players
/// the outcome.
pub struct KuhnGame<P: crate::player::Player> {
    cards: Vec<i32>,
    action_history: ActionHistory,
    players: Vec<P>,
}

impl<P: crate::player::Player> KuhnGame<P> {
    /// The deck holds the three cards and every registered player is
    /// well-formed.
    pub closed spec fn wf(self) -> bool {
        &&& self.cards@.len() == 3
        &&& forall|i: int| 0 <= i < 3 ==> 1 <= #[trigger] self.cards@[i] <= 3
        &&& forall|i: int|
            0 <= i < self.players@.len() ==> (#[trigger] self.players@[i]).wf()
    }

    /// How many players have joined.
    pub closed spec fn player_count(self) -> int {
        self.players@.len() as int
    }

    pub fn new() -> (game: KuhnGame<P>)
        ensures
            game.wf(),
            game.player_count() == 0,
    {
        KuhnGame {
            cards: vec![1, 2, 3],
            action_history: ActionHistory(Vec::new()),
            players: Vec::new(),
        }
    }

    /// Seats one more player, telling it its seat index. The table seats
    /// exactly two.
    pub fn add_player(&mut self, p: P)
        requires
            old(self).wf(),
            old(self).player_count() < 2,
            p.wf(),
        ensures
            final(self).wf(),
            final(self).player_count() == old(self).player_count() + 1,
    {
        let mut p = p;
        let seat = self.players.len() as i32;
        p.on_register(seat);
        self.players.push(p);
    }

    /// Plays `total_round` hands: each deals a fresh random permutation of
    /// the deck, lets the two players alternate moves until the oracle
    /// reports a payoff, and hands each player its signed outcome.
    pub fn start(&mut self, total_round: usize)
        requires
            old(self).wf(),
            old(self).player_count() == 2,
        ensures
            final(self).wf(),
            final(self).player_count() == 2,
    {
        let mut p1 = self.players.pop().unwrap();
        let mut p0 = self.players.pop().unwrap();
        let mut round: usize = 0;
        while round < total_round
            invariant
                p0.wf(),
                p1.wf(),
                self.cards@.len() == 3,
                forall|i: int| 0 <= i < 3 ==> 1 <= #[trigger] self.cards@[i] <= 3,
                self.players@.len() == 0,
            decreases total_round - round,
        {
            let k = crate::rng::rand_below(6);
            self.cards = deal_cards(k as usize);
            self.action_history = ActionHistory(Vec::new());
            p0.on_start(self.cards[0]);
            p1.on_start(self.cards[1]);

            let mut maybe_payoff = get_payoff(&self.action_history, &self.cards);
            while maybe_payoff.is_none()
                invariant
                    p0.wf(),
                    p1.wf(),
                    self.cards@.len() == 3,
                    forall|i: int| 0 <= i < 3 ==> 1 <= #[trigger] self.cards@[i] <= 3,
                    self.players@.len() == 0,
                    maybe_payoff is Some <==> is_terminal(self.action_history.0@),
                    maybe_payoff matches Some(p) ==> spec_payoff(
                        self.action_history.0@,
                        self.cards@[0] as int,
                        self.cards@[1] as int,
                    ) == Some(p as int),
                decreases hand_measure(self.action_history.0@),
            {
                let mover = self.action_history.0.len() % 2;
                let action = if mover == 0 {
                    p0.decide_action(&self.action_history)
                } else {
                    p1.decide_action(&self.action_history)
                };
                proof {
                    lemma_hand_measure_decreases(self.action_history.0@, action);
                }
                self.action_history.0.push(action);
                maybe_payoff = get_payoff(&self.action_history, &self.cards);
            }

            let payoff = maybe_payoff.unwrap();
            proof {
                assert(-2 <= payoff as int <= 2);
            }
            p0.handle_result(&self.action_history, payoff);
            p1.handle_result(&self.action_history, -payoff);
            round = round + 1;
        }
        self.players.push(p0);
        self.players.push(p1);
    }
}

} // verus!

