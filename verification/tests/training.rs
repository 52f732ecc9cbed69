use kuhn_cfr::Action;
use kuhn_cfr::ActionHistory;
use kuhn_cfr::CfrPlayer;
use kuhn_cfr::InfoSetStore;
use kuhn_cfr::Player;
use kuhn_cfr::SCALE;
use kuhn_cfr::get_payoff;

fn history(actions: Vec<Action>) -> ActionHistory {
    ActionHistory::new(actions)
}

#[test]
fn vanilla_walk_returns_the_exact_uniform_value() {
    // with a fresh store every node plays uniformly, so the walk's value is
    // the exact expected payoff of uniform self-play: for the deal (2, 1) it
    // is 9/8 chips for player 0
    let mut store = InfoSetStore::new();
    let cards = vec![2, 1, 3];
    let mut h = history(vec![]);
    let value = store.cfr(&mut h, &cards, SCALE, SCALE);
    assert_eq!(value, 1_125_000);
    assert_eq!(h, history(vec![]));
}

#[test]
fn vanilla_walk_folds_the_exact_counterfactual_updates() {
    let mut store = InfoSetStore::new();
    let cards = vec![2, 1, 3];
    let mut h = history(vec![]);
    let _ = store.cfr(&mut h, &cards, SCALE, SCALE);
    let root = store.node_at(&kuhn_cfr::InformationSet {
        action_history: history(vec![]),
        hand_card: 2,
    });
    // action values at the root are 3/4 (check) and 3/2 (bet) against the
    // node value 9/8, each weighted by the opponent's full reach
    assert_eq!(root.regret_check, -375_000);
    assert_eq!(root.regret_bet, 375_000);
    assert_eq!(root.strategy_check, 500_000);
    assert_eq!(root.strategy_bet, 500_000);
    assert_eq!(root.epsilon, 0);
}

#[test]
fn vanilla_walk_value_of_each_opening_reply() {
    // the subtree values under uniform play, for the deal (2, 1), from the
    // replying player's point of view: -3/4 of a chip after a check and
    // -3/2 after a bet
    let cards = vec![2, 1, 3];
    let mut store = InfoSetStore::new();
    let mut h = history(vec![Action::Check]);
    assert_eq!(store.cfr(&mut h, &cards, SCALE, SCALE), -750_000);
    let mut store = InfoSetStore::new();
    let mut h = history(vec![Action::Bet]);
    assert_eq!(store.cfr(&mut h, &cards, SCALE, SCALE), -1_500_000);
}

#[test]
fn vanilla_walk_weights_interior_updates_by_both_reaches() {
    let mut store = InfoSetStore::new();
    let cards = vec![2, 1, 3];
    let mut h = history(vec![]);
    let _ = store.cfr(&mut h, &cards, SCALE, SCALE);
    let node_of = |actions: Vec<Action>, card: i32| {
        store.node_at(&kuhn_cfr::InformationSet {
            action_history: history(actions),
            hand_card: card,
        })
    };
    // player 1 after a check: the opponent reached with probability 1/2,
    // the player's own reach is still 1
    let after_check = node_of(vec![Action::Check], 1);
    assert_eq!(after_check.regret_check, -125_000);
    assert_eq!(after_check.regret_bet, 125_000);
    assert_eq!(after_check.strategy_check, 500_000);
    assert_eq!(after_check.strategy_bet, 500_000);
    // player 1 after a bet: folding beats calling into the higher card
    let after_bet = node_of(vec![Action::Bet], 1);
    assert_eq!(after_bet.regret_check, 250_000);
    assert_eq!(after_bet.regret_bet, -250_000);
    assert_eq!(after_bet.strategy_check, 500_000);
    assert_eq!(after_bet.strategy_bet, 500_000);
    // player 0 facing a raise: both reaches have halved, so the regrets are
    // half-weighted and the strategy weights quartered
    let facing_raise = node_of(vec![Action::Check, Action::Bet], 2);
    assert_eq!(facing_raise.regret_check, -750_000);
    assert_eq!(facing_raise.regret_bet, 750_000);
    assert_eq!(facing_raise.strategy_check, 250_000);
    assert_eq!(facing_raise.strategy_bet, 250_000);
}

#[test]
fn sampled_walk_stays_within_the_payoff_range() {
    let mut store = InfoSetStore::new();
    for _ in 0..200 {
        let cards = vec![2, 1, 3];
        let mut h = history(vec![]);
        let value = store.mccfr(&mut h, &cards, SCALE, SCALE);
        assert!(value.abs() <= 2 * SCALE as i64);
        assert_eq!(h, history(vec![]));
    }
}

#[test]
fn training_leaves_money_untouched_and_populates_the_store() {
    let mut player = CfrPlayer::new();
    assert_eq!(player.money(), 0);
    let _ = player.train(2_000);
    assert_eq!(player.money(), 0);
    // the root information sets of every card have been visited
    for card in 1..=3 {
        let stats = player.node_stats(&history(vec![]), card).unwrap();
        assert_eq!(stats.epsilon, 60_000);
        assert!(stats.strategy_check >= 0 && stats.strategy_bet >= 0);
        let (q0, q1) = player.average_strategy(&history(vec![]), card).unwrap();
        assert_eq!(q0 + q1, SCALE);
    }
    assert_eq!(player.average_strategy(&history(vec![]), 4), None);
}

#[test]
fn average_payoff_approaches_the_game_value() {
    let mut player = CfrPlayer::new();
    let iterations = 100_000usize;
    let total = player.train(iterations);
    // the average root value per hand, in chips scaled by SCALE; optimal
    // play is worth -1/18 of a chip to player 0, so a trained run hovers
    // near zero
    let avg = total / iterations as i128;
    assert!(avg.abs() < 150_000, "average payoff per hand was {}", avg);
}

#[test]
fn trained_strategy_approaches_the_equilibrium_shape() {
    let mut player = CfrPlayer::new();
    let _ = player.train(100_000);
    // holding the middle card, opening with a bet is not part of any
    // equilibrium: its long-run weight stays near the exploration floor
    let (_, bet_with_2) = player.average_strategy(&history(vec![]), 2).unwrap();
    assert!(bet_with_2 < 400_000, "bet weight with card 2 was {}", bet_with_2);
    // holding the lowest card, the equilibrium bluffs at most a third of
    // the time
    let (_, bluff_with_1) = player.average_strategy(&history(vec![]), 1).unwrap();
    assert!(bluff_with_1 < 600_000, "bluff weight with card 1 was {}", bluff_with_1);
    // facing a bet with the highest card, calling dominates
    let (_, call_with_3) = player
        .average_strategy(&history(vec![Action::Bet]), 3)
        .unwrap();
    assert!(call_with_3 > 500_000, "call weight with card 3 was {}", call_with_3);
}

#[test]
fn trained_player_folds_the_lowest_card_to_a_bet() {
    let mut player = CfrPlayer::new();
    let _ = player.train(100_000);
    // calling a bet with the lowest card loses two chips where folding
    // loses one: its long-run call weight stays near the exploration floor
    let (_, call_with_1) = player
        .average_strategy(&history(vec![Action::Bet]), 1)
        .unwrap();
    assert!(call_with_1 < 300_000, "call weight with card 1 was {}", call_with_1);
}

#[test]
fn two_learning_players_split_a_zero_sum_game() {
    let mut p0 = CfrPlayer::new();
    let mut p1 = CfrPlayer::new();
    for round in 0..300 {
        let cards = kuhn_cfr::deal_cards(round % 6);
        p0.on_start(cards[0]);
        p1.on_start(cards[1]);
        let mut h = history(vec![]);
        let mut payoff = get_payoff(&h, &cards);
        while payoff.is_none() {
            let action = if h.0.len() % 2 == 0 {
                p0.decide_action(&h)
            } else {
                p1.decide_action(&h)
            };
            h.0.push(action);
            payoff = get_payoff(&h, &cards);
        }
        let value = payoff.unwrap();
        p0.handle_result(&h, value);
        p1.handle_result(&h, -value);
        assert_eq!(p0.money() + p1.money(), 0);
    }
}

#[test]
fn a_full_game_of_two_learners_runs_to_completion() {
    let mut game: kuhn_cfr::KuhnGame<CfrPlayer> = kuhn_cfr::KuhnGame::new();
    game.add_player(CfrPlayer::new());
    game.add_player(CfrPlayer::new());
    game.start(100);
}
