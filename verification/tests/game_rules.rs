use kuhn_cfr::Action;
use kuhn_cfr::ActionHistory;
use kuhn_cfr::deal_cards;
use kuhn_cfr::get_payoff;

fn history(actions: Vec<Action>) -> ActionHistory {
    ActionHistory::new(actions)
}

#[test]
fn action_from_int_decodes_both_actions() {
    assert_eq!(Action::from_int(0), Action::Check);
    assert_eq!(Action::from_int(1), Action::Bet);
    assert_eq!(Action::num(), 2);
}

#[test]
fn empty_and_single_action_histories_are_live() {
    let cards = vec![2, 1, 3];
    assert_eq!(get_payoff(&history(vec![]), &cards), None);
    assert_eq!(get_payoff(&history(vec![Action::Check]), &cards), None);
    assert_eq!(get_payoff(&history(vec![Action::Bet]), &cards), None);
}

#[test]
fn two_checks_reach_showdown_for_one_chip() {
    let cards = vec![2, 1];
    let h = history(vec![Action::Check, Action::Check]);
    assert_eq!(get_payoff(&h, &cards), Some(1));
}

#[test]
fn fold_after_opening_bet_pays_the_bettor() {
    let cards = vec![2, 1];
    let h = history(vec![Action::Bet, Action::Check]);
    assert_eq!(get_payoff(&h, &cards), Some(1));
}

#[test]
fn fold_after_raised_check_pays_the_bettor() {
    let cards = vec![2, 1];
    let h = history(vec![Action::Check, Action::Bet, Action::Check]);
    assert_eq!(get_payoff(&h, &cards), Some(-1));
}

#[test]
fn called_bet_reaches_showdown_for_two_chips() {
    let cards = vec![2, 1];
    let h = history(vec![Action::Check, Action::Bet, Action::Bet]);
    assert_eq!(get_payoff(&h, &cards), Some(2));

    let h = history(vec![Action::Bet, Action::Bet]);
    assert_eq!(get_payoff(&h, &cards), Some(2));
}

#[test]
fn check_then_bet_is_not_terminal() {
    let cards = vec![2, 1];
    let h = history(vec![Action::Check, Action::Bet]);
    assert_eq!(get_payoff(&h, &cards), None);
}

#[test]
fn lower_card_loses_every_showdown() {
    let cards = vec![1, 3];
    assert_eq!(get_payoff(&history(vec![Action::Check, Action::Check]), &cards), Some(-1));
    assert_eq!(get_payoff(&history(vec![Action::Bet, Action::Bet]), &cards), Some(-2));
    assert_eq!(
        get_payoff(&history(vec![Action::Check, Action::Bet, Action::Bet]), &cards),
        Some(-2)
    );
}

#[test]
fn payoffs_sum_to_zero_over_all_terminal_histories_and_deals() {
    let terminal_histories = vec![
        vec![Action::Check, Action::Check],
        vec![Action::Check, Action::Bet, Action::Check],
        vec![Action::Check, Action::Bet, Action::Bet],
        vec![Action::Bet, Action::Check],
        vec![Action::Bet, Action::Bet],
    ];
    for k in 0..6 {
        let cards = deal_cards(k);
        for actions in &terminal_histories {
            let h = history(actions.clone());
            let payoff_p0 = get_payoff(&h, &cards).unwrap();
            // player 1's payoff is the negation of player 0's
            let payoff_p1 = -payoff_p0;
            assert_eq!(payoff_p0 + payoff_p1, 0);
            assert!(payoff_p0 != 0);
        }
    }
}

#[test]
fn deal_cards_gives_all_six_permutations() {
    let mut seen = Vec::new();
    for k in 0..6 {
        let cards = deal_cards(k);
        assert_eq!(cards.len(), 3);
        let mut sorted = cards.clone();
        sorted.sort();
        assert_eq!(sorted, vec![1, 2, 3]);
        assert!(!seen.contains(&cards));
        seen.push(cards);
    }
}

#[test]
fn random_action_draws_both_actions() {
    let mut saw_check = false;
    let mut saw_bet = false;
    for _ in 0..500 {
        match Action::random() {
            Action::Check => saw_check = true,
            Action::Bet => saw_bet = true,
        }
    }
    assert!(saw_check && saw_bet);
}
