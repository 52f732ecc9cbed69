use kuhn_cfr::Action;
use kuhn_cfr::CfrNode;
use kuhn_cfr::SCALE;

fn node(regret_check: i128, regret_bet: i128, epsilon: u64) -> CfrNode {
    CfrNode {
        regret_check,
        regret_bet,
        strategy_check: 0,
        strategy_bet: 0,
        epsilon,
    }
}

#[test]
fn fresh_node_is_zeroed() {
    let n = CfrNode::new(60_000);
    assert_eq!(n.regret_check, 0);
    assert_eq!(n.regret_bet, 0);
    assert_eq!(n.strategy_check, 0);
    assert_eq!(n.strategy_bet, 0);
    assert_eq!(n.epsilon, 60_000);
}

#[test]
fn all_zero_regrets_give_the_uniform_distribution() {
    let (q0, q1) = node(0, 0, 0).get_action_probability();
    assert_eq!((q0, q1), (SCALE / 2, SCALE / 2));
}

#[test]
fn all_negative_regrets_give_the_uniform_distribution() {
    let (q0, q1) = node(-5_000_000, -3, 0).get_action_probability();
    assert_eq!((q0, q1), (SCALE / 2, SCALE / 2));
}

#[test]
fn positive_regrets_split_proportionally() {
    let (q0, q1) = node(30, 10, 0).get_action_probability();
    assert_eq!((q0, q1), (750_000, 250_000));
}

#[test]
fn negative_regret_gets_no_mass_without_exploration() {
    let (q0, q1) = node(-5, 7, 0).get_action_probability();
    assert_eq!((q0, q1), (0, SCALE));
}

#[test]
fn distribution_sums_to_one_for_any_accumulators() {
    let cases = vec![
        (0i128, 0i128, 0u64),
        (-5, -3, 0),
        (30, 10, 0),
        (-5, 7, 0),
        (1, 2, 60_000),
        (999, 1, 60_000),
        (-1, -1, 1_000_000),
        (123_456_789, 987_654_321, 60_000),
    ];
    for (r0, r1, eps) in cases {
        let (q0, q1) = node(r0, r1, eps).get_action_probability();
        assert_eq!(q0 + q1, SCALE);
    }
}

#[test]
fn exploration_keeps_every_action_above_the_floor() {
    let cases = vec![
        (0i128, 0i128),
        (-5, -3),
        (30, 10),
        (-5, 7),
        (7, -5),
        (1_000_000_000, 1),
    ];
    for (r0, r1) in cases {
        let (q0, q1) = node(r0, r1, 60_000).get_action_probability();
        assert!(q0 >= 30_000);
        assert!(q1 >= 30_000);
    }
}

#[test]
fn exploration_blend_matches_the_formula() {
    // base mass of checking is zero, so the exploring distribution gives it
    // exactly half the exploration rate
    let (q0, q1) = node(-5, 7, 60_000).get_action_probability();
    assert_eq!((q0, q1), (30_000, 970_000));
}

#[test]
fn greedy_action_never_picks_a_nonpositive_regret() {
    for _ in 0..200 {
        assert_eq!(node(-5, 7, 0).get_action(), Action::Bet);
        assert_eq!(node(7, -5, 0).get_action(), Action::Check);
        assert_eq!(node(0, 3, 0).get_action(), Action::Bet);
    }
}

#[test]
fn greedy_action_mixes_when_nothing_is_positive() {
    let n = node(-1, -1, 0);
    let mut saw_check = false;
    let mut saw_bet = false;
    for _ in 0..500 {
        match n.get_action() {
            Action::Check => saw_check = true,
            Action::Bet => saw_bet = true,
        }
    }
    assert!(saw_check && saw_bet);
}

#[test]
fn greedy_action_mixes_proportionally_when_both_are_positive() {
    let n = node(5, 5, 0);
    let mut saw_check = false;
    let mut saw_bet = false;
    for _ in 0..500 {
        match n.get_action() {
            Action::Check => saw_check = true,
            Action::Bet => saw_bet = true,
        }
    }
    assert!(saw_check && saw_bet);
}
