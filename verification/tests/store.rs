use kuhn_cfr::Action;
use kuhn_cfr::ActionHistory;
use kuhn_cfr::InfoSetStore;
use kuhn_cfr::InformationSet;

fn info(actions: Vec<Action>, hand_card: i32) -> InformationSet {
    InformationSet { action_history: ActionHistory::new(actions), hand_card }
}

#[test]
fn get_or_create_inserts_a_zeroed_node() {
    let mut store = InfoSetStore::new();
    let key = info(vec![Action::Check], 2);
    assert!(!store.has_node(&key));
    let node = store.get_or_create(&key, 60_000);
    assert!(store.has_node(&key));
    assert_eq!(node.regret_check, 0);
    assert_eq!(node.regret_bet, 0);
    assert_eq!(node.strategy_check, 0);
    assert_eq!(node.strategy_bet, 0);
    assert_eq!(node.epsilon, 60_000);
}

#[test]
fn get_or_create_is_idempotent() {
    let mut store = InfoSetStore::new();
    let key = info(vec![Action::Check, Action::Bet], 1);
    let first = store.get_or_create(&key, 60_000);
    // a second lookup with the same key returns the same node and creates
    // nothing: even the exploration rate passed the second time is ignored
    let second = store.get_or_create(&key, 0);
    assert_eq!(first, second);
    assert_eq!(second.epsilon, 60_000);
    assert_eq!(store.node_at(&key), first);
}

#[test]
fn distinct_information_sets_get_distinct_nodes() {
    let mut store = InfoSetStore::new();
    let with_card_1 = info(vec![], 1);
    let with_card_2 = info(vec![], 2);
    let after_check = info(vec![Action::Check], 1);
    store.get_or_create(&with_card_1, 0);
    assert!(store.has_node(&with_card_1));
    assert!(!store.has_node(&with_card_2));
    assert!(!store.has_node(&after_check));
    store.update_node(&with_card_1, 10, -4, 3, 5);
    let untouched = store.get_or_create(&with_card_2, 0);
    assert_eq!(untouched.regret_check, 0);
    let updated = store.node_at(&with_card_1);
    assert_eq!(updated.regret_check, 10);
}

#[test]
fn updates_accumulate_and_never_reset() {
    let mut store = InfoSetStore::new();
    let key = info(vec![Action::Bet], 3);
    store.get_or_create(&key, 0);
    store.update_node(&key, 10, -4, 3, 5);
    let n = store.node_at(&key);
    assert_eq!(
        (n.regret_check, n.regret_bet, n.strategy_check, n.strategy_bet),
        (10, -4, 3, 5)
    );
    store.update_node(&key, -25, 4, 0, 2);
    let n = store.node_at(&key);
    assert_eq!(
        (n.regret_check, n.regret_bet, n.strategy_check, n.strategy_bet),
        (-15, 0, 3, 7)
    );
}

#[test]
fn strategy_weights_never_decrease_across_updates() {
    let mut store = InfoSetStore::new();
    let key = info(vec![], 2);
    store.get_or_create(&key, 60_000);
    let mut last = (0i128, 0i128);
    let deltas = vec![(5i128, 0i128), (0, 0), (1_000_000, 1_000_000), (0, 7)];
    for (ds0, ds1) in deltas {
        store.update_node(&key, -3, 3, ds0, ds1);
        let n = store.node_at(&key);
        assert!(n.strategy_check >= last.0);
        assert!(n.strategy_bet >= last.1);
        assert!(n.strategy_check >= 0 && n.strategy_bet >= 0);
        last = (n.strategy_check, n.strategy_bet);
    }
}
