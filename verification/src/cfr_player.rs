//! The information-set store, the CFR training player, and the two
//! game-tree walkers that update it.

use vstd::prelude::*;
use crate::SCALE;
use crate::kuhn::Action;
use crate::kuhn::ActionHistory;
use crate::kuhn::hand_measure;
use crate::kuhn::is_terminal;
use crate::kuhn::mover_card;
use crate::kuhn::mover_of;
use crate::kuhn::mover_view_payoff;
use crate::kuhn::spec_payoff;
use crate::kuhn::valid_history;
use crate::node::CfrNode;
use crate::node::dist_bet;
use crate::node::dist_check;
use crate::player::Player;
use vstd::arithmetic::mul::lemma_mul_inequality;
use vstd::arithmetic::mul::lemma_mul_nonnegative;

verus! {

/// Everything a player may condition a decision on: the public history and
/// their own card. The opponent's card is never part of it.
#[derive(Debug, PartialEq, Eq, Clone, Hash)]
pub struct InformationSet {
    pub action_history: ActionHistory,
    pub hand_card: i32,
}

/// An information set that can arise in play: a valid, still-live history
/// (at most two actions) and a card from the deck.
pub open spec fn valid_info_set(h: Seq<Action>, hand_card: int) -> bool {
    &&& valid_history(h)
    &&& h.len() <= 2
    &&& 1 <= hand_card <= 3
}

impl InformationSet {
    pub open spec fn valid(self) -> bool {
        valid_info_set(self.action_history.0@, self.hand_card as int)
    }
}

/// 0 for a check, 1 for a bet.
pub open spec fn action_bit(a: Action) -> int {
    if a == Action::Check {
        0
    } else {
        1
    }
}

/// A numeric code for a history of at most two actions: the histories of
/// length 0, 1 and 2 fill the ranges {1}, {2, 3} and {4..7}.
pub open spec fn hist_code(h: Seq<Action>) -> int {
    if h.len() == 0 {
        1
    } else if h.len() == 1 {
        2 + action_bit(h[0])
    } else {
        4 + 2 * action_bit(h[0]) + action_bit(h[1])
    }
}

/// The slot an information set occupies in the store's table.
pub open spec fn info_index(h: Seq<Action>, hand_card: int) -> int {
    (hand_card - 1) * 8 + hist_code(h)
}

/// Number of slots in the table: three cards times codes below 8.
pub const NODE_SLOTS: usize = 24;

/// Distinct information sets occupy distinct slots.
pub proof fn lemma_info_index_injective(
    h1: Seq<Action>,
    c1: int,
    h2: Seq<Action>,
    c2: int,
)
    requires
        valid_info_set(h1, c1),
        valid_info_set(h2, c2),
        info_index(h1, c1) == info_index(h2, c2),
    ensures
        c1 == c2,
        h1 == h2,
{
    assert(1 <= hist_code(h1) <= 7);
    assert(1 <= hist_code(h2) <= 7);
    assert(c1 == c2);
    assert(hist_code(h1) == hist_code(h2));
    assert(h1.len() == h2.len());
    if h1.len() == 1 {
        assert(h1[0] == h2[0]);
        assert(h1 =~= h2);
    } else if h1.len() == 2 {
        assert(h1[0] == h2[0] && h1[1] == h2[1]);
        assert(h1 =~= h2);
    } else {
        assert(h1 =~= h2);
    }
}

/// Every valid information set's slot is inside the table.
pub proof fn lemma_info_index_in_range(h: Seq<Action>, hand_card: int)
    requires
        valid_info_set(h, hand_card),
    ensures
        1 <= info_index(h, hand_card) < NODE_SLOTS as int,
{
}

/// Largest magnitude one walker step may add to a regret accumulator.
pub const UPDATE_MAX: i128 = 2_000_000_000_000_000_000;

/// Largest number of node updates a store accepts over its lifetime. Within
/// this budget no accumulator can leave `ACCUM_MAX`.
pub const LIFETIME_UPDATES: u64 = 70_000_000_000_000;

/// A node whose accumulators a store with `t` applied updates can hold:
/// each regret moved by at most `UPDATE_MAX` per update, each strategy
/// weight grew by at most `SCALE` per update.
pub open spec fn node_within(n: CfrNode, t: int) -> bool {
    &&& -(t * UPDATE_MAX) <= n.regret_check <= t * UPDATE_MAX
    &&& -(t * UPDATE_MAX) <= n.regret_bet <= t * UPDATE_MAX
    &&& 0 <= n.strategy_check <= t * (SCALE as int)
    &&& 0 <= n.strategy_bet <= t * (SCALE as int)
    &&& n.epsilon <= SCALE
}

/// How a training step may move a store: nodes are never removed, strategy
/// weights never decrease, exploration rates never change, and any node that
/// appears is created with exploration rate `created_eps`.
pub open spec fn store_evolves(pre: InfoSetStore, post: InfoSetStore, created_eps: u64) -> bool {
    &&& forall|h: Seq<Action>, c: int|
        valid_info_set(h, c) && #[trigger] pre.contains(h, c) ==> post.contains(h, c)
            && post.node_of(h, c).strategy_check >= pre.node_of(h, c).strategy_check
            && post.node_of(h, c).strategy_bet >= pre.node_of(h, c).strategy_bet
            && post.node_of(h, c).epsilon == pre.node_of(h, c).epsilon
    &&& forall|h: Seq<Action>, c: int|
        valid_info_set(h, c) && !pre.contains(h, c) && #[trigger] post.contains(h, c)
            ==> post.node_of(h, c).epsilon == created_eps
}

/// Store evolution composes across successive steps.
pub proof fn lemma_store_evolves_trans(
    first: InfoSetStore,
    second: InfoSetStore,
    third: InfoSetStore,
    created_eps: u64,
)
    requires
        store_evolves(first, second, created_eps),
        store_evolves(second, third, created_eps),
    ensures
        store_evolves(first, third, created_eps),
{
    assert forall|h: Seq<Action>, c: int|
        valid_info_set(h, c) && #[trigger] first.contains(h, c) implies third.contains(h, c)
        && third.node_of(h, c).strategy_check >= first.node_of(h, c).strategy_check
        && third.node_of(h, c).strategy_bet >= first.node_of(h, c).strategy_bet
        && third.node_of(h, c).epsilon == first.node_of(h, c).epsilon by {
        assert(second.contains(h, c));
    }
    assert forall|h: Seq<Action>, c: int|
        valid_info_set(h, c) && !first.contains(h, c) && #[trigger] third.contains(h, c)
        implies third.node_of(h, c).epsilon == created_eps by {
        if second.contains(h, c) {
            assert(third.node_of(h, c).epsilon == second.node_of(h, c).epsilon);
        }
    }
}

/// Cumulative strategy weights are non-negative and never decrease: across
/// any training step — one walk, or a whole run — every node's strategy
/// accumulators only grow, starting from zero.
pub proof fn lemma_strategy_weights_monotone(
    pre: InfoSetStore,
    post: InfoSetStore,
    created_eps: u64,
    h: Seq<Action>,
    c: int,
)
    requires
        pre.wf(),
        post.wf(),
        store_evolves(pre, post, created_eps),
        valid_info_set(h, c),
        pre.contains(h, c),
    ensures
        post.contains(h, c),
        0 <= pre.node_of(h, c).strategy_check <= post.node_of(h, c).strategy_check,
        0 <= pre.node_of(h, c).strategy_bet <= post.node_of(h, c).strategy_bet,
{
    lemma_info_index_in_range(h, c);
    let t = pre.updates as int;
    lemma_mul_nonnegative(t, SCALE as int);
}

/// Slots of information sets with histories no longer than `len`, other than
/// the slot of `(hh, cc)` itself, are untouched between `pre` and `post`.
pub open spec fn frame_below(
    pre: InfoSetStore,
    post: InfoSetStore,
    len: int,
    hh: Seq<Action>,
    cc: int,
) -> bool {
    forall|h: Seq<Action>, c: int|
        valid_info_set(h, c) && h.len() <= len && !(h == hh && c == cc)
            ==> #[trigger] post.contains(h, c) == pre.contains(h, c) && post.node_of(h, c)
            == pre.node_of(h, c)
}

/// The information-set store: one lazily created node per information set,
/// owned by a single training run.
pub struct InfoSetStore {
    nodes: Vec<Option<CfrNode>>,
    updates: u64,
}

impl InfoSetStore {
    /// How many node updates have been applied to this store.
    pub closed spec fn update_count(self) -> int {
        self.updates as int
    }

    /// The store's table is intact and every node's accumulators are within
    /// the bounds that its update count allows.
    pub closed spec fn wf(self) -> bool {
        &&& self.nodes@.len() == NODE_SLOTS as int
        &&& self.updates <= LIFETIME_UPDATES
        &&& forall|i: int|
            0 <= i < NODE_SLOTS as int ==> ((#[trigger] self.nodes@[i]) matches Some(n)
                ==> node_within(n, self.updates as int))
    }

    /// Whether the information set already has a node.
    pub closed spec fn contains(self, h: Seq<Action>, hand_card: int) -> bool {
        self.nodes@[info_index(h, hand_card)] is Some
    }

    /// The node of an information set, where one exists.
    pub closed spec fn node_of(self, h: Seq<Action>, hand_card: int) -> CfrNode {
        self.nodes@[info_index(h, hand_card)]->Some_0
    }

    /// A fresh store: no nodes, no updates.
    pub fn new() -> (store: InfoSetStore)
        ensures
            store.wf(),
            store.update_count() == 0,
            forall|h: Seq<Action>, c: int|
                valid_info_set(h, c) ==> !(#[trigger] store.contains(h, c)),
    {
        let mut nodes: Vec<Option<CfrNode>> = Vec::new();
        let mut i: usize = 0;
        while i < NODE_SLOTS
            invariant
                i <= NODE_SLOTS,
                nodes@.len() == i as int,
                forall|j: int| 0 <= j < i as int ==> (#[trigger] nodes@[j]) is None,
            decreases NODE_SLOTS - i,
        {
            nodes.push(None);
            i += 1;
        }
        let store = InfoSetStore { nodes, updates: 0 };
        proof {
            assert forall|h: Seq<Action>, c: int|
                valid_info_set(h, c) implies !(#[trigger] store.contains(h, c)) by {
                lemma_info_index_in_range(h, c);
            }
        }
        store
    }

    /// Every node a well-formed store holds is within the global accumulator
    /// bound, whatever its update count.
    proof fn lemma_node_bounded(self, h: Seq<Action>, hand_card: int)
        requires
            self.wf(),
            valid_info_set(h, hand_card),
            self.contains(h, hand_card),
        ensures
            self.node_of(h, hand_card).bounded(),
    {
        lemma_info_index_in_range(h, hand_card);
        let t = self.updates as int;
        let n = self.node_of(h, hand_card);
        lemma_mul_inequality(t, LIFETIME_UPDATES as int, UPDATE_MAX as int);
        lemma_mul_inequality(t, LIFETIME_UPDATES as int, SCALE as int);
        lemma_mul_nonnegative(t, UPDATE_MAX as int);
    }

    /// Whether the information set already has a node in the store.
    pub fn has_node(&self, info_set: &InformationSet) -> (present: bool)
        requires
            self.wf(),
            info_set.valid(),
        ensures
            present == self.contains(info_set.action_history.0@, info_set.hand_card as int),
    {
        proof {
            lemma_info_index_in_range(info_set.action_history.0@, info_set.hand_card as int);
        }
        let idx = encode_info(info_set);
        self.nodes[idx].is_some()
    }

    /// A copy of the node of an information set the store already holds.
    pub fn node_at(&self, info_set: &InformationSet) -> (node: CfrNode)
        requires
            self.wf(),
            info_set.valid(),
            self.contains(info_set.action_history.0@, info_set.hand_card as int),
        ensures
            node == self.node_of(info_set.action_history.0@, info_set.hand_card as int),
            node.bounded(),
    {
        proof {
            lemma_info_index_in_range(info_set.action_history.0@, info_set.hand_card as int);
            self.lemma_node_bounded(info_set.action_history.0@, info_set.hand_card as int);
        }
        let idx = encode_info(info_set);
        self.nodes[idx].unwrap()
    }

    /// Returns the node of the information set, creating it first when the
    /// store has none: the returned node is then freshly zero-initialized
    /// with the given exploration rate. A second call with the same key on
    /// an unmodified store returns the same node and changes nothing.
    pub fn get_or_create(&mut self, info_set: &InformationSet, epsilon: u64) -> (node: CfrNode)
        requires
            old(self).wf(),
            info_set.valid(),
            epsilon <= SCALE,
        ensures
            final(self).wf(),
            final(self).update_count() == old(self).update_count(),
            final(self).contains(info_set.action_history.0@, info_set.hand_card as int),
            node == final(self).node_of(info_set.action_history.0@, info_set.hand_card as int),
            node.bounded(),
            old(self).contains(info_set.action_history.0@, info_set.hand_card as int) ==> {
                &&& *final(self) == *old(self)
                &&& node == old(self).node_of(info_set.action_history.0@, info_set.hand_card as int)
            },
            !old(self).contains(info_set.action_history.0@, info_set.hand_card as int) ==> node
                == (CfrNode {
                regret_check: 0,
                regret_bet: 0,
                strategy_check: 0,
                strategy_bet: 0,
                epsilon,
            }),
            // nodes of every other information set are untouched
            frame_below(
                *old(self),
                *final(self),
                3,
                info_set.action_history.0@,
                info_set.hand_card as int,
            ),
            store_evolves(*old(self), *final(self), epsilon),
    {
        proof {
            lemma_info_index_in_range(info_set.action_history.0@, info_set.hand_card as int);
        }
        let idx = encode_info(info_set);
        let created = self.nodes[idx].is_none();
        if created {
            let fresh = CfrNode::new(epsilon);
            proof {
                lemma_mul_nonnegative(self.updates as int, UPDATE_MAX as int);
                lemma_mul_nonnegative(self.updates as int, SCALE as int);
            }
            self.nodes.set(idx, Some(fresh));
        }
        let node = self.nodes[idx].unwrap();
        proof {
            self.lemma_node_bounded(info_set.action_history.0@, info_set.hand_card as int);
            assert forall|h: Seq<Action>, c: int|
                valid_info_set(h, c) && !(h == info_set.action_history.0@ && c
                    == info_set.hand_card as int) implies #[trigger] self.contains(h, c)
                == old(self).contains(h, c) && self.node_of(h, c) == old(self).node_of(
                h,
                c,
            ) by {
                lemma_info_index_in_range(h, c);
                if info_index(h, c) == info_index(
                    info_set.action_history.0@,
                    info_set.hand_card as int,
                ) {
                    lemma_info_index_injective(
                        h,
                        c,
                        info_set.action_history.0@,
                        info_set.hand_card as int,
                    );
                }
            }
        }
        node
    }
}

impl InfoSetStore {
    /// Folds one walker step into an information set's node: the regret
    /// deltas are signed and bounded by `UPDATE_MAX`, the strategy-weight
    /// deltas are non-negative and bounded by one (scaled). Accumulators are
    /// never reset: the new value is exactly the old value plus the delta.
    pub fn update_node(
        &mut self,
        info_set: &InformationSet,
        regret_delta_check: i128,
        regret_delta_bet: i128,
        strategy_delta_check: i128,
        strategy_delta_bet: i128,
    )
        requires
            old(self).wf(),
            info_set.valid(),
            old(self).contains(info_set.action_history.0@, info_set.hand_card as int),
            old(self).update_count() < LIFETIME_UPDATES,
            -UPDATE_MAX <= regret_delta_check <= UPDATE_MAX,
            -UPDATE_MAX <= regret_delta_bet <= UPDATE_MAX,
            0 <= strategy_delta_check <= SCALE,
            0 <= strategy_delta_bet <= SCALE,
        ensures
            final(self).wf(),
            final(self).update_count() == old(self).update_count() + 1,
            final(self).node_of(info_set.action_history.0@, info_set.hand_card as int) == (CfrNode {
                regret_check: (old(self).node_of(
                    info_set.action_history.0@,
                    info_set.hand_card as int,
                ).regret_check + regret_delta_check) as i128,
                regret_bet: (old(self).node_of(
                    info_set.action_history.0@,
                    info_set.hand_card as int,
                ).regret_bet + regret_delta_bet) as i128,
                strategy_check: (old(self).node_of(
                    info_set.action_history.0@,
                    info_set.hand_card as int,
                ).strategy_check + strategy_delta_check) as i128,
                strategy_bet: (old(self).node_of(
                    info_set.action_history.0@,
                    info_set.hand_card as int,
                ).strategy_bet + strategy_delta_bet) as i128,
                epsilon: old(self).node_of(
                    info_set.action_history.0@,
                    info_set.hand_card as int,
                ).epsilon,
            }),
            final(self).contains(info_set.action_history.0@, info_set.hand_card as int),
            // nodes of every other information set are untouched
            frame_below(
                *old(self),
                *final(self),
                3,
                info_set.action_history.0@,
                info_set.hand_card as int,
            ),
            forall|created_eps: u64| #[trigger] store_evolves(*old(self), *final(self), created_eps),
    {
        proof {
            lemma_info_index_in_range(info_set.action_history.0@, info_set.hand_card as int);
            let t = self.updates as int;
            lemma_mul_inequality(t + 1, LIFETIME_UPDATES as int, UPDATE_MAX as int);
            lemma_mul_inequality(t + 1, LIFETIME_UPDATES as int, SCALE as int);
        }
        let idx = encode_info(info_set);
        let mut node = self.nodes[idx].unwrap();
        node.regret_check = node.regret_check + regret_delta_check;
        node.regret_bet = node.regret_bet + regret_delta_bet;
        node.strategy_check = node.strategy_check + strategy_delta_check;
        node.strategy_bet = node.strategy_bet + strategy_delta_bet;
        self.nodes.set(idx, Some(node));
        self.updates = self.updates + 1;
        proof {
            assert forall|h: Seq<Action>, c: int|
                valid_info_set(h, c) && !(h == info_set.action_history.0@ && c
                    == info_set.hand_card as int) implies #[trigger] self.contains(h, c)
                == old(self).contains(h, c) && self.node_of(h, c) == old(self).node_of(
                h,
                c,
            ) by {
                lemma_info_index_in_range(h, c);
                if info_index(h, c) == info_index(
                    info_set.action_history.0@,
                    info_set.hand_card as int,
                ) {
                    lemma_info_index_injective(
                        h,
                        c,
                        info_set.action_history.0@,
                        info_set.hand_card as int,
                    );
                }
            }
            let t = self.updates as int;
            assert forall|i: int|
                0 <= i < NODE_SLOTS as int implies ((#[trigger] self.nodes@[i]) matches Some(n)
                ==> node_within(n, t)) by {
                if self.nodes@[i] is Some {
                    let n = self.nodes@[i]->Some_0;
                    if i != info_index(info_set.action_history.0@, info_set.hand_card as int) {
                        assert(old(self).nodes@[i] is Some);
                        assert(node_within(n, t - 1));
                    }
                }
            }
        }
    }
}

/// One walk's store footprint: the walk resolves and updates its own node,
/// and recurses only into longer histories, so every slot at a history no
/// longer than its own, other than its own node's, is untouched.
pub proof fn lemma_frame_compose(
    pre: InfoSetStore,
    mid0: InfoSetStore,
    mid1: InfoSetStore,
    mid2: InfoSetStore,
    post: InfoSetStore,
    h0: Seq<Action>,
    mc: int,
    c0: int,
    c1: int,
)
    requires
        h0.len() <= 2,
        frame_below(pre, mid0, 3, h0, mc),
        frame_below(
            mid0,
            mid1,
            h0.len() as int + 1,
            h0.push(Action::Check),
            mover_card(h0.push(Action::Check), c0, c1),
        ),
        frame_below(
            mid1,
            mid2,
            h0.len() as int + 1,
            h0.push(Action::Bet),
            mover_card(h0.push(Action::Bet), c0, c1),
        ),
        frame_below(mid2, post, 3, h0, mc),
    ensures
        frame_below(pre, post, h0.len() as int, h0, mc),
        valid_info_set(h0, mc) ==> mid2.contains(h0, mc) == mid0.contains(h0, mc)
            && mid2.node_of(h0, mc) == mid0.node_of(h0, mc),
{
    assert forall|h: Seq<Action>, c: int|
        valid_info_set(h, c) && h.len() <= h0.len() as int && !(h == h0 && c == mc)
        implies #[trigger] post.contains(h, c) == pre.contains(h, c) && post.node_of(h, c)
        == pre.node_of(h, c) by {
        if h == h0.push(Action::Check) {
            assert(h.len() == h0.len() + 1);
        }
        if h == h0.push(Action::Bet) {
            assert(h.len() == h0.len() + 1);
        }
        assert(h != h0.push(Action::Check));
        assert(h != h0.push(Action::Bet));
        assert(mid0.contains(h, c) == pre.contains(h, c));
        assert(mid0.node_of(h, c) == pre.node_of(h, c));
        assert(mid1.contains(h, c) == mid0.contains(h, c));
        assert(mid1.node_of(h, c) == mid0.node_of(h, c));
        assert(mid2.contains(h, c) == mid1.contains(h, c));
        assert(mid2.node_of(h, c) == mid1.node_of(h, c));
        assert(post.contains(h, c) == mid2.contains(h, c));
        assert(post.node_of(h, c) == mid2.node_of(h, c));
    }
    if valid_info_set(h0, mc) {
        assert(h0 != h0.push(Action::Check));
        assert(h0 != h0.push(Action::Bet));
        assert(mid1.contains(h0, mc) == mid0.contains(h0, mc));
        assert(mid1.node_of(h0, mc) == mid0.node_of(h0, mc));
        assert(mid2.contains(h0, mc) == mid1.contains(h0, mc));
        assert(mid2.node_of(h0, mc) == mid1.node_of(h0, mc));
    }
}

/// Slots of information sets whose histories do not extend `hh` are
/// untouched between `pre` and `post`: the footprint of one walk below `hh`.
pub open spec fn untouched_outside(pre: InfoSetStore, post: InfoSetStore, hh: Seq<Action>) -> bool {
    forall|h: Seq<Action>, c: int|
        valid_info_set(h, c) && !hh.is_prefix_of(h) ==> #[trigger] post.contains(h, c)
            == pre.contains(h, c) && post.node_of(h, c) == pre.node_of(h, c)
}

/// A history extended by one action still extends every prefix of the
/// original.
pub proof fn lemma_prefix_step(h0: Seq<Action>, a: Action, h: Seq<Action>)
    requires
        h0.push(a).is_prefix_of(h),
    ensures
        h0.is_prefix_of(h),
{
    assert forall|i: int| 0 <= i < h0.len() implies h0[i] == h.subrange(0, h0.len() as int)[i] by {
        assert(h0.push(a)[i] == h.subrange(0, h0.len() as int + 1)[i]);
    }
    assert(h0 =~= h.subrange(0, h0.len() as int));
}

/// One walk's store footprint, composed from its steps: it resolves its own
/// node, walks below each of the two extended histories, and updates its own
/// node, so nothing outside the subtree below its history moves.
pub proof fn lemma_footprint_compose(
    pre: InfoSetStore,
    mid0: InfoSetStore,
    mid1: InfoSetStore,
    mid2: InfoSetStore,
    post: InfoSetStore,
    h0: Seq<Action>,
    mc: int,
)
    requires
        frame_below(pre, mid0, 3, h0, mc),
        untouched_outside(mid0, mid1, h0.push(Action::Check)),
        untouched_outside(mid1, mid2, h0.push(Action::Bet)),
        frame_below(mid2, post, 3, h0, mc),
    ensures
        untouched_outside(pre, post, h0),
{
    assert forall|h: Seq<Action>, c: int|
        valid_info_set(h, c) && !h0.is_prefix_of(h) implies #[trigger] post.contains(h, c)
        == pre.contains(h, c) && post.node_of(h, c) == pre.node_of(h, c) by {
        assert(h0 =~= h0.subrange(0, h0.len() as int));
        assert(h != h0);
        if h0.push(Action::Check).is_prefix_of(h) {
            lemma_prefix_step(h0, Action::Check, h);
        }
        if h0.push(Action::Bet).is_prefix_of(h) {
            lemma_prefix_step(h0, Action::Bet, h);
        }
        assert(mid0.contains(h, c) == pre.contains(h, c));
        assert(mid0.node_of(h, c) == pre.node_of(h, c));
        assert(mid1.contains(h, c) == mid0.contains(h, c));
        assert(mid1.node_of(h, c) == mid0.node_of(h, c));
        assert(mid2.contains(h, c) == mid1.contains(h, c));
        assert(mid2.node_of(h, c) == mid1.node_of(h, c));
        assert(post.contains(h, c) == mid2.contains(h, c));
        assert(post.node_of(h, c) == mid2.node_of(h, c));
    }
}

/// The most node updates one walk from a history of length `l` can apply:
/// one per decision point in the subtree below it.
pub open spec fn walk_budget(l: int) -> int {
    if l <= 0 {
        7
    } else if l == 1 {
        3
    } else if l == 2 {
        1
    } else {
        0
    }
}

/// The node a walker sees when it reaches an information set: the stored
/// node, or a fresh zero node when the store has none yet.
pub open spec fn visit_node(s: InfoSetStore, h: Seq<Action>, c: int, eps: u64) -> CfrNode {
    if s.contains(h, c) {
        s.node_of(h, c)
    } else {
        CfrNode { regret_check: 0, regret_bet: 0, strategy_check: 0, strategy_bet: 0, epsilon: eps }
    }
}

/// The value the full walk computes below a history, as a function of the
/// store it starts from: the exact scaled payoff at a terminal history, and
/// otherwise the probability-weighted average of the two negated child
/// values under the distribution the mover's node induces. The walk never
/// rereads a node it has updated, so its value depends on the starting store
/// alone.
pub open spec fn walk_value(s: InfoSetStore, h: Seq<Action>, card0: int, card1: int) -> int
    decreases hand_measure(h),
    via walk_value_decreases
{
    if is_terminal(h) {
        mover_view_payoff(h, card0, card1) * (SCALE as int)
    } else {
        let n = visit_node(s, h, mover_card(h, card0, card1), 0);
        let q0 = dist_check(n.regret_check as int, n.regret_bet as int, n.epsilon as int);
        let q1 = dist_bet(n.regret_check as int, n.regret_bet as int, n.epsilon as int);
        let v0 = -walk_value(s, h.push(Action::Check), card0, card1);
        let v1 = -walk_value(s, h.push(Action::Bet), card0, card1);
        crate::fixed::scale_div(q0 * v0 + q1 * v1, 1, SCALE as int)
    }
}

#[via_fn]
proof fn walk_value_decreases(s: InfoSetStore, h: Seq<Action>, card0: int, card1: int) {
    if !is_terminal(h) {
        crate::kuhn::lemma_hand_measure_decreases(h, Action::Check);
        crate::kuhn::lemma_hand_measure_decreases(h, Action::Bet);
    }
}

/// The walk's value reads only the slots of the subtree below its history:
/// two stores that agree there give the same value.
pub proof fn lemma_walk_value_congruent(
    s1: InfoSetStore,
    s2: InfoSetStore,
    h: Seq<Action>,
    card0: int,
    card1: int,
)
    requires
        valid_history(h),
        1 <= card0 <= 3,
        1 <= card1 <= 3,
        forall|h2: Seq<Action>, c: int|
            valid_info_set(h2, c) && h.is_prefix_of(h2) ==> #[trigger] s1.contains(h2, c)
                == s2.contains(h2, c) && s1.node_of(h2, c) == s2.node_of(h2, c),
    ensures
        walk_value(s1, h, card0, card1) == walk_value(s2, h, card0, card1),
    decreases hand_measure(h),
{
    if !is_terminal(h) {
        crate::kuhn::lemma_live_history_is_short(h);
        crate::kuhn::lemma_push_keeps_valid(h, Action::Check);
        crate::kuhn::lemma_push_keeps_valid(h, Action::Bet);
        crate::kuhn::lemma_hand_measure_decreases(h, Action::Check);
        crate::kuhn::lemma_hand_measure_decreases(h, Action::Bet);
        let mc = mover_card(h, card0, card1);
        assert(h =~= h.subrange(0, h.len() as int));
        assert(h.is_prefix_of(h));
        assert(s1.contains(h, mc) == s2.contains(h, mc) && s1.node_of(h, mc) == s2.node_of(
            h,
            mc,
        ));
        assert forall|h2: Seq<Action>, c: int|
            valid_info_set(h2, c) && h.push(Action::Check).is_prefix_of(h2)
            implies #[trigger] s1.contains(h2, c) == s2.contains(h2, c) && s1.node_of(h2, c)
            == s2.node_of(h2, c) by {
            lemma_prefix_step(h, Action::Check, h2);
        }
        assert forall|h2: Seq<Action>, c: int|
            valid_info_set(h2, c) && h.push(Action::Bet).is_prefix_of(h2)
            implies #[trigger] s1.contains(h2, c) == s2.contains(h2, c) && s1.node_of(h2, c)
            == s2.node_of(h2, c) by {
            lemma_prefix_step(h, Action::Bet, h2);
        }
        lemma_walk_value_congruent(s1, s2, h.push(Action::Check), card0, card1);
        lemma_walk_value_congruent(s1, s2, h.push(Action::Bet), card0, card1);
    }
}

impl InfoSetStore {
    /// One full counterfactual-regret walk below `history`, for the deal
    /// `cards`, with `reach0` and `reach1` the two players' probabilities of
    /// having played into `history` (scaled by `SCALE`).
    ///
    /// At a terminal history the walk changes nothing and returns the exact
    /// payoff, scaled, from the mover's point of view. At a live history it
    /// resolves the mover's information-set node, recurses through both
    /// actions, folds the counterfactual regrets (weighted by the opponent's
    /// reach) and the strategy weights (the mover's reach times each action's
    /// probability) into the node, and returns the node's expected value.
    #[verifier::rlimit(60)]
    pub fn cfr(
        &mut self,
        history: &mut ActionHistory,
        cards: &Vec<i32>,
        reach0: u64,
        reach1: u64,
    ) -> (value: i64)
        requires
            old(self).wf(),
            valid_history(old(history).0@),
            old(history).0@.len() <= 3,
            cards@.len() >= 2,
            1 <= cards@[0] <= 3,
            1 <= cards@[1] <= 3,
            reach0 <= SCALE,
            reach1 <= SCALE,
            old(self).update_count() + walk_budget(old(history).0@.len() as int)
                <= LIFETIME_UPDATES,
        ensures
            final(self).wf(),
            final(history).0@ == old(history).0@,
            old(self).update_count() <= final(self).update_count() <= old(self).update_count()
                + walk_budget(old(history).0@.len() as int),
            -2 * (SCALE as int) <= value as int <= 2 * (SCALE as int),
            // the returned value is exactly the recursive expectation the
            // starting store induces
            value as int == walk_value(
                *old(self),
                old(history).0@,
                cards@[0] as int,
                cards@[1] as int,
            ),
            store_evolves(*old(self), *final(self), 0),
            untouched_outside(*old(self), *final(self), old(history).0@),
            frame_below(
                *old(self),
                *final(self),
                old(history).0@.len() as int,
                old(history).0@,
                mover_card(old(history).0@, cards@[0] as int, cards@[1] as int),
            ),
            is_terminal(old(history).0@) ==> *final(self) == *old(self) && value
                == mover_view_payoff(old(history).0@, cards@[0] as int, cards@[1] as int) * (
            SCALE as int),
            !is_terminal(old(history).0@) ==> ({
                let h0 = old(history).0@;
                let mc = mover_card(h0, cards@[0] as int, cards@[1] as int);
                let n0 = visit_node(*old(self), h0, mc, 0);
                let own = (if mover_of(h0) == 0 { reach0 } else { reach1 }) as int;
                let q0 = dist_check(n0.regret_check as int, n0.regret_bet as int, n0.epsilon as int);
                let q1 = dist_bet(n0.regret_check as int, n0.regret_bet as int, n0.epsilon as int);
                &&& final(self).update_count() >= old(self).update_count() + 1
                &&& final(self).contains(h0, mc)
                &&& final(self).node_of(h0, mc).epsilon == n0.epsilon
                &&& final(self).node_of(h0, mc).strategy_check == n0.strategy_check + own * q0
                    / (SCALE as int)
                &&& final(self).node_of(h0, mc).strategy_bet == n0.strategy_bet + own * q1 / (
                SCALE as int)
                &&& final(self).node_of(h0, mc).regret_check == n0.regret_check
                    + crate::fixed::scale_div(
                    -walk_value(*old(self), h0.push(Action::Check), cards@[0] as int, cards@[1] as int)
                        - walk_value(*old(self), h0, cards@[0] as int, cards@[1] as int),
                    (if mover_of(h0) == 0 { reach1 } else { reach0 }) as int,
                    SCALE as int,
                )
                &&& final(self).node_of(h0, mc).regret_bet == n0.regret_bet
                    + crate::fixed::scale_div(
                    -walk_value(*old(self), h0.push(Action::Bet), cards@[0] as int, cards@[1] as int)
                        - walk_value(*old(self), h0, cards@[0] as int, cards@[1] as int),
                    (if mover_of(h0) == 0 { reach1 } else { reach0 }) as int,
                    SCALE as int,
                )
            }),
        decreases 4 - history.0@.len(),
    {
        let ghost h0 = history.0@;
        let ghost c0 = cards@[0] as int;
        let ghost c1 = cards@[1] as int;
        let ghost mc = mover_card(h0, c0, c1);

        let l = history.0.len();
        let maybe_payoff = crate::kuhn::get_payoff(history, cards);
        if let Some(p) = maybe_payoff {
            proof {
                assert(spec_payoff(h0, c0, c1) == Some(p as int));
                assert(-2 <= p as int <= 2);
            }
            let signed: i64 = if l % 2 == 0 {
                p
            } else {
                -p
            };
            proof {
                assert(-2_000_000 <= (signed as int) * (SCALE as int) <= 2_000_000)
                    by (nonlinear_arith)
                    requires
                        -2 <= signed as int <= 2,
                        SCALE == 1_000_000u64,
                ;
            }
            return signed * (SCALE as i64);
        }

        proof {
            crate::kuhn::lemma_live_history_is_short(h0);
        }
        let mover0 = l % 2 == 0;
        let card: i32 = if mover0 {
            cards[0]
        } else {
            cards[1]
        };
        let info = InformationSet { action_history: history.duplicate(), hand_card: card };
        let node = self.get_or_create(&info, 0);
        let ghost n0 = visit_node(*old(self), h0, mc, 0);
        assert(node == n0);
        let (q0, q1) = node.get_action_probability();
        let own: u64 = if mover0 {
            reach0
        } else {
            reach1
        };
        let opp: u64 = if mover0 {
            reach1
        } else {
            reach0
        };
        let own_child0 = crate::fixed::reach_mul(own, q0);
        let own_child1 = crate::fixed::reach_mul(own, q1);

        let ghost mid0 = *self;

        history.0.push(Action::Check);
        proof {
            crate::kuhn::lemma_push_keeps_valid(h0, Action::Check);
        }
        let v0_raw = self.cfr(
            history,
            cards,
            if mover0 { own_child0 } else { reach0 },
            if mover0 { reach1 } else { own_child0 },
        );
        let v0: i64 = -v0_raw;
        history.0.pop();
        proof {
            assert(history.0@ =~= h0);
        }
        let ghost mid1 = *self;

        history.0.push(Action::Bet);
        proof {
            crate::kuhn::lemma_push_keeps_valid(h0, Action::Bet);
        }
        let v1_raw = self.cfr(
            history,
            cards,
            if mover0 { own_child1 } else { reach0 },
            if mover0 { reach1 } else { own_child1 },
        );
        let v1: i64 = -v1_raw;
        history.0.pop();
        proof {
            assert(history.0@ =~= h0);
        }
        let ghost mid2 = *self;

        // the node's expected value: the probability-weighted sum of the
        // two action values
        proof {
            assert((q0 as int) * (v0 as int) <= (q0 as int) * 2_000_000 && (q0 as int) * (v0 as int)
                >= -((q0 as int) * 2_000_000)) by (nonlinear_arith)
                requires
                    0 <= q0 as int,
                    -2_000_000 <= v0 as int <= 2_000_000,
            ;
            assert((q1 as int) * (v1 as int) <= (q1 as int) * 2_000_000 && (q1 as int) * (v1 as int)
                >= -((q1 as int) * 2_000_000)) by (nonlinear_arith)
                requires
                    0 <= q1 as int,
                    -2_000_000 <= v1 as int <= 2_000_000,
            ;
        }
        let x: i128 = (q0 as i128) * (v0 as i128) + (q1 as i128) * (v1 as i128);
        proof {
            crate::fixed::lemma_scale_div_le(x as int, 1, SCALE as int, 2 * (SCALE as int));
        }
        let value_i128 = crate::fixed::scale_mul_div(x, 1, SCALE as i128);
        let value: i64 = value_i128 as i64;

        // counterfactual regrets, weighted by the opponent's reach
        proof {
            let diff0 = v0 as int - value_i128 as int;
            let a0 = if diff0 >= 0 { diff0 } else { -diff0 };
            vstd::arithmetic::mul::lemma_mul_upper_bound(a0, 4_000_000, opp as int, 1_000_000);
            crate::fixed::lemma_scale_div_le(diff0, opp as int, SCALE as int, 4 * (SCALE as int));
            let diff1 = v1 as int - value_i128 as int;
            let a1 = if diff1 >= 0 { diff1 } else { -diff1 };
            vstd::arithmetic::mul::lemma_mul_upper_bound(a1, 4_000_000, opp as int, 1_000_000);
            crate::fixed::lemma_scale_div_le(diff1, opp as int, SCALE as int, 4 * (SCALE as int));
        }
        let d0 = crate::fixed::scale_mul_div((v0 as i128) - value_i128, opp as i128, SCALE as i128);
        let d1 = crate::fixed::scale_mul_div((v1 as i128) - value_i128, opp as i128, SCALE as i128);

        self.update_node(&info, d0, d1, own_child0 as i128, own_child1 as i128);

        proof {
            lemma_store_evolves_trans(*old(self), mid1, mid2, 0);
            lemma_store_evolves_trans(*old(self), mid2, *self, 0);
            assert(info.action_history.0@ == h0 && info.hand_card as int == mc);
            lemma_frame_compose(*old(self), mid0, mid1, mid2, *self, h0, mc, c0, c1);
            lemma_footprint_compose(*old(self), mid0, mid1, mid2, *self, h0, mc);

            // the recursive values are the walk values over the starting
            // store: resolving this node changed no slot below either child,
            // and the first child's walk changed no slot below the second
            crate::kuhn::lemma_push_keeps_valid(h0, Action::Check);
            crate::kuhn::lemma_push_keeps_valid(h0, Action::Bet);
            let l = h0.len() as int;
            assert forall|h2: Seq<Action>, c: int|
                valid_info_set(h2, c) && h0.push(Action::Check).is_prefix_of(h2)
                implies #[trigger] mid0.contains(h2, c) == old(self).contains(h2, c)
                && mid0.node_of(h2, c) == old(self).node_of(h2, c) by {
                assert(h2 != h0);
            }
            lemma_walk_value_congruent(mid0, *old(self), h0.push(Action::Check), c0, c1);
            assert forall|h2: Seq<Action>, c: int|
                valid_info_set(h2, c) && h0.push(Action::Bet).is_prefix_of(h2)
                implies #[trigger] mid1.contains(h2, c) == old(self).contains(h2, c)
                && mid1.node_of(h2, c) == old(self).node_of(h2, c) by {
                assert(h2 != h0);
                if h0.push(Action::Check).is_prefix_of(h2) {
                    assert(h0.push(Action::Check) =~= h2.subrange(0, l + 1));
                    assert(h0.push(Action::Bet) =~= h2.subrange(0, l + 1));
                    assert(h2.subrange(0, l + 1)[l] == Action::Check);
                    assert(h2.subrange(0, l + 1)[l] == Action::Bet);
                }
                assert(mid0.contains(h2, c) == old(self).contains(h2, c) && mid0.node_of(h2, c)
                    == old(self).node_of(h2, c));
            }
            lemma_walk_value_congruent(mid1, *old(self), h0.push(Action::Bet), c0, c1);
            assert(v0 as int == -walk_value(*old(self), h0.push(Action::Check), c0, c1));
            assert(v1 as int == -walk_value(*old(self), h0.push(Action::Bet), c0, c1));
            assert(value_i128 as int == walk_value(*old(self), h0, c0, c1));
        }
        value
    }
}

/// The exploration rate the sampled walker trains with: every action keeps
/// at least half of this probability mass, so the importance weights below
/// never divide by zero.
pub const EXPLORE_EPSILON: u64 = 60_000;

/// Draws an index from a two-point probability distribution, both weights
/// scaled by `SCALE` and summing to one: index 0 with probability `q0`,
/// else index 1. Whatever is drawn has positive probability: a zero-weight
/// index is never drawn.
pub fn sample(q0: u64, q1: u64) -> (choice: (usize, u64))
    requires
        q0 + q1 == SCALE,
    ensures
        choice.0 < 2,
        choice.1 == (if choice.0 == 0 { q0 } else { q1 }),
        1 <= choice.1 <= SCALE,
{
    let t = crate::rng::rand_below(SCALE as i128);
    let tu: u64 = t as u64;
    if tu < q0 {
        (0, q0)
    } else {
        (1, q1)
    }
}

/// The reach probabilities a sampled walk threads: when the history is still
/// live, the mover's reach is positive, and near the root both players'
/// reaches still allow a positive reach one level down. The walk starts from
/// the empty history with both reaches at one.
pub open spec fn mccfr_reach_ok(h: Seq<Action>, r0: int, r1: int) -> bool {
    is_terminal(h) || {
        &&& (if mover_of(h) == 0 {
            r0 >= 1
        } else {
            r1 >= 1
        })
        &&& (h.len() == 0 ==> r0 == SCALE && r1 >= 1)
        &&& (h.len() == 1 ==> r0 >= 1)
    }
}

impl InfoSetStore {
    /// One outcome-sampling walk below `history`: the same terminal values
    /// and node resolution as `cfr`, but only one action — drawn from the
    /// node's exploring distribution — is recursed into, and the regret
    /// update is importance-weighted by the mover's reach and the sampled
    /// action's probability so that the single sample remains an unbiased
    /// estimate of the full walk. Strategy weights accumulate the full
    /// distribution, weighted by the mover's pre-update reach.
    #[verifier::rlimit(60)]
    pub fn mccfr(
        &mut self,
        history: &mut ActionHistory,
        cards: &Vec<i32>,
        reach0: u64,
        reach1: u64,
    ) -> (value: i64)
        requires
            old(self).wf(),
            valid_history(old(history).0@),
            old(history).0@.len() <= 3,
            cards@.len() >= 2,
            1 <= cards@[0] <= 3,
            1 <= cards@[1] <= 3,
            reach0 <= SCALE,
            reach1 <= SCALE,
            mccfr_reach_ok(old(history).0@, reach0 as int, reach1 as int),
            old(self).update_count() + walk_budget(old(history).0@.len() as int)
                <= LIFETIME_UPDATES,
        ensures
            final(self).wf(),
            final(history).0@ == old(history).0@,
            old(self).update_count() <= final(self).update_count() <= old(self).update_count()
                + walk_budget(old(history).0@.len() as int),
            -2 * (SCALE as int) <= value as int <= 2 * (SCALE as int),
            store_evolves(*old(self), *final(self), EXPLORE_EPSILON),
            frame_below(
                *old(self),
                *final(self),
                old(history).0@.len() as int,
                old(history).0@,
                mover_card(old(history).0@, cards@[0] as int, cards@[1] as int),
            ),
            is_terminal(old(history).0@) ==> *final(self) == *old(self) && value
                == mover_view_payoff(old(history).0@, cards@[0] as int, cards@[1] as int) * (
            SCALE as int),
            !is_terminal(old(history).0@) ==> ({
                let h0 = old(history).0@;
                let mc = mover_card(h0, cards@[0] as int, cards@[1] as int);
                let n0 = visit_node(*old(self), h0, mc, EXPLORE_EPSILON);
                let own = (if mover_of(h0) == 0 { reach0 } else { reach1 }) as int;
                let q0 = dist_check(n0.regret_check as int, n0.regret_bet as int, n0.epsilon as int);
                let q1 = dist_bet(n0.regret_check as int, n0.regret_bet as int, n0.epsilon as int);
                &&& final(self).update_count() >= old(self).update_count() + 1
                &&& final(self).contains(h0, mc)
                &&& final(self).node_of(h0, mc).epsilon == n0.epsilon
                &&& final(self).node_of(h0, mc).strategy_check == n0.strategy_check + own * q0
                    / (SCALE as int)
                &&& final(self).node_of(h0, mc).strategy_bet == n0.strategy_bet + own * q1 / (
                SCALE as int)
                &&& -UPDATE_MAX <= final(self).node_of(h0, mc).regret_check - n0.regret_check
                    <= UPDATE_MAX
                &&& -UPDATE_MAX <= final(self).node_of(h0, mc).regret_bet - n0.regret_bet
                    <= UPDATE_MAX
            }),
        decreases 4 - history.0@.len(),
    {
        let ghost h0 = history.0@;
        let ghost c0 = cards@[0] as int;
        let ghost c1 = cards@[1] as int;
        let ghost mc = mover_card(h0, c0, c1);

        let l = history.0.len();
        let maybe_payoff = crate::kuhn::get_payoff(history, cards);
        if let Some(p) = maybe_payoff {
            proof {
                assert(spec_payoff(h0, c0, c1) == Some(p as int));
                assert(-2 <= p as int <= 2);
            }
            let signed: i64 = if l % 2 == 0 {
                p
            } else {
                -p
            };
            proof {
                assert(-2_000_000 <= (signed as int) * (SCALE as int) <= 2_000_000)
                    by (nonlinear_arith)
                    requires
                        -2 <= signed as int <= 2,
                        SCALE == 1_000_000u64,
                ;
            }
            return signed * (SCALE as i64);
        }

        proof {
            crate::kuhn::lemma_live_history_is_short(h0);
        }
        let mover0 = l % 2 == 0;
        let card: i32 = if mover0 {
            cards[0]
        } else {
            cards[1]
        };
        let info = InformationSet { action_history: history.duplicate(), hand_card: card };
        let node = self.get_or_create(&info, EXPLORE_EPSILON);
        let ghost n0 = visit_node(*old(self), h0, mc, EXPLORE_EPSILON);
        assert(node == n0);
        let (q0, q1) = node.get_action_probability();
        let own: u64 = if mover0 {
            reach0
        } else {
            reach1
        };

        // sample exactly one action from the exploring distribution
        let (chosen_id, chosen_prob) = sample(q0, q1);
        let chosen = Action::from_int(chosen_id);
        let own_child = crate::fixed::reach_mul(own, chosen_prob);
        proof {
            if own == SCALE {
                vstd::arithmetic::mul::lemma_mul_is_commutative(SCALE as int, chosen_prob as int);
                vstd::arithmetic::div_mod::lemma_div_by_multiple(chosen_prob as int, SCALE as int);
            }
        }

        let ghost mid0 = *self;

        history.0.push(chosen);
        proof {
            crate::kuhn::lemma_push_keeps_valid(h0, chosen);
            if !is_terminal(h0.push(chosen)) {
                crate::kuhn::lemma_live_history_is_short(h0.push(chosen));
            }
        }
        let v_child = self.mccfr(
            history,
            cards,
            if mover0 { own_child } else { reach0 },
            if mover0 { reach1 } else { own_child },
        );
        let final_payoff: i64 = -v_child;
        history.0.pop();
        proof {
            assert(history.0@ =~= h0);
        }
        let ghost mid1 = *self;

        // the importance weight: the payoff divided by the mover's reach and
        // by the sampled action's probability, all scaled
        proof {
            assert(1 <= (own as int) * (chosen_prob as int) <= 1_000_000_000_000)
                by (nonlinear_arith)
                requires
                    1 <= own as int <= 1_000_000,
                    1 <= chosen_prob as int <= 1_000_000,
            ;
        }
        let denom: i128 = (own as i128) * (chosen_prob as i128);
        proof {
            lemma_mul_inequality(1, denom as int, UPDATE_MAX as int);
            vstd::arithmetic::mul::lemma_mul_is_commutative(denom as int, UPDATE_MAX as int);
            crate::fixed::lemma_scale_div_le(
                final_payoff as int,
                1_000_000_000_000,
                denom as int,
                UPDATE_MAX as int,
            );
        }
        let w = crate::fixed::scale_mul_div(
            final_payoff as i128,
            (SCALE as i128) * (SCALE as i128),
            denom,
        );

        // regret deltas: the sampled action is pushed toward the remaining
        // mass; for every other action the importance weight's denominator
        // is that action's own probability, which cancels, leaving the
        // payoff under the mover's reach alone — this is what keeps the
        // single sample an unbiased estimate of the full-tree regret
        proof {
            let wa = if w as int >= 0 { w as int } else { -(w as int) };
            vstd::arithmetic::mul::lemma_mul_upper_bound(
                wa,
                UPDATE_MAX as int,
                (SCALE - chosen_prob) as int,
                SCALE as int,
            );
            crate::fixed::lemma_scale_div_le(
                w as int,
                (SCALE - chosen_prob) as int,
                SCALE as int,
                UPDATE_MAX as int,
            );
            lemma_mul_inequality(1, own as int, UPDATE_MAX as int);
            vstd::arithmetic::mul::lemma_mul_is_commutative(own as int, UPDATE_MAX as int);
            crate::fixed::lemma_scale_div_le(
                final_payoff as int,
                SCALE as int,
                own as int,
                UPDATE_MAX as int,
            );
        }
        let d_chosen = crate::fixed::scale_mul_div(w, (SCALE - chosen_prob) as i128, SCALE as i128);
        let d_other = -crate::fixed::scale_mul_div(
            final_payoff as i128,
            SCALE as i128,
            own as i128,
        );
        let dr_check: i128 = if chosen_id == 0 {
            d_chosen
        } else {
            d_other
        };
        let dr_bet: i128 = if chosen_id == 0 {
            d_other
        } else {
            d_chosen
        };

        // strategy weights accumulate the full distribution under the
        // mover's pre-update reach
        let ds_check = crate::fixed::reach_mul(own, q0);
        let ds_bet = crate::fixed::reach_mul(own, q1);

        self.update_node(&info, dr_check, dr_bet, ds_check as i128, ds_bet as i128);

        proof {
            lemma_store_evolves_trans(*old(self), mid0, mid1, EXPLORE_EPSILON);
            lemma_store_evolves_trans(*old(self), mid1, *self, EXPLORE_EPSILON);
            assert(info.action_history.0@ == h0 && info.hand_card as int == mc);
            if chosen_id == 0 {
                assert(frame_below(
                    mid1,
                    mid1,
                    h0.len() as int + 1,
                    h0.push(Action::Bet),
                    mover_card(h0.push(Action::Bet), c0, c1),
                ));
                lemma_frame_compose(*old(self), mid0, mid1, mid1, *self, h0, mc, c0, c1);
            } else {
                assert(frame_below(
                    mid0,
                    mid0,
                    h0.len() as int + 1,
                    h0.push(Action::Check),
                    mover_card(h0.push(Action::Check), c0, c1),
                ));
                lemma_frame_compose(*old(self), mid0, mid0, mid1, *self, h0, mc, c0, c1);
            }
        }
        final_payoff
    }
}

/// The table slot of an information set.
fn encode_info(info_set: &InformationSet) -> (idx: usize)
    requires
        info_set.valid(),
    ensures
        idx == info_index(info_set.action_history.0@, info_set.hand_card as int),
        1 <= idx < NODE_SLOTS,
{
    proof {
        lemma_info_index_in_range(info_set.action_history.0@, info_set.hand_card as int);
    }
    let h = &info_set.action_history.0;
    let code: usize = if h.len() == 0 {
        1
    } else if h.len() == 1 {
        2 + action_bit_exec(h[0])
    } else {
        4 + 2 * action_bit_exec(h[0]) + action_bit_exec(h[1])
    };
    (info_set.hand_card as usize - 1) * 8 + code
}

/// 0 for a check, 1 for a bet.
fn action_bit_exec(a: Action) -> (b: usize)
    ensures
        b == action_bit(a),
{
    match a {
        Action::Check => 0,
        Action::Bet => 1,
    }
}

/// A player that learns an approximate equilibrium by self-play, keeping one
/// regret/strategy node per information set it has visited.
pub struct CfrPlayer {
    player_id: i32,
    hand_card: i32,
    money: i64,
    cfr_info: InfoSetStore,
}

impl CfrPlayer {
    /// The player's information-set store.
    pub closed spec fn store(self) -> InfoSetStore {
        self.cfr_info
    }

    /// The player's chip count across played hands.
    pub closed spec fn money_spec(self) -> int {
        self.money as int
    }

    pub fn new() -> (player: CfrPlayer)
        ensures
            player.wf(),
            player.store().update_count() == 0,
            player.money_spec() == 0,
            forall|h: Seq<Action>, c: int|
                valid_info_set(h, c) ==> !(#[trigger] player.store().contains(h, c)),
    {
        CfrPlayer { player_id: -1, hand_card: -1, money: 0, cfr_info: InfoSetStore::new() }
    }

    /// The player's chip count.
    pub fn money(&self) -> (m: i64)
        ensures
            m == self.money_spec(),
    {
        self.money
    }

    /// The raw accumulators of one information set, where the store has a
    /// node for it.
    pub fn node_stats(&self, history: &ActionHistory, hand_card: i32) -> (node: Option<CfrNode>)
        requires
            self.wf(),
        ensures
            node is Some <==> valid_info_set(history.0@, hand_card as int)
                && self.store().contains(history.0@, hand_card as int),
            node is Some ==> node->Some_0 == self.store().node_of(history.0@, hand_card as int)
                && node->Some_0.bounded(),
    {
        if !(1 <= hand_card && hand_card <= 3) || history.0.len() > 2 {
            return None;
        }
        let info = InformationSet { action_history: history.duplicate(), hand_card };
        if self.cfr_info.has_node(&info) {
            Some(self.cfr_info.node_at(&info))
        } else {
            None
        }
    }

    /// The normalized long-run average strategy at one information set:
    /// the cumulative strategy weights, normalized to sum to one (scaled by
    /// `SCALE`); uniform while both weights are still zero. `None` where the
    /// store has no node.
    pub fn average_strategy(&self, history: &ActionHistory, hand_card: i32) -> (ratios: Option<
        (u64, u64),
    >)
        requires
            self.wf(),
        ensures
            ratios is Some <==> valid_info_set(history.0@, hand_card as int)
                && self.store().contains(history.0@, hand_card as int),
            ratios matches Some(r) ==> ({
                let n = self.store().node_of(history.0@, hand_card as int);
                let sum = n.strategy_check + n.strategy_bet;
                &&& r.0 == (if sum > 0 {
                    n.strategy_check * (SCALE as int) / (sum as int)
                } else {
                    SCALE as int / 2
                })
                &&& r.1 == SCALE - r.0
                &&& r.0 + r.1 == SCALE
            }),
    {
        let maybe_node = self.node_stats(history, hand_card);
        match maybe_node {
            None => None,
            Some(node) => {
                let sum: i128 = node.strategy_check + node.strategy_bet;
                let check_ratio: u64 = if sum <= 0 {
                    SCALE / 2
                } else {
                    proof {
                        lemma_mul_nonnegative(node.strategy_check as int, SCALE as int);
                        vstd::arithmetic::div_mod::lemma_div_pos_is_pos(
                            node.strategy_check as int * (SCALE as int),
                            sum as int,
                        );
                        lemma_mul_inequality(node.strategy_check as int, sum as int, SCALE as int);
                        vstd::arithmetic::mul::lemma_mul_is_commutative(
                            node.strategy_check as int,
                            SCALE as int,
                        );
                        vstd::arithmetic::mul::lemma_mul_is_commutative(sum as int, SCALE as int);
                        vstd::arithmetic::div_mod::lemma_div_is_ordered(
                            node.strategy_check as int * (SCALE as int),
                            sum as int * (SCALE as int),
                            sum as int,
                        );
                        vstd::arithmetic::div_mod::lemma_div_by_multiple(SCALE as int, sum as int);
                        vstd::arithmetic::mul::lemma_mul_is_commutative(SCALE as int, sum as int);
                    }
                    ((node.strategy_check as u128 * SCALE as u128) / (sum as u128)) as u64
                };
                Some((check_ratio, SCALE - check_ratio))
            },
        }
    }

    /// Trains by self-play: `iteration` hands, each dealt uniformly at
    /// random, walked once by the sampled walker from the empty history with
    /// both reach probabilities at one. Returns the sum of the walks' root
    /// values (each scaled by `SCALE`), whose average trends toward the
    /// game's value as the strategies converge.
    pub fn train(&mut self, iteration: usize) -> (total_payoff: i128)
        requires
            old(self).wf(),
            old(self).store().update_count() + 7 * (iteration as int) <= LIFETIME_UPDATES,
        ensures
            final(self).wf(),
            old(self).store().update_count() + (iteration as int)
                <= final(self).store().update_count(),
            final(self).store().update_count() <= old(self).store().update_count() + 7 * (
            iteration as int),
            -(2 * (SCALE as int) * (iteration as int)) <= total_payoff <= 2 * (SCALE as int) * (
            iteration as int),
            store_evolves(old(self).store(), final(self).store(), EXPLORE_EPSILON),
            final(self).money_spec() == old(self).money_spec(),
            // every hand walks the dealt root information set into the store
            iteration >= 1 ==> exists|c: int|
                1 <= c <= 3 && #[trigger] final(self).store().contains(Seq::<Action>::empty(), c),
    {
        let ghost orig = *self;
        let mut total: i128 = 0;
        let mut round: usize = 0;
        while round < iteration
            invariant
                round <= iteration,
                self.cfr_info.wf(),
                orig.cfr_info.update_count() + (round as int) <= self.cfr_info.update_count()
                    <= orig.cfr_info.update_count() + 7 * (round as int),
                round >= 1 ==> exists|c: int|
                    1 <= c <= 3 && #[trigger] self.cfr_info.contains(Seq::<Action>::empty(), c),
                orig.cfr_info.update_count() + 7 * (iteration as int) <= LIFETIME_UPDATES,
                store_evolves(orig.cfr_info, self.cfr_info, EXPLORE_EPSILON),
                -(2 * (SCALE as int) * (round as int)) <= total <= 2 * (SCALE as int) * (
                round as int),
                self.money == orig.money,
                self.player_id == orig.player_id,
                self.hand_card == orig.hand_card,
            decreases iteration - round,
        {
            let ghost before = self.cfr_info;
            let k = crate::rng::rand_below(6);
            let cards = crate::kuhn::deal_cards(k as usize);
            let mut hand_history = ActionHistory::new(Vec::new());
            let v = self.cfr_info.mccfr(&mut hand_history, &cards, SCALE, SCALE);
            proof {
                lemma_store_evolves_trans(orig.cfr_info, before, self.cfr_info, EXPLORE_EPSILON);
                assert(hand_history.0@ =~= Seq::<Action>::empty());
                assert(self.cfr_info.contains(Seq::<Action>::empty(), cards@[0] as int));
                assert(2 * (SCALE as int) * ((round + 1) as int) == 2 * (SCALE as int) * (
                round as int) + 2 * (SCALE as int)) by (nonlinear_arith);
                assert(2 * (SCALE as int) * (round as int) <= 36_893_488_147_419_103_232_000_000)
                    by (nonlinear_arith)
                    requires
                        0 <= (round as int) < 18_446_744_073_709_551_616,
                        SCALE == 1_000_000u64,
                ;
            }
            total = total + (v as i128);
            round = round + 1;
        }
        total
    }
}

impl crate::player::Player for CfrPlayer {
    /// The store's accumulators are within the bounds its update count
    /// allows.
    closed spec fn wf(&self) -> bool {
        self.cfr_info.wf()
    }

    fn on_register(&mut self, player_id: i32) {
        self.player_id = player_id;
    }

    fn on_start(&mut self, card: i32) {
        self.hand_card = card;
    }

    fn decide_action(&mut self, game_info: &ActionHistory) -> (action: Action) {
        let n = game_info.0.len();
        if !(1 <= self.hand_card && self.hand_card <= 3) || n > 2 {
            // no usable information set: fall back to the uniform strategy
            return Action::random();
        }
        if n == 2 && !(game_info.0[0] == Action::Check && game_info.0[1] == Action::Bet) {
            // the hand is already over; there is nothing to decide
            return Action::random();
        }
        let info = InformationSet {
            action_history: game_info.duplicate(),
            hand_card: self.hand_card,
        };
        if !self.cfr_info.has_node(&info) {
            // an unseen information set plays uniformly at random, and gets
            // a node so that training can pick it up from here
            let _ = self.cfr_info.get_or_create(&info, 0);
            return Action::random();
        }
        let node = self.cfr_info.get_or_create(&info, 0);
        node.get_action()
    }

    fn handle_result(&mut self, game_info: &ActionHistory, payoff: i64) {
        // fold the hand's outcome into the chip count, pinned at the ends of
        // the representable range
        if payoff >= 0 {
            if self.money > i64::MAX - payoff {
                self.money = i64::MAX;
            } else {
                self.money = self.money + payoff;
            }
        } else {
            if self.money < i64::MIN - payoff {
                self.money = i64::MIN;
            } else {
                self.money = self.money + payoff;
            }
        }
    }
}

} // verus!
