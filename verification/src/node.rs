//! Per-information-set accumulators and the regret-matching policy.
//!
//! A node keeps, per action, a cumulative counterfactual regret (signed,
//! never reset) and a cumulative strategy weight (non-negative, never
//! decreased), plus an exploration rate fixed when the node is created.
//! All quantities are fixed-point integers scaled by `crate::SCALE`.

use vstd::prelude::*;
use crate::SCALE;
use crate::kuhn::Action;
use vstd::arithmetic::div_mod::lemma_div_is_ordered;
use vstd::arithmetic::div_mod::lemma_div_pos_is_pos;
use vstd::arithmetic::div_mod::lemma_div_by_multiple;
use vstd::arithmetic::mul::lemma_mul_inequality;
use vstd::arithmetic::mul::lemma_mul_is_commutative;
use vstd::arithmetic::mul::lemma_mul_nonnegative;

verus! {

/// Largest magnitude an accumulator may reach. The store keeps every
/// accumulator within this bound, and the policy computations below stay
/// inside 128-bit arithmetic as long as it holds.
pub const ACCUM_MAX: i128 = 140_000_000_000_000_000_000_000_000_000_000;

/// The accumulators of one information set.
#[derive(Debug, Clone, Copy, PartialEq, Eq, Structural)]
pub struct CfrNode {
    /// Cumulative counterfactual regret of checking.
    pub regret_check: i128,
    /// Cumulative counterfactual regret of betting.
    pub regret_bet: i128,
    /// Cumulative strategy weight of checking.
    pub strategy_check: i128,
    /// Cumulative strategy weight of betting.
    pub strategy_bet: i128,
    /// Exploration rate, scaled by `SCALE`; fixed at creation.
    pub epsilon: u64,
}

/// The positive part of a regret accumulator.
pub open spec fn positive_part(r: int) -> int {
    if r > 0 {
        r
    } else {
        0
    }
}

/// The sum of the strictly positive regrets.
pub open spec fn positive_regret_sum(r0: int, r1: int) -> int {
    positive_part(r0) + positive_part(r1)
}

/// The base regret-matching probability of checking: proportional to the
/// positive regret of checking, or uniform when no regret is positive.
pub open spec fn base_check_prob(r0: int, r1: int) -> int {
    if positive_regret_sum(r0, r1) <= 0 {
        SCALE as int / 2
    } else {
        positive_part(r0) * SCALE as int / positive_regret_sum(r0, r1)
    }
}

/// Blends a probability with the uniform distribution: each action keeps at
/// least `eps / 2`, and the remaining `1 - eps` of the mass follows `p`.
pub open spec fn explore_blend(p: int, eps: int) -> int {
    eps / 2 + p * (SCALE as int - eps) / SCALE as int
}

/// The probability of checking in the distribution a node's accumulators
/// induce.
pub open spec fn dist_check(r0: int, r1: int, eps: int) -> int {
    explore_blend(base_check_prob(r0, r1), eps)
}

/// The probability of betting: the exact remainder of the mass.
pub open spec fn dist_bet(r0: int, r1: int, eps: int) -> int {
    SCALE as int - dist_check(r0, r1, eps)
}

/// The base probability lies between zero and one.
pub proof fn lemma_base_prob_bounds(r0: int, r1: int)
    ensures
        0 <= base_check_prob(r0, r1) <= SCALE as int,
{
    let s = positive_regret_sum(r0, r1);
    if s > 0 {
        let p0 = positive_part(r0);
        lemma_mul_nonnegative(p0, SCALE as int);
        lemma_div_pos_is_pos(p0 * SCALE as int, s);
        lemma_mul_inequality(p0, s, SCALE as int);
        lemma_mul_is_commutative(p0, SCALE as int);
        lemma_mul_is_commutative(s, SCALE as int);
        lemma_div_is_ordered(p0 * SCALE as int, s * SCALE as int, s);
        lemma_mul_is_commutative(SCALE as int, s);
        lemma_div_by_multiple(SCALE as int, s);
    }
}

/// The full action-probability distribution always adds up to exactly one:
/// the probability of betting is defined as the remaining mass, and the
/// probability of checking never exceeds the whole.
pub proof fn lemma_distribution_normalized(r0: int, r1: int, eps: int)
    requires
        0 <= eps <= SCALE as int,
    ensures
        dist_check(r0, r1, eps) + dist_bet(r0, r1, eps) == SCALE as int,
        0 <= dist_check(r0, r1, eps) <= SCALE as int,
        0 <= dist_bet(r0, r1, eps) <= SCALE as int,
{
    lemma_exploration_floor(r0, r1, eps);
}

/// Exploration keeps every action alive: with exploration rate `eps`, each
/// action's probability is at least `eps / 2`, hence strictly positive for
/// every `eps >= 2`. (At `eps == 1` the integer half rounds down to zero.)
pub proof fn lemma_exploration_floor(r0: int, r1: int, eps: int)
    requires
        0 <= eps <= SCALE as int,
    ensures
        dist_check(r0, r1, eps) >= eps / 2,
        dist_bet(r0, r1, eps) >= eps / 2,
        dist_check(r0, r1, eps) <= SCALE as int,
        dist_bet(r0, r1, eps) <= SCALE as int,
{
    let p = base_check_prob(r0, r1);
    let rest = SCALE as int - eps;
    lemma_base_prob_bounds(r0, r1);
    lemma_mul_nonnegative(p, rest);
    lemma_div_pos_is_pos(p * rest, SCALE as int);
    // p * rest / SCALE <= rest, since p <= SCALE
    lemma_mul_inequality(p, SCALE as int, rest);
    lemma_mul_is_commutative(SCALE as int, rest);
    lemma_div_is_ordered(p * rest, rest * SCALE as int, SCALE as int);
    lemma_div_by_multiple(rest, SCALE as int);
}

impl CfrNode {
    /// A freshly created node: all accumulators at zero, with the given
    /// exploration rate.
    pub fn new(epsilon: u64) -> (node: CfrNode)
        requires
            epsilon <= SCALE,
        ensures
            node == (CfrNode {
                regret_check: 0,
                regret_bet: 0,
                strategy_check: 0,
                strategy_bet: 0,
                epsilon,
            }),
    {
        CfrNode { regret_check: 0, regret_bet: 0, strategy_check: 0, strategy_bet: 0, epsilon }
    }

    /// Every accumulator is within `ACCUM_MAX` and the strategy weights are
    /// non-negative.
    pub open spec fn bounded(self) -> bool {
        &&& -ACCUM_MAX <= self.regret_check <= ACCUM_MAX
        &&& -ACCUM_MAX <= self.regret_bet <= ACCUM_MAX
        &&& 0 <= self.strategy_check <= ACCUM_MAX
        &&& 0 <= self.strategy_bet <= ACCUM_MAX
        &&& self.epsilon <= SCALE
    }

    /// The full action-probability distribution derived from the regrets:
    /// probabilities of checking and of betting, scaled by `SCALE`. They sum
    /// to exactly `SCALE`, and each is at least half the exploration rate.
    pub fn get_action_probability(&self) -> (probs: (u64, u64))
        requires
            self.bounded(),
        ensures
            probs.0 == dist_check(self.regret_check as int, self.regret_bet as int, self.epsilon as int),
            probs.1 == dist_bet(self.regret_check as int, self.regret_bet as int, self.epsilon as int),
            probs.0 + probs.1 == SCALE,
            probs.0 >= self.epsilon / 2,
            probs.1 >= self.epsilon / 2,
    {
        proof {
            lemma_exploration_floor(
                self.regret_check as int,
                self.regret_bet as int,
                self.epsilon as int,
            );
            lemma_base_prob_bounds(self.regret_check as int, self.regret_bet as int);
        }
        let r0: i128 = if self.regret_check > 0 { self.regret_check } else { 0 };
        let r1: i128 = if self.regret_bet > 0 { self.regret_bet } else { 0 };
        let sum: i128 = r0 + r1;
        let base: u64 = if sum <= 0 {
            SCALE / 2
        } else {
            ((r0 as u128 * SCALE as u128) / sum as u128) as u64
        };
        let rest: u64 = SCALE - self.epsilon;
        let blended: u64 = self.epsilon / 2 + ((base as u128 * rest as u128) / SCALE as u128) as u64;
        (blended, SCALE - blended)
    }

    /// Samples an action for live play by regret matching: when no regret is
    /// positive the choice is uniform; otherwise an action is drawn with
    /// probability proportional to its positive regret, so an action with no
    /// positive regret is never chosen.
    pub fn get_action(&self) -> (action: Action)
        requires
            self.bounded(),
        ensures
            positive_regret_sum(self.regret_check as int, self.regret_bet as int) > 0 ==> {
                &&& positive_part(self.regret_check as int) == 0 ==> action == Action::Bet
                &&& positive_part(self.regret_bet as int) == 0 ==> action == Action::Check
            },
    {
        let r0: i128 = if self.regret_check > 0 { self.regret_check } else { 0 };
        let r1: i128 = if self.regret_bet > 0 { self.regret_bet } else { 0 };
        let sum: i128 = r0 + r1;
        if sum <= 0 {
            return Action::random();
        }
        let n = crate::rng::rand_below(sum);
        if n < r0 {
            Action::Check
        } else {
            Action::Bet
        }
    }
}

} // verus!
