//! The crate's single source of randomness.

use vstd::prelude::*;

verus! {

/// Draws a number uniformly at random from `[0, bound)`.
///
/// Relies on `rand::thread_rng` for a generator and on `rand::Rng::gen_range`,
/// which returns a value inside the given range and panics only when the
/// range is empty; `bound >= 1` keeps it non-empty. Nothing more is promised
/// of the result: it depends on the generator's state.
#[verifier::external_body]
pub(crate) fn rand_below(bound: i128) -> (r: i128)
    requires
        bound >= 1,
    ensures
        0 <= r < bound,
{
    rand::thread_rng().gen_range(0..bound)
}

} // verus!

use rand::Rng;
