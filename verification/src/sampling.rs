//! Weighted random choice, drawn by `rand`.

use crate::model::total;
use rand::seq::SliceRandom;
use vstd::prelude::*;

verus! {

/// `rand::rngs::ThreadRng`, the handle to a thread's random generator. It is
/// only passed on.
#[verifier::external_type_specification]
#[verifier::external_body]
pub struct ExThreadRng(rand::rngs::ThreadRng);

/// `rand::distributions::WeightedError`, the reason why a weighted choice
/// failed. It is never looked into.
#[verifier::external_type_specification]
#[verifier::external_body]
pub struct ExWeightedError(rand::distributions::WeightedError);

/// `rand::thread_rng` hands out the calling thread's generator, which the
/// system seeds. Nothing is assumed of it.
pub assume_specification[ rand::thread_rng ]() -> (rng: rand::rngs::ThreadRng);

/// The weights of a list of choices, in order.
pub open spec fn weights_of(choices: Seq<(usize, u64)>) -> Seq<u64> {
    choices.map_values(|c: (usize, u64)| c.1)
}

/// Calls `rand::seq::SliceRandom::choose_weighted` with the second component
/// of each choice as its weight. That function adds the weights up in a
/// `u64`, so the sum has to fit. Assumed: the call fails exactly when no
/// choice has a positive weight (an empty list included), and a choice that
/// it returns is one of the list and has a positive weight. Which one it
/// returns is left open.
#[verifier::external_body]
pub(crate) fn choose_weighted(
    choices: &Vec<(usize, u64)>,
    rng: &mut rand::rngs::ThreadRng,
) -> (pick: Result<(usize, u64), rand::distributions::WeightedError>)
    requires
        total(weights_of(choices@)) <= u64::MAX,
    ensures
        pick matches Ok(c) ==> c.1 > 0 && choices@.contains(c),
        pick is Err <==> forall|k: int| 0 <= k < choices.len() ==> (#[trigger] choices[k]).1 == 0,
{
    choices.choose_weighted(rng, |c| c.1).copied()
}

} // verus!
