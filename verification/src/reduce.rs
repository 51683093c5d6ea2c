//! Order-independent reduction of byte counts on the worker pool.

use rayon::iter::IntoParallelRefIterator;
use rayon::iter::ParallelIterator;
use vstd::prelude::*;

verus! {

/// The mathematical sum of `values`.
pub open spec fn sum_of(values: Seq<u128>) -> nat
    decreases values.len(),
{
    if values.len() == 0 {
        0
    } else {
        sum_of(values.drop_last()) + values.last() as nat
    }
}

/// A sum of `values.len()` numbers, none above `bound`, is at most
/// `values.len() * bound`.
pub proof fn lemma_sum_of_bounded(values: Seq<u128>, bound: nat)
    requires
        forall|i: int| 0 <= i < values.len() ==> values[i] <= bound,
    ensures
        sum_of(values) <= values.len() * bound,
    decreases values.len(),
{
    if values.len() > 0 {
        lemma_sum_of_bounded(values.drop_last(), bound);
        assert((values.len() - 1) * bound + bound == values.len() * bound)
            by (nonlinear_arith);
    }
}

/// Adds up `values` on rayon's worker pool.
///
/// Trusted: calls `rayon::iter::ParallelIterator::sum` on
/// `values.par_iter()`. The contract claims that the call returns the
/// mathematical sum of the items. Rayon adds the items with `+` in an
/// unspecified grouping, which for unsigned integers gives that sum as long
/// as it fits the type; the precondition keeps every partial sum in range.
#[verifier::external_body]
pub(crate) fn parallel_sum(values: &Vec<u128>) -> (total: u128)
    requires
        sum_of(values@) <= u128::MAX,
    ensures
        total == sum_of(values@),
{
    values.par_iter().sum()
}

} // verus!
