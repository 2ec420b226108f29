use vstd::prelude::*;
use rand::Rng;

verus! {

/// `rand::thread_rng().gen_range(0..n)`: a number drawn from the thread-local generator of
/// `rand`, uniformly in `0..n`. The contract states only that the number lies in `0..n`
/// (`gen_range` panics on an empty range, hence `n > 0`); which number comes out is chance.
#[verifier::external_body]
pub(crate) fn gen_range_below(n: usize) -> (result: usize)
    requires
        n > 0,
    ensures
        result < n,
{
    rand::thread_rng().gen_range(0..n)
}

} // verus!
