//! Work handed out to several threads.

use rayon::iter::{IntoParallelIterator, ParallelIterator};
use vstd::prelude::*;

verus! {

/// `rayon`'s `map` and `collect` over the range of the indices below `n`: the result at each
/// index is one that `f` may give for the index.
#[verifier::external_body]
pub(crate) fn map_indices<F: Fn(usize) -> (u64, u64) + Sync>(n: usize, f: F) -> (r: Vec<(u64, u64)>)
    requires
        forall|i: usize| i < n ==> #[trigger] call_requires(f, (i,)),
    ensures
        r@.len() == n,
        forall|i: usize| i < n ==> call_ensures(f, (i,), #[trigger] r@[i as int]),
{
    (0..n).into_par_iter().map(|i| f(i)).collect()
}

} // verus!
