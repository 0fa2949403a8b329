//! Data-parallel maps.

use rayon::iter::{IntoParallelIterator, ParallelIterator};
use vstd::prelude::*;

verus! {

/// The results of `f` on `0..n`, in that order, computed on rayon's threads.
///
/// Calls `rayon`'s `into_par_iter` on the range, `map` and `collect`. Trusted is that the range
/// yields each index below `n` once, that `map` hands each to `f` and keeps what `f` returns for
/// it, and that collecting an indexed parallel iterator into a vector keeps the order of the
/// indices, whatever thread computed what and when.
#[verifier::external_body]
pub(crate) fn par_map<T: Send, F: Fn(usize) -> T + Sync + Send>(n: usize, f: F) -> (out: Vec<T>)
    requires
        forall|i: usize| i < n ==> #[trigger] call_requires(f, (i,)),
    ensures
        out@.len() == n,
        forall|i: usize| i < n ==> call_ensures(f, (i,), #[trigger] out@[i as int]),
{
    (0..n).into_par_iter().map(f).collect()
}

} // verus!
