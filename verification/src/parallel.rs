//! Work that is handed out to several threads, item by item.
use rayon::iter::{IntoParallelIterator, IntoParallelRefIterator, ParallelIterator};
use vstd::prelude::*;

verus! {

/// Calls rayon's `par_iter`, `map` and `collect` on a slice: the function is
/// called on every item, and the results come in the order of the items.
#[verifier::external_body]
pub(crate) fn par_map<T: Sync, U: Send, F: Fn(&T) -> U + Sync + Send>(items: &[T], f: F) -> (r: Vec<
    U,
>)
    requires
        forall|i: int| 0 <= i < items@.len() ==> call_requires(f, (&#[trigger] items@[i],)),
    ensures
        r@.len() == items@.len(),
        forall|i: int| 0 <= i < items@.len() ==> call_ensures(f, (&items@[i],), #[trigger] r@[i]),
{
    items.par_iter().map(f).collect()
}

/// Calls rayon's `into_par_iter`, `map` and `collect` on the numbers below
/// `count`: the function is called on every number, and the results come in
/// their order.
#[verifier::external_body]
pub(crate) fn par_map_range<U: Send, F: Fn(usize) -> U + Sync + Send>(count: usize, f: F) -> (r:
    Vec<U>)
    requires
        forall|i: usize| i < count ==> call_requires(f, (i,)),
    ensures
        r@.len() == count,
        forall|i: usize| i < count ==> call_ensures(f, (i,), #[trigger] r@[i as int]),
{
    (0..count).into_par_iter().map(f).collect()
}

} // verus!
