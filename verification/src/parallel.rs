//! Work that is handed out to threads.
use crate::field::{self, PrimeField};
use crate::polynomial;
use rayon::iter::{
    IndexedParallelIterator, IntoParallelIterator, IntoParallelRefIterator, ParallelIterator,
};
use vstd::prelude::*;

verus! {

/// Returns the sum of the products of the elements at the same places.
///
/// Rests on `zip`, `map` and `reduce` of rayon's parallel iterators: the pairs at
/// the same places, up to the shorter length, are multiplied, and the products
/// are added in some grouping, with zeros put in between. Since addition in a
/// field is associative and zero is neutral, the grouping does not show.
#[verifier::external_body]
pub(crate) fn inner_product<F: PrimeField>(a: &Vec<F>, b: &Vec<F>) -> (r: F)
    ensures
        r.value() == polynomial::dot(field::values(a@), field::values(b@)) % F::modulus(),
{
    a.par_iter().zip(b.par_iter()).map(|(x, y)| x.mul(y)).reduce(|| F::zero(), |s, t| s.add(&t))
}

/// Returns what `f` gives for the indices below `n`, in their order.
///
/// Rests on `map` and `collect` of rayon's indexed parallel iterators: `f` is
/// called once for each index, and the results stand in the order of the
/// indices.
#[verifier::external_body]
pub(crate) fn map_indices<T: Send, G: Fn(usize) -> T + Sync + Send>(n: usize, f: G) -> (r: Vec<T>)
    requires
        forall|i: usize| i < n ==> call_requires(f, (i,)),
    ensures
        r@.len() == n,
        forall|i: usize| i < n ==> call_ensures(f, (i,), #[trigger] r@[i as int]),
{
    (0..n).into_par_iter().map(|i| f(i)).collect()
}

} // verus!
