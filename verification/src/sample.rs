use vstd::prelude::*;

verus! {

/// Relies on rand::rng and rand::seq::IteratorRandom::sample (reservoir
/// sampling over the iterator): the result holds `amount` items taken from
/// distinct positions of `pool`, or every item of `pool` when it has fewer
/// than `amount`. Which items are taken is random and is left unspecified.
#[verifier::external_body]
pub(crate) fn sample_indices(pool: Vec<usize>, amount: usize) -> (chosen: Vec<usize>)
    ensures
        chosen@.len() == (if pool@.len() <= amount {
            pool@.len() as int
        } else {
            amount as int
        }),
        forall|k: int| 0 <= k < chosen@.len() ==> pool@.contains(#[trigger] chosen@[k]),
        pool@.no_duplicates() ==> chosen@.no_duplicates(),
{
    let mut rng = rand::rng();
    rand::seq::IteratorRandom::sample(pool.into_iter(), &mut rng, amount)
}

} // verus!
