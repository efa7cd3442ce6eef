//! Random draws.
use vstd::prelude::*;
use rand::seq::SliceRandom;
use rand::Rng;
use crate::structs::Genome;

verus! {

/// Relies on `rand::Rng::gen_range` over `rand::thread_rng`: the value is
/// drawn from `0..bound`, which must not be empty (it panics on an empty
/// range).
#[verifier::external_body]
pub(crate) fn random_index(bound: usize) -> (r: usize)
    requires
        bound > 0,
    ensures
        r < bound,
{
    rand::thread_rng().gen_range(0..bound)
}

/// Relies on `rand::seq::SliceRandom::choose_multiple` over
/// `rand::thread_rng`: it picks `amount` distinct slots of `v`, or all of
/// them when `v` is shorter, and hands out the genomes in those slots.
#[verifier::external_body]
pub(crate) fn choose_genomes<'a>(v: &'a Vec<Genome>, amount: usize) -> (r: Vec<&'a Genome>)
    ensures
        r@.len() == if amount <= v@.len() {
            amount as int
        } else {
            v@.len() as int
        },
        r@.map_values(|g: &Genome| *g).to_multiset().subset_of(v@.to_multiset()),
{
    v.as_slice().choose_multiple(&mut rand::thread_rng(), amount).collect()
}

} // verus!
