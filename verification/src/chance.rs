//! Random draws.

use rand::{Rng, SeedableRng};
use rand_xoshiro::Xoshiro256PlusPlus;
use vstd::prelude::*;

verus! {

/// The generator `rand_xoshiro::Xoshiro256PlusPlus`; its state stays hidden.
#[verifier::external_type_specification]
#[verifier::external_body]
pub struct ExXoshiro256PlusPlus(Xoshiro256PlusPlus);

/// `rand::Rng::gen_range` on `0..n`: some number below `n`. Which one is left
/// to chance. An empty range would panic.
#[verifier::external_body]
pub(crate) fn draw_below(rng: &mut Xoshiro256PlusPlus, n: usize) -> (i: usize)
    requires
        n > 0,
    ensures
        i < n,
{
    rng.gen_range(0..n)
}

/// One of a list, drawn uniformly.
pub fn draw_one(rng: &mut Xoshiro256PlusPlus, list: &Vec<u32>) -> (x: u32)
    requires
        list@.len() > 0,
    ensures
        list@.contains(x),
{
    let i: usize = draw_below(rng, list.len());
    list[i]
}

/// The numbers that `rand::seq::index::sample` draws with a generator of the
/// given seed: `amount` of those below `length`.
pub uninterp spec fn seeded_sample(seed: u64, length: nat, amount: nat) -> Seq<usize>;

/// `rand::seq::index::sample` with a fresh `Xoshiro256PlusPlus` from
/// `SeedableRng::seed_from_u64`: `amount` distinct numbers below `length`. They
/// depend on the seed and the two numbers alone. It would panic where `amount`
/// exceeds `length`.
#[verifier::external_body]
pub(crate) fn draw_distinct(seed: u64, length: usize, amount: usize) -> (r: Vec<usize>)
    requires
        amount <= length <= u32::MAX,
    ensures
        r@ == seeded_sample(seed, length as nat, amount as nat),
        r@.len() == amount,
        r@.no_duplicates(),
        forall|i: int| 0 <= i < amount ==> #[trigger] r@[i] < length,
{
    let mut rng = Xoshiro256PlusPlus::seed_from_u64(seed);
    rand::seq::index::sample(&mut rng, length, amount).into_vec()
}

} // verus!
