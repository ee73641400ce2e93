//! Random choices.

use num_complex::Complex64 as Pair;
use rand::seq::SliceRandom;
use rand::Rng;
use vstd::prelude::*;

use crate::float::ONE_BITS;

verus! {

/// `Rng::gen_ratio` on the thread's generator, with the ratio one to two: either outcome.
#[verifier::external_body]
pub(crate) fn toss() -> (r: bool) {
    rand::thread_rng().gen_ratio(1, 2)
}

/// `Rng::gen_range` on the thread's generator: some number below `n`.
#[verifier::external_body]
pub(crate) fn draw_below(n: u32) -> (r: u32)
    requires
        n > 0,
    ensures
        r < n,
{
    rand::thread_rng().gen_range(0..n)
}

/// `Rng::gen` on the thread's generator, for a binary64 number: some number from zero up to but
/// not including one.
#[verifier::external_body]
pub(crate) fn draw_unit() -> (r: u64)
    ensures
        r < ONE_BITS,
{
    Pair::new(rand::thread_rng().gen(), 0 as _).re.to_bits()
}

/// `SliceRandom::choose` with the thread's generator: some item of `items`, if there is one.
#[verifier::external_body]
pub(crate) fn draw_from(items: &Vec<u32>) -> (r: Option<u32>)
    ensures
        r is Some <==> items@.len() > 0,
        r matches Some(x) ==> items@.contains(x),
{
    items.choose(&mut rand::thread_rng()).copied()
}

} // verus!
