//! Random draws for laying out mines.

use vstd::prelude::*;

verus! {

/// Relies on rand's `Uniform::new(0, bound)` sampled through `thread_rng()`:
/// `take(count)` on its endless sample iterator yields exactly `count` draws,
/// each in `[0, bound)`. `Uniform::new` panics unless `0 < bound`.
#[verifier::external_body]
pub(crate) fn draw_samples(count: usize, bound: usize) -> (r: Vec<usize>)
    requires
        0 < bound,
    ensures
        r@.len() == count,
        forall|k: int| 0 <= k < r@.len() ==> r@[k] < bound,
{
    let mut rng = rand::thread_rng();
    let uniform: rand::distributions::Uniform<usize> = rand::distributions::Uniform::new(0, bound);
    rand::distributions::Distribution::sample_iter(uniform, &mut rng).take(count).collect()
}

} // verus!
