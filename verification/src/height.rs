//! Tower heights: a pseudo-random stream and the height drawn from it.

use vstd::prelude::*;
use vstd::std_specs::bits::u64_trailing_zeros;
use crate::node::HEIGHT;

verus! {

/// One step of the three-shift generator that drives the heights.
pub open spec fn xorshift(seed: usize) -> usize {
    let a = seed ^ (seed << 13usize);
    let b = a ^ (a >> 17usize);
    b ^ (b << 5usize)
}

/// One more than the number of trailing zero bits, and never more than the
/// largest height: each further level is half as likely as the one below.
pub open spec fn drawn_height(seed: usize) -> usize {
    if u64_trailing_zeros(seed as u64) + 1 < HEIGHT {
        (u64_trailing_zeros(seed as u64) + 1) as usize
    } else {
        HEIGHT
    }
}

/// Advances the pseudo-random state by one step.
pub fn randomize(seed: usize) -> (r: usize)
    ensures
        r == xorshift(seed),
{
    let mut seed = seed;
    seed ^= seed << 13;
    seed ^= seed >> 17;
    seed ^ seed << 5
}

/// The height that a pseudo-random state stands for, before any clamping.
pub fn draw_height(seed: usize) -> (r: usize)
    ensures
        r == drawn_height(seed),
        1 <= r <= HEIGHT,
{
    broadcast use vstd::std_specs::bits::axiom_u64_trailing_zeros;

    let zeros = (seed as u64).trailing_zeros() as usize;
    if zeros + 1 < HEIGHT {
        zeros + 1
    } else {
        HEIGHT
    }
}

/// A fresh pseudo-random state from the thread's generator (`rand::random`).
/// Nothing is claimed of the value: every state is a valid start.
#[verifier::external_body]
pub(crate) fn random_seed() -> usize {
    rand::random()
}

} // verus!
