//! The randomness source for layout construction.
//!
//! Probabilities are integers over the scale `PROB_ONE`, so that the two
//! extremes — never and always — are exact.  A single trusted draw of a
//! uniform value below a bound underlies both the Bernoulli trial and the
//! uniform distance pick; everything above the draw is verified.
use rand::Rng;
use vstd::prelude::*;

verus! {

/// Probability scale: a probability is a numerator over `PROB_ONE`,
/// so `0` means never and `PROB_ONE` means always.
pub const PROB_ONE: u32 = 1_000_000;

/// Relies on `rand::Rng::gen_range` over `0..n`: it returns a uniformly
/// distributed value of that range, which is nonempty since `n >= 1`.
#[verifier::external_body]
fn rand_below(n: u32) -> (r: u32)
    requires
        n >= 1,
    ensures
        r < n,
{
    rand::thread_rng().gen_range(0..n)
}

/// One Bernoulli trial: true with probability `num / PROB_ONE`.
///
/// Only the two certain outcomes are promised; any other numerator may
/// come out either way.
pub fn trial(num: u32) -> (b: bool)
    requires
        num <= PROB_ONE,
    ensures
        num == 0 ==> !b,
        num == PROB_ONE ==> b,
{
    rand_below(PROB_ONE) < num
}

/// A uniformly random draw from `1..=max`.
pub fn pick_distance(max: u16) -> (d: usize)
    requires
        max >= 1,
    ensures
        1 <= d <= max,
{
    1 + rand_below(max as u32) as usize
}

} // verus!
