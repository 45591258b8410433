//! The sign of a noise sample.

use vstd::prelude::*;

verus! {

/// `value` itself when `keep` holds, and its negative when not.
pub open spec fn signed(value: int, keep: bool) -> int {
    if keep {
        value
    } else {
        -value
    }
}

/// Draws a `bool` from the thread's generator: `rand::thread_rng`, then
/// `rand::Rng::gen`. Nothing is claimed of the outcome: either value may
/// come back, and two draws need not agree.
#[verifier::external_body]
fn coin() -> (heads: bool) {
    rand::Rng::gen::<bool>(&mut rand::thread_rng())
}

/// Gives `value` the sign that `keep` decides.
pub fn sign(value: i64, keep: bool) -> (out: i64)
    requires
        value > i64::MIN,
    ensures
        out == signed(value as int, keep),
{
    if keep {
        value
    } else {
        -value
    }
}

/// A noise sample of the magnitude of `scaled_logarithm`, the scaled
/// logarithm of a uniform draw, with a sign that a fair coin decides.
pub fn laplace(scaled_logarithm: i64) -> (noise: i64)
    requires
        scaled_logarithm > i64::MIN,
    ensures
        noise == scaled_logarithm || noise == -scaled_logarithm,
{
    let keep = coin();
    sign(scaled_logarithm, keep)
}

} // verus!
