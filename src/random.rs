use rand::distributions::Uniform;
use rand::rngs::StdRng;
use rand::Rng;
use vstd::prelude::*;

verus! {

/// The seedable generator every random operation of the engine draws from.
#[verifier::external_type_specification]
#[verifier::external_body]
pub struct ExStdRng(StdRng);

/// Relies on `Uniform::new(0, n)` sampled through `Rng::sample`: a value of
/// the half-open range `[0, n)`; `Uniform::new` panics when the range is empty.
#[verifier::external_body]
pub(crate) fn uniform_below(r: &mut StdRng, n: usize) -> (k: usize)
    requires
        0 < n,
    ensures
        k < n,
{
    r.sample(Uniform::new(0, n))
}

/// Relies on `Rng::gen_ratio`: `true` with probability
/// `numerator / denominator`, always `true` when the two are equal and always
/// `false` when the numerator is zero; it panics when the denominator is zero
/// or below the numerator.
#[verifier::external_body]
pub(crate) fn gen_ratio(r: &mut StdRng, numerator: u32, denominator: u32) -> (b: bool)
    requires
        0 < denominator,
        numerator <= denominator,
    ensures
        numerator == denominator ==> b,
        numerator == 0 ==> !b,
{
    r.gen_ratio(numerator, denominator)
}

} // verus!
