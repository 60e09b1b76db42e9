use vstd::prelude::*;

verus! {

/// fastrand's random number generator, carried through the library opaquely.
#[verifier::external_type_specification]
#[verifier::external_body]
pub struct ExRng(fastrand::Rng);

/// Draws an index below `n` with fastrand's `Rng::usize` on the range `0..n`.
/// The value depends on the generator's hidden state; all that is claimed is
/// that it lies in the range (fastrand panics only on an empty range, which
/// `n > 0` rules out).
#[verifier::external_body]
pub fn random_below(rng: &mut fastrand::Rng, n: usize) -> (r: usize)
    requires
        n > 0,
    ensures
        r < n,
{
    rng.usize(0..n)
}

} // verus!
