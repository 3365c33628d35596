use vstd::prelude::*;

verus! {

/// Relies on rand: `Rng::gen_range(0..n)` on the thread rng panics only on an
/// empty range, which the precondition rules out, and otherwise returns a
/// value of the range. Nothing more is assumed of the draw.
#[verifier::external_body]
pub(crate) fn random_below(n: u128) -> (r: u128)
    requires
        n >= 1,
    ensures
        r < n,
{
    rand::Rng::gen_range(&mut rand::thread_rng(), 0..n)
}

} // verus!
