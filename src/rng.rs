use vstd::prelude::*;

use rand::Rng;

verus! {

#[verifier::external_type_specification]
#[verifier::external_body]
pub struct ExThreadRng(rand::rngs::ThreadRng);

/// Relies on rand::thread_rng: a handle to the thread's random number generator.
#[verifier::external_body]
pub(crate) fn newRng() -> rand::rngs::ThreadRng {
    rand::thread_rng()
}

/// Relies on rand::Rng::gen_range(low, high), which returns a value in `low..high`
/// (and panics when `low >= high`, which `requires` excludes).
#[verifier::external_body]
pub(crate) fn genBelow(rng: &mut rand::rngs::ThreadRng, n: u64) -> (r: u64)
    requires
        n > 0,
    ensures
        r < n,
{
    rng.gen_range(0u64, n)
}

}
