//! The random source behind rolling: thin trusted wrappers around `rand`'s
//! thread-local generator. Everything that depends on the drawn values is
//! verified downstream, in functions that take the values as arguments.

use vstd::prelude::*;

verus! {

#[verifier::external_type_specification]
#[verifier::external_body]
pub struct ExThreadRng(rand::rngs::ThreadRng);

/// Relies on `rand::thread_rng`: hands out the thread-local generator.
/// Nothing is assumed about its state.
#[verifier::external_body]
pub(crate) fn fresh_rng() -> rand::rngs::ThreadRng {
    rand::thread_rng()
}

/// Relies on `rand::Rng::gen_range` over `1..=sides`: it returns a value of
/// the (nonempty) range and panics only on an empty one, which the
/// precondition rules out. Where in the range the value falls is left open.
#[verifier::external_body]
pub(crate) fn sample_range(rng: &mut rand::rngs::ThreadRng, sides: u32) -> (r: u32)
    requires
        sides >= 1,
    ensures
        1 <= r <= sides,
{
    rand::Rng::gen_range(rng, 1..=sides)
}

} // verus!
