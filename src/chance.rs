use vstd::prelude::*;

verus! {

/// Relies on `rand::random::<usize>`: a number drawn from the thread's generator.
/// Nothing is promised of its value.
#[verifier::external_body]
pub(crate) fn random_usize() -> (r: usize) {
    rand::random::<usize>()
}

/// Relies on `rand::Rng::gen_ratio` on the thread's generator: `true` with chance
/// `numerator / denominator`, always `false` for a zero numerator and always `true`
/// when numerator and denominator are equal. It panics on a zero denominator or a
/// numerator above the denominator.
#[verifier::external_body]
pub(crate) fn random_ratio(numerator: u32, denominator: u32) -> (r: bool)
    requires
        0 < denominator,
        numerator <= denominator,
    ensures
        numerator == 0 ==> !r,
        numerator == denominator ==> r,
{
    rand::Rng::gen_ratio(&mut rand::thread_rng(), numerator, denominator)
}

} // verus!
