//! Random choice, from the `rand` crate.

use rand::Rng;
use rand::seq::SliceRandom;
use vstd::prelude::*;

verus! {

/// Draws a polarity with `Rng::gen` and then one of the candidates with
/// `SliceRandom::choose`, both from `rand::thread_rng()`.
///
/// Believed of `choose`: it gives `None` for an empty slice and otherwise an
/// element of the slice. Nothing is claimed of which element, nor of the
/// polarity. The generator is seeded by the system on first use and fails
/// loudly where the system has no entropy to give.
#[verifier::external_body]
pub(crate) fn pick_at_random<'a>(candidates: &Vec<&'a String>) -> (res: (Option<&'a String>, bool))
    ensures
        candidates@.len() == 0 ==> res.0 is None,
        candidates@.len() > 0 ==> res.0 is Some,
        res.0 matches Some(s) ==> candidates@.contains(s),
{
    let mut rng = rand::thread_rng();
    let polarity: bool = rng.gen();
    let choice = candidates.choose(&mut rng).copied();
    (choice, polarity)
}

} // verus!
