use vstd::prelude::*;

verus! {

/// The seedable random-number generator that every stage draws from.
#[verifier::external_type_specification]
#[verifier::external_body]
pub struct ExRandomNumberGenerator(rltk::RandomNumberGenerator);

/// Relies on `RandomNumberGenerator::roll_dice`: the sum of `n` draws, each
/// uniform over `1..=die_type` (it panics on an empty range, so `die_type`
/// is at least one, and `die_type + 1` must not overflow).
pub assume_specification[ rltk::RandomNumberGenerator::roll_dice ](
    rng: &mut rltk::RandomNumberGenerator,
    n: i32,
    die_type: i32,
) -> (r: i32)
    requires
        1 <= n,
        1 <= die_type < i32::MAX,
        n * die_type <= i32::MAX,
    ensures
        n <= r <= n * die_type,
;

} // verus!
