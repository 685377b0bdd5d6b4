use bracket_random::prelude::RandomNumberGenerator;
use vstd::prelude::*;

verus! {

#[verifier::external_type_specification]
#[verifier::external_body]
pub struct ExRandomNumberGenerator(RandomNumberGenerator);

/// Relies on bracket-random's `RandomNumberGenerator::roll_dice`: the sum of
/// `n` draws, each uniform in `1 ..= die_type` (`gen_range(1..die_type + 1)`).
#[verifier::external_body]
pub(crate) fn roll_dice(rng: &mut RandomNumberGenerator, n: i32, die_type: i32) -> (r: i32)
    requires
        1 <= n,
        1 <= die_type < i32::MAX,
        n * die_type <= i32::MAX,
    ensures
        n <= r <= n * die_type,
{
    rng.roll_dice(n, die_type)
}

/// One die of `die_type` sides: a value in `1 ..= die_type`.
pub fn roll(rng: &mut RandomNumberGenerator, die_type: i32) -> (r: i32)
    requires
        1 <= die_type < i32::MAX,
    ensures
        1 <= r <= die_type,
{
    roll_dice(rng, 1, die_type)
}

/// `count` independent rolls of a die of `die_type` sides.
pub fn roll_many(rng: &mut RandomNumberGenerator, count: usize, die_type: i32) -> (r: Vec<i32>)
    requires
        1 <= die_type < i32::MAX,
    ensures
        r@.len() == count,
        forall|i: int| 0 <= i < count ==> 1 <= #[trigger] r@[i] <= die_type,
{
    let mut out: Vec<i32> = Vec::with_capacity(count);
    let mut i: usize = 0;
    while i < count
        invariant
            1 <= die_type < i32::MAX,
            i <= count,
            out@.len() == i,
            forall|j: int| 0 <= j < i ==> 1 <= #[trigger] out@[j] <= die_type,
        decreases count - i,
    {
        let v = roll(rng, die_type);
        out.push(v);
        i = i + 1;
    }
    out
}

} // verus!
