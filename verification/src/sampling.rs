use rand::rngs::StdRng;
use rand::Rng;
use rand::RngCore;
use rand::SeedableRng;
use vstd::prelude::*;

verus! {

/// The generator `StdRng` of the rand crate, carried through as it is:
/// nothing is known of what it holds.
#[verifier::external_type_specification]
#[verifier::external_body]
pub struct ExStdRng(rand::rngs::StdRng);

/// Calls `RngCore::next_u64` of the rand crate on a `StdRng`: the next 64
/// bits of the generator's stream. Nothing is claimed of their value.
#[verifier::external_body]
fn next_u64(rng: &mut StdRng) -> (bits: u64) {
    rng.next_u64()
}

/// Calls `SeedableRng::seed_from_u64` of the rand crate for `StdRng`: a
/// generator started from the given seed. Nothing is claimed of its stream.
#[verifier::external_body]
fn seed_from_u64(seed: u64) -> (rng: StdRng) {
    StdRng::seed_from_u64(seed)
}

/// Calls `Rng::gen_range` of the rand crate on a `StdRng` with the range from
/// zero up to, and without, `bound`. The crate panics on an empty range,
/// which `requires` leaves out, and returns a value of the range.
#[verifier::external_body]
fn gen_below(rng: &mut StdRng, bound: usize) -> (index: usize)
    requires
        bound > 0,
    ensures
        index < bound,
{
    rng.gen_range(0..bound)
}

/// A generator for each of `thread_count` workers, each started from a seed
/// drawn from `rng`, so that a render repeats itself for the same master
/// seed and the same number of workers.
pub fn worker_rngs(rng: &mut StdRng, thread_count: usize) -> (rngs: Vec<StdRng>)
    ensures
        rngs@.len() == thread_count,
{
    let mut rngs: Vec<StdRng> = Vec::new();
    let mut i: usize = 0;
    while i < thread_count
        invariant
            i <= thread_count,
            rngs@.len() == i,
        decreases thread_count - i,
    {
        let seed = next_u64(rng);
        rngs.push(seed_from_u64(seed));
        i += 1;
    }
    rngs
}

/// The light that a drawn index picks from the list of lights.
pub open spec fn light_at(lights: Seq<usize>, index: usize) -> Option<usize> {
    if index < lights.len() {
        Some(lights[index as int])
    } else {
        None
    }
}

/// The light at a position of the list of lights, if the list is that long.
pub fn pick_light(lights: &Vec<usize>, index: usize) -> (light: Option<usize>)
    ensures
        light == light_at(lights@, index),
{
    if index < lights.len() {
        Some(lights[index])
    } else {
        None
    }
}

/// Draws one of the scene's lights at random, to sample for direct light;
/// none where the scene has no light.
pub fn choose_light(rng: &mut StdRng, lights: &Vec<usize>) -> (light: Option<usize>)
    ensures
        light is Some <==> lights@.len() > 0,
        light matches Some(l) ==> lights@.contains(l),
{
    if lights.len() == 0 {
        None
    } else {
        let index = gen_below(rng, lights.len());
        pick_light(lights, index)
    }
}

} // verus!
