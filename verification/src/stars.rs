//! The fixed pseudo-random star field behind the orbit view, as integer draws.
//! Each star takes four consecutive steps of a 64-bit linear congruential
//! generator; the caller scales the draws to coordinates, sizes and opacities.

use vstd::prelude::*;

verus! {

/// The generator's starting state.
pub const STAR_SEED: u64 = 0x1234_5678_9abc_def0;

/// The generator's multiplier.
pub const STAR_MULTIPLIER: u64 = 6364136223846793005;

/// One generator step: multiply by `STAR_MULTIPLIER` and add one, modulo 2^64.
pub open spec fn lcg_step(s: u64) -> u64 {
    vstd::wrapping::u64_specs::wrapping_add(
        vstd::wrapping::u64_specs::wrapping_mul(s, STAR_MULTIPLIER),
        1,
    )
}

/// The generator state after `n` steps from `STAR_SEED`.
pub open spec fn seed_after(n: nat) -> u64
    decreases n,
{
    if n == 0 {
        STAR_SEED
    } else {
        lcg_step(seed_after((n - 1) as nat))
    }
}

/// The integer draws of one star.
#[derive(Clone, Copy, Debug, PartialEq, Eq, Structural)]
pub struct StarDraw {
    /// Horizontal position, below 720.
    pub x: u64,
    /// Vertical position, below 520.
    pub y: u64,
    /// Radius step, below 18 (tenths added to the smallest radius).
    pub size: u64,
    /// Opacity step, below 55 (hundredths added to the faintest opacity).
    pub glow: u64,
}

/// The draws of star `k`, from generator steps `4k + 1` to `4k + 4`.
pub open spec fn star_spec(k: nat) -> StarDraw {
    StarDraw {
        x: (seed_after(4 * k + 1) >> 12u64) % 720,
        y: (seed_after(4 * k + 2) >> 10u64) % 520,
        size: (seed_after(4 * k + 3) >> 8u64) % 18,
        glow: (seed_after(4 * k + 4) >> 6u64) % 55,
    }
}

fn step(s: u64) -> (r: u64)
    ensures
        r == lcg_step(s),
{
    s.wrapping_mul(STAR_MULTIPLIER).wrapping_add(1)
}

/// The draws of the first `count` stars.
pub fn star_draws(count: usize) -> (r: Vec<StarDraw>)
    ensures
        r@.len() == count,
        forall|k: int| 0 <= k < count ==> #[trigger] r@[k] == star_spec(k as nat),
{
    let mut r: Vec<StarDraw> = Vec::new();
    let mut seed: u64 = STAR_SEED;
    let mut k: usize = 0;
    while k < count
        invariant
            k <= count,
            r@.len() == k,
            seed == seed_after(4 * k as nat),
            forall|j: int| 0 <= j < k ==> #[trigger] r@[j] == star_spec(j as nat),
        decreases count - k,
    {
        let ghost base = 4 * k as nat;
        seed = step(seed);
        assert(seed == seed_after(base + 1));
        let x = (seed >> 12u64) % 720;
        seed = step(seed);
        assert(seed == seed_after(base + 2));
        let y = (seed >> 10u64) % 520;
        seed = step(seed);
        assert(seed == seed_after(base + 3));
        let size = (seed >> 8u64) % 18;
        seed = step(seed);
        assert(seed == seed_after(base + 4));
        let glow = (seed >> 6u64) % 55;
        r.push(StarDraw { x, y, size, glow });
        k = k + 1;
        assert(4 * k as nat == base + 4);
    }
    r
}

} // verus!
