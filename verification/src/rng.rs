//! Randomness for hasher construction.
//!
//! The generator state comes from the `rand` crate.  Nothing is assumed
//! about the values it produces: every consumer states only what holds of
//! every outcome (ranges, lengths, distinctness).

use vstd::prelude::*;
use crate::fx::Fx;

verus! {

#[verifier::external_type_specification]
#[verifier::external_body]
pub struct ExSmallRng(rand::rngs::SmallRng);

pub assume_specification<T>[ rand::random::<T> ]() -> (r: T)
    where
        rand::distributions::Standard: rand::distributions::Distribution<T>,
;

/// Relies on rand's `SeedableRng::seed_from_u64`: builds a generator from
/// the given seed.
#[verifier::external_body]
fn small_rng_from_seed(seed: u64) -> rand::rngs::SmallRng {
    <rand::rngs::SmallRng as rand::SeedableRng>::seed_from_u64(seed)
}

/// Relies on rand's `RngCore::next_u64`: draws the generator's next value.
/// Nothing is promised of the value.
#[verifier::external_body]
pub fn rng_next(rng: &mut rand::rngs::SmallRng) -> u64 {
    rand::RngCore::next_u64(rng)
}

/// A generator for the given seed; a zero seed is replaced by operating
/// system entropy.
pub fn create_rng(seed: u64) -> rand::rngs::SmallRng {
    if seed == 0 {
        let s: u64 = rand::random::<u64>();
        small_rng_from_seed(s)
    } else {
        small_rng_from_seed(seed)
    }
}

/// A draw from a centered bell-shaped distribution with unit variance:
/// the sum of twelve uniform draws on `[0, 1)`, shifted by six.
/// Every outcome lies within six units of zero.
pub fn sample_gauss(rng: &mut rand::rngs::SmallRng) -> (r: Fx)
    ensures
        -393216 <= r.raw <= 393216,
{
    let mut acc: i64 = 0;
    let mut i: usize = 0;
    while i < 12
        invariant
            i <= 12,
            0 <= acc <= i * 65535,
        decreases 12 - i,
    {
        let draw = rng_next(rng);
        let part: i64 = ((draw >> 48) & 0xffff) as i64;
        proof {
            assert((draw >> 48) & 0xffff <= 0xffff) by (bit_vector);
        }
        acc = acc + part;
        i += 1;
    }
    Fx { raw: acc - 393216 }
}

/// A uniform draw on `[0, hi)` in raw fixed-point units: every outcome `r`
/// has `0 <= r.raw < hi`.
pub fn sample_uniform(rng: &mut rand::rngs::SmallRng, hi: i64) -> (r: Fx)
    requires
        hi > 0,
    ensures
        0 <= r.raw < hi,
{
    let draw = rng_next(rng);
    let u: u64 = draw >> 16;
    proof {
        assert(draw >> 16 < 0x1_0000_0000_0000u64) by (bit_vector);
        assert((u as int) * (hi as int) < 0x1_0000_0000_0000 * (hi as int)) by (nonlinear_arith)
            requires
                0 <= u < 0x1_0000_0000_0000,
                hi > 0,
        ;
        assert(0x1_0000_0000_0000 * (hi as int) <= 0x1_0000_0000_0000 * 0x7fff_ffff_ffff_ffff)
            by (nonlinear_arith)
            requires
                0 < hi <= 0x7fff_ffff_ffff_ffffi64,
        ;
    }
    let wide: u128 = (u as u128) * (hi as u128);
    let val: u128 = wide / 0x1_0000_0000_0000;
    proof {
        assert(wide / 0x1_0000_0000_0000 < hi) by (nonlinear_arith)
            requires
                wide < 0x1_0000_0000_0000 * (hi as int),
                hi > 0,
        ;
    }
    Fx { raw: val as i64 }
}

/// A draw from `0 .. n`: every outcome is below `n`.
pub fn sample_below(rng: &mut rand::rngs::SmallRng, n: usize) -> (r: usize)
    requires
        n > 0,
    ensures
        r < n,
{
    let draw = rng_next(rng);
    (draw % (n as u64)) as usize
}

/// A vector of `size` draws from the bell-shaped distribution.
pub fn rand_unit_vec(size: usize, rng: &mut rand::rngs::SmallRng) -> (r: Vec<Fx>)
    ensures
        r@.len() == size,
        forall|j: int| 0 <= j < size ==> -393216 <= (#[trigger] r@[j]).raw <= 393216,
{
    let mut out: Vec<Fx> = Vec::new();
    let mut i: usize = 0;
    while i < size
        invariant
            i <= size,
            out@.len() == i,
            forall|j: int| 0 <= j < i ==> -393216 <= (#[trigger] out@[j]).raw <= 393216,
        decreases size - i,
    {
        let g = sample_gauss(rng);
        out.push(g);
        i += 1;
    }
    out
}

/// A uniformly drawn arrangement of the integers `1 ..= n`: the result has
/// length `n`, every entry lies in `1 ..= n`, and no entry repeats.
pub fn sample_permutation(rng: &mut rand::rngs::SmallRng, n: usize) -> (r: Vec<i64>)
    requires
        n <= 0x7fff_ffff,
    ensures
        r@.len() == n,
        forall|j: int| 0 <= j < n ==> 1 <= #[trigger] r@[j] <= n,
        forall|x: int, y: int| 0 <= x < y < n ==> r@[x] != r@[y],
{
    let mut v: Vec<i64> = Vec::new();
    let mut i: usize = 0;
    while i < n
        invariant
            i <= n,
            n <= 0x7fff_ffff,
            v@.len() == i,
            forall|j: int| 0 <= j < i ==> #[trigger] v@[j] == j + 1,
        decreases n - i,
    {
        v.push((i as i64) + 1);
        i += 1;
    }
    if n == 0 {
        return v;
    }
    let mut k: usize = n - 1;
    while k > 0
        invariant
            k < n,
            v@.len() == n,
            n <= 0x7fff_ffff,
            forall|j: int| 0 <= j < n ==> 1 <= #[trigger] v@[j] <= n,
            forall|x: int, y: int| 0 <= x < y < n ==> v@[x] != v@[y],
        decreases k,
    {
        let j = sample_below(rng, k + 1);
        let a = v[j];
        let b = v[k];
        v.set(j, b);
        v.set(k, a);
        k -= 1;
    }
    v
}

} // verus!
