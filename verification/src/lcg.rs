//! Pseudo-random sequences by the method of linear congruences.

use vstd::prelude::*;

verus! {

/// The `i`-th term of the sequence `x(0) = seed`, `x(i + 1) = a * x(i) mod m`.
pub open spec fn lcg_term(seed: nat, a: nat, m: nat, i: nat) -> nat
    decreases i,
{
    if i == 0 {
        seed
    } else {
        (a * lcg_term(seed, a, m, (i - 1) as nat)) % m
    }
}

/// One step of the recurrence: `a * x mod m`, computed without overflow.
pub fn lcg_step(a: u64, x: u64, m: u64) -> (next: u64)
    requires
        m > 0,
    ensures
        next as nat == (a as nat * x as nat) % (m as nat),
{
    let wide_a: u128 = a as u128;
    let wide_x: u128 = x as u128;
    assert(wide_a * wide_x <= 0xFFFF_FFFF_FFFF_FFFF * 0xFFFF_FFFF_FFFF_FFFF) by (nonlinear_arith)
        requires
            wide_a <= 0xFFFF_FFFF_FFFF_FFFF,
            wide_x <= 0xFFFF_FFFF_FFFF_FFFF,
    ;
    let reduced: u128 = (wide_a * wide_x) % (m as u128);
    reduced as u64
}

/// The first `N` terms of the linear congruential sequence that starts at
/// `seed`, with multiplier `a` and modulus `m`. The seed itself is the first
/// term and is not reduced.
pub fn lcg<const N: usize>(seed: u64, a: u64, m: u64) -> (nums: [u64; N])
    requires
        N >= 1,
        m > 0 || N == 1,
    ensures
        forall|i: int|
            0 <= i < N ==> nums[i] as nat == lcg_term(seed as nat, a as nat, m as nat, i as nat),
        forall|i: int| 1 <= i < N ==> nums[i] < m,
{
    let mut nums: [u64; N] = [seed; N];
    let mut i: usize = 0;
    while i < N - 1
        invariant
            N >= 1,
            m > 0 || N == 1,
            i <= N - 1,
            forall|j: int|
                0 <= j <= i ==> nums[j] as nat == lcg_term(seed as nat, a as nat, m as nat, j as nat),
            forall|j: int| 1 <= j <= i ==> nums[j] < m,
        decreases N - 1 - i,
    {
        let next: u64 = lcg_step(a, nums[i], m);
        nums[i + 1] = next;
        i = i + 1;
    }
    nums
}

} // verus!
