use vstd::prelude::*;

verus! {

/// One step of a linear congruential generator: the next state after `x`
/// under multiplier `a`, increment `c` and modulus `m`.
pub fn generate(m: u64, a: u64, c: u64, x: u64) -> (r: u64)
    requires
        m > 0,
        a * x + c <= u64::MAX,
    ensures
        r == (a * x + c) % (m as int),
        r < m,
{
    (a * x + c) % m
}

} // verus!
