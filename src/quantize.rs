use vstd::arithmetic::div_mod::lemma_fundamental_div_mod_converse;
use vstd::prelude::*;

verus! {

/// Largest magnitude of a numerator or denominator that `quantize` accepts.
pub const FRACTION_BOUND: i128 = 0x400_0000_0000_0000_0000_0000;

/// `a / d` rounded to the nearest integer, halves away from zero.
pub open spec fn round_half_away(a: int, d: int) -> int {
    if a >= 0 {
        (2 * a + d) / (2 * d)
    } else {
        -((-2 * a + d) / (2 * d))
    }
}

/// The level of `num / den` among `n` evenly spaced values of `[0, 1]`: the value
/// times `n - 1`, rounded. Level `k` stands for the value `k / (n - 1)`.
pub open spec fn quantized(n: int, num: int, den: int) -> int {
    round_half_away(num * (n - 1), den)
}

/// Rounds the value `num / den` to the nearest of `num_colors` evenly spaced levels
/// and returns the level's index `k`, which stands for `k / (num_colors - 1)`.
/// Values outside `[0, 1]` round to levels outside `0..num_colors`.
pub fn quantize(num_colors: u32, num: i128, den: i128) -> (k: i128)
    requires
        num_colors >= 2,
        0 < den <= FRACTION_BOUND,
        -FRACTION_BOUND <= num <= FRACTION_BOUND,
    ensures
        k == quantized(num_colors as int, num as int, den as int),
{
    let steps = (num_colors - 1) as i128;
    proof {
        assert(-FRACTION_BOUND * 0x1_0000_0000 <= num * steps <= FRACTION_BOUND * 0x1_0000_0000)
            by (nonlinear_arith)
            requires
                -FRACTION_BOUND <= num <= FRACTION_BOUND,
                0 < steps < 0x1_0000_0000,
        ;
    }
    let a = num * steps;
    if a >= 0 {
        (2 * a + den) / (2 * den)
    } else {
        -((den - 2 * a) / (2 * den))
    }
}

/// Quantizing is idempotent: the value that level `k` stands for, `k / (n - 1)`,
/// quantizes to `k` again.
pub proof fn lemma_quantize_idempotent(n: int, num: int, den: int)
    requires
        n >= 2,
        den > 0,
    ensures
        quantized(n, quantized(n, num, den), n - 1) == quantized(n, num, den),
{
    let k = quantized(n, num, den);
    let d = n - 1;
    if k >= 0 {
        assert(k * d >= 0) by (nonlinear_arith)
            requires
                k >= 0,
                d > 0,
        ;
        assert(2 * (k * d) + d == k * (2 * d) + d) by (nonlinear_arith);
        lemma_fundamental_div_mod_converse(2 * (k * d) + d, 2 * d, k, d);
    } else {
        assert(k * d < 0) by (nonlinear_arith)
            requires
                k < 0,
                d > 0,
        ;
        assert(-2 * (k * d) + d == (-k) * (2 * d) + d) by (nonlinear_arith);
        lemma_fundamental_div_mod_converse(-2 * (k * d) + d, 2 * d, -k, d);
    }
}

} // verus!
