//! Rounding to powers of two.
use vstd::prelude::*;

verus! {

/// `v` rounded up to a multiple of `to`.
pub open spec fn round_up(v: int, to: int) -> int {
    (v + to - 1) / to * to
}

proof fn lemma_pow2_mask(x: u64)
    requires
        x > 0,
    ensures
        (x & ((x - 1) as u64)) == 0 <==> vstd::arithmetic::power2::is_pow2(x as int),
    decreases x,
{
    reveal(vstd::arithmetic::power2::is_pow2);
    if x == 1 {
        assert(1u64 & 0u64 == 0) by (bit_vector);
    } else if x % 2 == 0 {
        lemma_pow2_mask(x / 2);
        assert((x & ((x - 1) as u64)) == 0 <==> ((x / 2) & ((x / 2 - 1) as u64)) == 0) by (bit_vector)
            requires
                x > 1,
                x % 2 == 0,
        ;
    } else {
        assert((x & ((x - 1) as u64)) != 0) by (bit_vector)
            requires
                x > 1,
                x % 2 == 1,
        ;
    }
}

/// Whether `x` is a power of two.
pub fn is_power_of_two(x: u64) -> (r: bool)
    ensures
        r == vstd::arithmetic::power2::is_pow2(x as int),
{
    if x == 0 {
        proof {
            reveal(vstd::arithmetic::power2::is_pow2);
        }
        return false;
    }
    proof {
        lemma_pow2_mask(x);
    }
    x & (x - 1) == 0
}

/// Round `v` up to a multiple of `to`, a power of two.
pub fn align_up(v: u64, to: u64) -> (r: u64)
    requires
        vstd::arithmetic::power2::is_pow2(to as int),
        v + to - 1 <= u64::MAX,
    ensures
        r == round_up(v as int, to as int),
        v <= r < v + to,
        r % to == 0,
{
    proof {
        reveal(vstd::arithmetic::power2::is_pow2);
        assert(to > 0);
    }
    let x: u64 = v + (to - 1);
    let m: u64 = to - 1;
    proof {
        lemma_mask_is_mod(x, to);
        assert(x & !m == x - (x & m)) by (bit_vector);
        vstd::arithmetic::div_mod::lemma_fundamental_div_mod(x as int, to as int);
        vstd::arithmetic::mul::lemma_mul_is_commutative(to as int, x as int / to as int);
        vstd::arithmetic::div_mod::lemma_mod_multiples_basic(x as int / to as int, to as int);
    }
    x & !m
}

proof fn lemma_mask_is_mod(x: u64, to: u64)
    requires
        vstd::arithmetic::power2::is_pow2(to as int),
        to > 0,
    ensures
        x & ((to - 1) as u64) == x % to,
{
    vstd::arithmetic::power2::is_pow2_equiv(to as int);
    let n = choose|i: nat| vstd::arithmetic::power::pow(2, i) == to as int;
    vstd::arithmetic::power2::lemma_pow2_pos(n);
    assert(vstd::arithmetic::power2::pow2(n) == to);
    if n >= 64 {
        if n > 64 {
            vstd::arithmetic::power2::lemma_pow2_strictly_increases(64, n);
        }
        vstd::arithmetic::power2::lemma2_to64();
        vstd::arithmetic::power2::lemma2_to64_rest();
        assert(false);
    }
    vstd::bits::lemma_u64_low_bits_mask_is_mod(x, n);
}

/// Number of `unit`-sized pieces needed to hold `n`.
pub open spec fn pieces(n: int, unit: int) -> int {
    (n + unit - 1) / unit
}

/// How many `unit`s it takes to hold `n`.
pub fn div_ceil(n: u64, unit: u64) -> (r: u64)
    requires
        unit > 0,
    ensures
        r == pieces(n as int, unit as int),
{
    let q: u64 = n / unit;
    let rem: u64 = n % unit;
    proof {
        vstd::arithmetic::div_mod::lemma_fundamental_div_mod(n as int, unit as int);
        if rem == 0 {
            vstd::arithmetic::div_mod::lemma_fundamental_div_mod_converse(
                n + unit - 1,
                unit as int,
                q as int,
                unit - 1,
            );
        } else {
            assert(unit * (q + 1) == unit * q + unit) by (nonlinear_arith);
            vstd::arithmetic::div_mod::lemma_fundamental_div_mod_converse(
                n + unit - 1,
                unit as int,
                q + 1,
                rem - 1,
            );
            assert(q < u64::MAX) by (nonlinear_arith)
                requires
                    n == unit * q + rem,
                    unit > 0,
                    rem > 0,
                    n <= u64::MAX,
            ;
        }
    }
    if rem == 0 {
        q
    } else {
        q + 1
    }
}

/// A number is rounded up to the next multiple: one that is not below it, by less
/// than one step; and so many pieces hold `n` that one less would not.
pub proof fn lemma_rounded(v: int, to: int)
    requires
        0 <= v,
        0 < to,
    ensures
        v <= round_up(v, to) < v + to,
        round_up(v, to) % to == 0,
        pieces(v, to) * to >= v,
        (pieces(v, to) - 1) * to < v,
{
    let q = (v + to - 1) / to;
    vstd::arithmetic::div_mod::lemma_fundamental_div_mod(v + to - 1, to);
    vstd::arithmetic::div_mod::lemma_mod_bound(v + to - 1, to);
    vstd::arithmetic::mul::lemma_mul_is_commutative(to, q);
    vstd::arithmetic::div_mod::lemma_mod_multiples_basic(q, to);
    assert((q - 1) * to == q * to - to) by (nonlinear_arith);
}

} // verus!
