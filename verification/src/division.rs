//! Division of 128-bit numbers by shifting and subtracting, for targets where
//! the compiler's own division would call itself.
use vstd::arithmetic::div_mod::lemma_fundamental_div_mod_converse;
use vstd::prelude::*;

verus! {

/// What is left of a number once its lowest `i` bits are cut off.
pub open spec fn cut(num: u128, i: u128) -> u128 {
    if i < 128 {
        num >> i
    } else {
        0
    }
}

proof fn lemma_next_bit(num: u128, k: u128)
    requires
        k < 128,
    ensures
        cut(num, k) == 2 * cut(num, (k + 1) as u128) + ((num >> k) & 1),
        (num >> k) & 1 <= 1,
        cut(num, (k + 1) as u128) <= u128::MAX / 2,
{
    let a: u128 = num >> k;
    let i: u128 = (k + 1) as u128;
    assert(a == 2 * (a >> 1u128) + (a & 1)) by (bit_vector);
    assert(a & 1 <= 1) by (bit_vector);
    assert(a >> 1u128 <= 0x7fff_ffff_ffff_ffff_ffff_ffff_ffff_ffff) by (bit_vector);
    if i < 128 {
        assert((num >> k) >> 1u128 == num >> i) by (bit_vector)
            requires
                k < 127,
                i == k + 1,
        ;
    } else {
        assert((num >> k) >> 1u128 == 0) by (bit_vector)
            requires
                k == 127,
        ;
    }
}

fn shift_in(n: u128, bit: u128) -> (r: u128)
    requires
        n <= u128::MAX / 2,
        bit <= 1,
    ensures
        r == 2 * n + bit,
{
    assert(((n << 1u128) | bit) == 2 * n + bit) by (bit_vector)
        requires
            n <= 0x7fff_ffff_ffff_ffff_ffff_ffff_ffff_ffff,
            bit <= 1,
    ;
    (n << 1u128) | bit
}

/// The quotient and the remainder, both zero for a divisor of zero.
pub fn udivmod128(num: u128, den: u128) -> (r: (u128, u128))
    ensures
        den == 0 ==> r == (0u128, 0u128),
        den > 0 ==> num == r.0 * den + r.1 && r.1 < den,
        den > 0 ==> r.0 == num as int / den as int && r.1 == num as int % den as int,
{
    if den == 0 {
        return (0, 0);
    }
    if num < den {
        proof {
            lemma_fundamental_div_mod_converse(num as int, den as int, 0, num as int);
        }
        return (0, num);
    }
    let mut quot: u128 = 0;
    let mut rem: u128 = 0;
    let mut i: u128 = 128;
    while i > 0
        invariant
            i <= 128,
            den > 0,
            rem < den,
            cut(num, i) == quot * den + rem,
        decreases i,
    {
        let k: u128 = i - 1;
        proof {
            lemma_next_bit(num, k);
            assert(quot <= cut(num, i) && rem <= cut(num, i)) by (nonlinear_arith)
                requires
                    cut(num, i) == quot * den + rem,
                    den > 0,
                    quot >= 0,
                    rem >= 0,
            ;
        }
        let ghost q = quot;
        let bit: u128 = (num >> k) & 1;
        rem = shift_in(rem, bit);
        if rem >= den {
            rem = rem - den;
            quot = shift_in(quot, 1);
            assert(quot * den == 2 * (q * den) + den) by (nonlinear_arith)
                requires
                    quot == 2 * q + 1,
            ;
        } else {
            quot = shift_in(quot, 0);
            assert(quot * den == 2 * (q * den)) by (nonlinear_arith)
                requires
                    quot == 2 * q,
            ;
        }
        i = k;
    }
    proof {
        assert(num >> 0u128 == num) by (bit_vector);
        lemma_fundamental_div_mod_converse(num as int, den as int, quot as int, rem as int);
    }
    (quot, rem)
}

} // verus!
