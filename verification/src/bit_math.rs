use vstd::prelude::*;
use vstd::arithmetic::power2::*;
use vstd::arithmetic::div_mod::*;
use vstd::arithmetic::mul::*;
use crate::error::UniswapV3MathError;
use crate::u256::{U256, p128, p256, pow2_u128, lemma_p128_p256};

verus! {

/// Index of the highest set bit, by the naive scan: halve until one is left.
pub open spec fn naive_msb(x: nat) -> nat
    recommends
        x > 0,
    decreases x,
{
    if x < 2 {
        0
    } else {
        1 + naive_msb(x / 2)
    }
}

/// Index of the lowest set bit, by the naive scan from bit zero.
pub open spec fn naive_lsb(x: nat) -> nat
    recommends
        x > 0,
    decreases x,
{
    if x % 2 == 1 || x == 0 {
        0
    } else {
        1 + naive_lsb(x / 2)
    }
}

/// The arithmetic reading of "highest set bit at `r`" agrees with the naive scan.
pub proof fn lemma_msb_agrees_naive_scan(x: nat, r: nat)
    requires
        pow2(r) <= x < pow2(r + 1),
    ensures
        naive_msb(x) == r,
    decreases r,
{
    lemma_pow2_pos(r);
    lemma2_to64();
    if r == 0 {
        assert(x == 1);
    } else {
        lemma_pow2_adds((r - 1) as nat, 1);
        lemma_pow2_adds(r, 1);
        assert(x >= 2);
        assert(x / 2 >= pow2((r - 1) as nat)) by {
            lemma_div_is_ordered(pow2(r) as int, x as int, 2);
            lemma_div_multiples_vanish(pow2((r - 1) as nat) as int, 2);
        }
        assert(x / 2 < pow2(r)) by {
            lemma_multiply_divide_lt(x as int, 2, pow2(r) as int);
        }
        lemma_msb_agrees_naive_scan(x / 2, (r - 1) as nat);
    }
}

/// The arithmetic reading of "lowest set bit at `r`" agrees with the naive scan.
pub proof fn lemma_lsb_agrees_naive_scan(x: nat, r: nat)
    requires
        x > 0,
        x % pow2(r) == 0,
        (x / pow2(r)) % 2 == 1,
    ensures
        naive_lsb(x) == r,
    decreases r,
{
    lemma_pow2_pos(r);
    lemma2_to64();
    if r == 0 {
        lemma_div_basics(x as int);
        assert(x % 2 == 1) by {
            assert(x / pow2(0) == x);
        }
    } else {
        lemma_pow2_adds(1, (r - 1) as nat);
        lemma_fundamental_div_mod(x as int, pow2(r) as int);
        let q = x as int / pow2(r) as int;
        assert(x == pow2(r) * q + 0);
        assert(x == 2 * (pow2((r - 1) as nat) * q)) by (nonlinear_arith)
            requires
                x == pow2(r) * q,
                pow2(r) == 2 * pow2((r - 1) as nat),
        ;
        assert(x % 2 == 0) by {
            lemma_mod_multiples_basic(pow2((r - 1) as nat) as int * q, 2);
        }
        assert(x / 2 == pow2((r - 1) as nat) * q) by {
            lemma_div_multiples_vanish(pow2((r - 1) as nat) as int * q, 2);
        }
        assert((x / 2) % pow2((r - 1) as nat) == 0) by {
            lemma_mod_multiples_basic(q, pow2((r - 1) as nat) as int);
            lemma_mul_is_commutative(pow2((r - 1) as nat) as int, q);
        }
        assert((x / 2) / pow2((r - 1) as nat) == q) by {
            lemma_div_multiples_vanish(q, pow2((r - 1) as nat) as int);
            lemma_mul_is_commutative(pow2((r - 1) as nat) as int, q);
        }
        assert(x / 2 > 0) by {
            lemma_pow2_pos((r - 1) as nat);
            assert(q >= 1);
            lemma_mul_strictly_positive(pow2((r - 1) as nat) as int, q);
        }
        lemma_lsb_agrees_naive_scan((x / 2) as nat, (r - 1) as nat);
    }
}

/// Highest set bit of a non-zero 128-bit value, by successive halving.
fn msb_u128(y0: u128) -> (r: u8)
    requires
        y0 >= 1,
    ensures
        r < 128,
        pow2(r as nat) <= y0 < pow2((r + 1) as nat),
{
    let mut y: u128 = y0;
    let mut r: u8 = 0;
    let mut k: u8 = 64;
    proof {
        lemma2_to64();
        lemma_p128_p256();
        lemma_div_basics(y0 as int);
    }
    while k >= 1
        invariant
            y0 >= 1,
            y >= 1,
            r + 2 * k <= 128,
            k == 0 || k == 1 || k == 2 || k == 4 || k == 8 || k == 16 || k == 32 || k == 64,
            y0 as nat / pow2(r as nat) == y,
            k >= 1 ==> y < pow2((2 * k) as nat),
            k == 0 ==> y < 2,
        decreases k,
    {
        let c = pow2_u128(k as u32);
        proof {
            lemma_pow2_pos(k as nat);
            lemma_pow2_adds(k as nat, k as nat);
            lemma2_to64();
        }
        if y >= c {
            proof {
                lemma_pow2_pos(r as nat);
                lemma_div_denominator(y0 as int, pow2(r as nat) as int, c as int);
                lemma_pow2_adds(r as nat, k as nat);
                lemma_div_is_ordered(c as int, y as int, c as int);
                lemma_div_by_self(c as int);
                lemma_multiply_divide_lt(y as int, c as int, pow2(k as nat) as int);
            }
            y = y / c;
            r = r + k;
            proof {
                assert(y < pow2(k as nat));
            }
        } else {
            proof {
                assert(y < pow2(k as nat));
            }
        }
        k = k / 2;
    }
    proof {
        assert(y == 1);
        lemma_pow2_pos(r as nat);
        lemma_fundamental_div_mod(y0 as int, pow2(r as nat) as int);
        lemma_mod_division_less_than_divisor(y0 as int, pow2(r as nat) as int);
        lemma_pow2_adds(r as nat, 1);
        lemma2_to64();
    }
    r
}

/// Lowest set bit of a non-zero 128-bit value, by successive halving.
fn lsb_u128(y0: u128) -> (r: u8)
    requires
        y0 >= 1,
    ensures
        r < 128,
        y0 as nat % pow2(r as nat) == 0,
        (y0 as nat / pow2(r as nat)) % 2 == 1,
{
    let mut y: u128 = y0;
    let mut r: u8 = 0;
    let mut k: u8 = 64;
    proof {
        lemma2_to64();
        lemma_p128_p256();
        lemma_mul_basics_2(y0 as int);
        lemma_small_mod(y0 as nat, p128());
    }
    while k >= 1
        invariant
            y0 >= 1,
            y >= 1,
            r + 2 * k <= 128,
            k == 0 || k == 1 || k == 2 || k == 4 || k == 8 || k == 16 || k == 32 || k == 64,
            y0 as nat == y * pow2(r as nat),
            k >= 1 ==> y as nat % pow2((2 * k) as nat) != 0,
            k == 0 ==> y % 2 == 1,
        decreases k,
    {
        let c = pow2_u128(k as u32);
        proof {
            lemma_pow2_pos(k as nat);
            lemma_pow2_adds(k as nat, k as nat);
            lemma2_to64();
        }
        if y % c == 0 {
            let ghost yold: nat = y as nat;
            proof {
                lemma_fundamental_div_mod(y as int, c as int);
                lemma_pow2_adds(r as nat, k as nat);
                lemma_pow2_pos(r as nat);
            }
            y = y / c;
            proof {
                // the starting value re-associates onto the larger power of two
                assert(y0 as nat == y * pow2((r + k) as nat)) by (nonlinear_arith)
                    requires
                        y0 as nat == yold * pow2(r as nat),
                        yold == y * pow2(k as nat),
                        pow2((r + k) as nat) == pow2(r as nat) * pow2(k as nat),
                ;
                assert(y >= 1);
                // the low k bits of the shifted value cannot all be zero
                assert(y as nat % pow2(k as nat) != 0) by {
                    if y as nat % pow2(k as nat) == 0 {
                        lemma_fundamental_div_mod(y as int, pow2(k as nat) as int);
                        let m = y as int / pow2(k as nat) as int;
                        assert(yold == m * pow2((2 * k) as nat)) by (nonlinear_arith)
                            requires
                                yold == y * pow2(k as nat),
                                y == pow2(k as nat) * m,
                                pow2((2 * k) as nat) == pow2(k as nat) * pow2(k as nat),
                        ;
                        lemma_mod_multiples_basic(m, pow2((2 * k) as nat) as int);
                        assert(yold % pow2((2 * k) as nat) == 0);
                    }
                }
            }
            r = r + k;
        } else {
            proof {
                lemma_mod_mod(y as int, pow2(k as nat) as int, pow2(k as nat) as int);
            }
        }
        proof {
            if k > 1 {
                // whichever branch ran, the low k bits are not all zero now
                assert(y as nat % pow2(k as nat) != 0);
            }
        }
        k = k / 2;
    }
    proof {
        lemma_div_multiples_vanish(y as int, pow2(r as nat) as int);
        lemma_pow2_pos(r as nat);
        lemma_mul_is_commutative(y as int, pow2(r as nat) as int);
        lemma_mod_multiples_basic(y as int, pow2(r as nat) as int);
    }
    r
}

/// `floor(log2(x))` of a non-zero 256-bit value; fails with `ZeroValue` on zero.
/// The result is pinned both arithmetically and against the naive bit scan.
pub fn most_significant_bit(x: U256) -> (r: Result<u8, UniswapV3MathError>)
    ensures
        match r {
            Ok(i) => x.v() > 0 && pow2(i as nat) <= x.v() < pow2((i + 1) as nat) && naive_msb(
                x.v(),
            ) == i,
            Err(e) => x.v() == 0 && e == UniswapV3MathError::ZeroValue,
        },
{
    proof {
        x.lemma_v_bound();
        lemma_p128_p256();
    }
    if x.is_zero() {
        return Err(UniswapV3MathError::ZeroValue);
    }
    let i: u8;
    if x.hi > 0 {
        let j = msb_u128(x.hi);
        i = 128 + j;
        proof {
            lemma_pow2_adds(128, j as nat);
            lemma_pow2_adds(128, (j + 1) as nat);
            assert(pow2((128 + j) as nat) <= x.v()) by {
                lemma_mul_inequality(pow2(j as nat) as int, x.hi as int, p128() as int);
            }
            assert(x.v() < pow2((128 + j + 1) as nat)) by {
                assert(x.hi + 1 <= pow2((j + 1) as nat));
                lemma_mul_inequality(x.hi as int + 1, pow2((j + 1) as nat) as int, p128() as int);
                assert((x.hi + 1) * p128() == x.hi * p128() + p128()) by {
                    lemma_mul_is_distributive_add_other_way(p128() as int, x.hi as int, 1);
                }
            }
        }
    } else {
        i = msb_u128(x.lo);
    }
    proof {
        lemma_msb_agrees_naive_scan(x.v(), i as nat);
    }
    Ok(i)
}

/// Index of the lowest set bit of a non-zero 256-bit value; fails with
/// `ZeroValue` on zero. Pinned arithmetically and against the naive bit scan.
pub fn least_significant_bit(x: U256) -> (r: Result<u8, UniswapV3MathError>)
    ensures
        match r {
            Ok(i) => x.v() > 0 && x.v() % pow2(i as nat) == 0 && (x.v() / pow2(i as nat)) % 2
                == 1 && naive_lsb(x.v()) == i,
            Err(e) => x.v() == 0 && e == UniswapV3MathError::ZeroValue,
        },
{
    proof {
        x.lemma_v_bound();
        lemma_p128_p256();
        lemma2_to64();
    }
    if x.is_zero() {
        return Err(UniswapV3MathError::ZeroValue);
    }
    let i: u8;
    if x.lo == 0 {
        let j = lsb_u128(x.hi);
        i = 128 + j;
        proof {
            lemma_pow2_adds(j as nat, 128);
            lemma_pow2_pos(j as nat);
            lemma_fundamental_div_mod(x.hi as int, pow2(j as nat) as int);
            let m = x.hi as int / pow2(j as nat) as int;
            assert(x.v() == m * pow2((j + 128) as nat)) by (nonlinear_arith)
                requires
                    x.v() == x.hi * p128(),
                    x.hi == pow2(j as nat) * m,
                    pow2((j + 128) as nat) == pow2(j as nat) * p128(),
            ;
            lemma_mod_multiples_basic(m, pow2((j + 128) as nat) as int);
            lemma_pow2_pos((j + 128) as nat);
            lemma_div_multiples_vanish(m, pow2((j + 128) as nat) as int);
            lemma_mul_is_commutative(m, pow2((j + 128) as nat) as int);
        }
    } else {
        let j = lsb_u128(x.lo);
        i = j;
        proof {
            // the high limb only adds a multiple of 2^128, far above bit j
            lemma_pow2_pos(j as nat);
            lemma_pow2_adds(j as nat, (128 - j) as nat);
            lemma_fundamental_div_mod(x.lo as int, pow2(j as nat) as int);
            let q = x.lo as int / pow2(j as nat) as int;
            let h = x.hi as int * pow2((128 - j) as nat) as int;
            assert(x.v() == (q + h) * pow2(j as nat)) by (nonlinear_arith)
                requires
                    x.v() == x.lo + x.hi * p128(),
                    x.lo == pow2(j as nat) * q,
                    p128() == pow2(j as nat) * pow2((128 - j) as nat),
                    h == x.hi as int * pow2((128 - j) as nat) as int,
            ;
            assert(x.v() % pow2(j as nat) == 0) by {
                lemma_mod_multiples_basic(q + h, pow2(j as nat) as int);
            }
            assert(x.v() / pow2(j as nat) == q + h) by {
                lemma_div_multiples_vanish(q + h, pow2(j as nat) as int);
                lemma_mul_is_commutative(q + h, pow2(j as nat) as int);
            }
            assert((q + h) % 2 == q % 2) by {
                lemma_pow2_adds(1, (128 - j - 1) as nat);
                lemma2_to64();
                assert(h == 2 * (x.hi as int * pow2((128 - j - 1) as nat) as int))
                    by (nonlinear_arith)
                    requires
                        h == x.hi as int * pow2((128 - j) as nat) as int,
                        pow2((128 - j) as nat) == 2 * pow2((128 - j - 1) as nat),
                ;
                lemma_mod_multiples_vanish(
                    x.hi as int * pow2((128 - j - 1) as nat) as int,
                    q,
                    2,
                );
            }
        }
    }
    proof {
        lemma_lsb_agrees_naive_scan(x.v(), i as nat);
    }
    Ok(i)
}

} // verus!
