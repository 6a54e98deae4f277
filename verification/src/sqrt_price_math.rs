use vstd::prelude::*;
use vstd::arithmetic::power2::*;
use vstd::arithmetic::div_mod::*;
use vstd::arithmetic::mul::*;
use crate::error::UniswapV3MathError;
use crate::u256::{U256, p128, p256, lemma_p128_p256};
use crate::i256::I256;
use crate::full_math::{mul_div, mul_div_rounding_up, mul_div_spec, mul_div_up_spec};
use crate::unsafe_math::{div_rounding_up, div_up};
use crate::utils::res_v;

verus! {

/// 2^160 - 1, the largest value a square-root price may take.
pub fn max_u160() -> (r: U256)
    ensures
        r.v() == pow2(160) - 1,
{
    let r = U256 { lo: u128::MAX, hi: 4294967295 };
    proof {
        lemma_pow2_values();
        assert(4294967295 * p128() == pow2(160) - p128()) by (nonlinear_arith)
            requires
                p128() == 0x100000000000000000000000000000000,
                pow2(160) == 0x10000000000000000000000000000000000000000,
        ;
    }
    r
}

/// 2^96, the Q64.96 scaling factor.
pub fn q96() -> (r: U256)
    ensures
        r.v() == pow2(96),
{
    proof {
        lemma_pow2_values();
    }
    U256 { lo: 0x1000000000000000000000000, hi: 0 }
}

pub proof fn lemma_pow2_values()
    ensures
        pow2(96) == 0x1000000000000000000000000,
        pow2(160) == 0x10000000000000000000000000000000000000000,
        pow2(224) == 0x100000000000000000000000000000000000000000000000000000000,
        pow2(128) == p128(),
        pow2(256) == p256(),
        p128() * p128() == p256(),
{
    lemma_p128_p256();
    lemma2_to64();
    lemma_pow2_adds(64, 32);
    lemma_pow2_adds(128, 32);
    lemma_pow2_adds(128, 96);
}

/// The exact outcome of the token0 next-price computation, rounding up. The
/// product-overflow probes mirror the pool contract's unchecked tests; the
/// fallback divides by its exact, unbounded denominator.
pub open spec fn next_sqrt_price_from_amount_0_spec(p: nat, l: nat, amount: nat, add: bool)
    -> Result<nat, UniswapV3MathError> {
    if amount == 0 {
        Ok(p)
    } else {
        let n1 = l * pow2(96);
        let ap = amount * p;
        if add {
            if ap < p256() && n1 + ap < p256() {
                mul_div_up_spec(n1, p, n1 + ap)
            } else {
                Ok(div_up(n1, n1 / p + amount))
            }
        } else {
            if ap < p256() && n1 > ap {
                mul_div_up_spec(n1, p, (n1 - ap) as nat)
            } else {
                Err(UniswapV3MathError::ProductDivAmount)
            }
        }
    }
}

/// The exact outcome of the token1 next-price computation: rounds the
/// quotient down when adding, up when subtracting.
pub open spec fn next_sqrt_price_from_amount_1_spec(p: nat, l: nat, amount: nat, add: bool)
    -> Result<nat, UniswapV3MathError> {
    if add {
        let qr = if amount <= pow2(160) - 1 {
            Ok(amount * pow2(96) / l)
        } else {
            mul_div_spec(amount, pow2(96), l)
        };
        match qr {
            Err(e) => Err(e),
            Ok(q) => if p + q > pow2(160) - 1 {
                Err(UniswapV3MathError::SafeCastToU160Overflow)
            } else {
                Ok(p + q)
            },
        }
    } else {
        let qr = if amount <= pow2(160) - 1 {
            Ok(div_up(amount * pow2(96), l))
        } else {
            mul_div_up_spec(amount, pow2(96), l)
        };
        match qr {
            Err(e) => Err(e),
            Ok(q) => if p <= q {
                Err(UniswapV3MathError::SqrtPriceIsLteQuotient)
            } else {
                Ok((p - q) as nat)
            },
        }
    }
}

/// What `get_next_sqrt_price_from_input` returns.
pub open spec fn next_sqrt_price_from_input_spec(p: nat, l: nat, amount: nat, zero_for_one: bool)
    -> Result<nat, UniswapV3MathError> {
    if p == 0 {
        Err(UniswapV3MathError::SqrtPriceIsZero)
    } else if l == 0 {
        Err(UniswapV3MathError::LiquidityIsZero)
    } else if zero_for_one {
        next_sqrt_price_from_amount_0_spec(p, l, amount, true)
    } else {
        next_sqrt_price_from_amount_1_spec(p, l, amount, true)
    }
}

/// What `get_next_sqrt_price_from_output` returns.
pub open spec fn next_sqrt_price_from_output_spec(p: nat, l: nat, amount: nat, zero_for_one: bool)
    -> Result<nat, UniswapV3MathError> {
    if p == 0 {
        Err(UniswapV3MathError::SqrtPriceIsZero)
    } else if l == 0 {
        Err(UniswapV3MathError::LiquidityIsZero)
    } else if zero_for_one {
        next_sqrt_price_from_amount_1_spec(p, l, amount, false)
    } else {
        next_sqrt_price_from_amount_0_spec(p, l, amount, false)
    }
}

/// Gets the next square-root price from a token0 amount, rounding up so the
/// price moves in the pool's favor.
pub fn get_next_sqrt_price_from_amount_0_rounding_up(
    sqrt_price_x_96: U256,
    liquidity: u128,
    amount: U256,
    add: bool,
) -> (r: Result<U256, UniswapV3MathError>)
    ensures
        res_v(r) == next_sqrt_price_from_amount_0_spec(
            sqrt_price_x_96.v(),
            liquidity as nat,
            amount.v(),
            add,
        ),
{
    if amount.is_zero() {
        return Ok(sqrt_price_x_96);
    }
    let p = sqrt_price_x_96;
    let ghost pv: nat = p.v();
    let ghost av: nat = amount.v();
    let ghost ap: nat = av * pv;
    let numerator_1 = U256 { lo: liquidity, hi: 0 }.shl(96);
    proof {
        lemma_pow2_values();
        amount.lemma_v_bound();
        p.lemma_v_bound();
        assert(liquidity as nat * pow2(96) < p256()) by (nonlinear_arith)
            requires
                liquidity < p128(),
                pow2(96) == 0x1000000000000000000000000,
                p128() == 0x100000000000000000000000000000000,
                p256() == 0x10000000000000000000000000000000000000000000000000000000000000000,
        ;
        lemma_small_mod(liquidity as nat * pow2(96), p256());
        lemma_mul_nonnegative(av as int, pv as int);
    }
    let ghost n1: nat = numerator_1.v();
    let product = amount.wrapping_mul(p);
    let (wd, _wr) = product.div_rem(amount);
    proof {
        // the wrapped product divides back to the price exactly when the
        // true product fits in 256 bits
        if ap < p256() {
            lemma_small_mod(ap, p256());
            lemma_div_multiples_vanish(pv as int, av as int);
            lemma_mul_is_commutative(av as int, pv as int);
            assert(wd.v() == pv);
        } else {
            assert(pv >= 1);
            assert(product.v() <= ap - p256()) by {
                lemma_fundamental_div_mod(ap as int, p256() as int);
                lemma_div_is_ordered(p256() as int, ap as int, p256() as int);
                lemma_div_by_self(p256() as int);
                assert((ap / p256()) * p256() >= p256()) by (nonlinear_arith)
                    requires ap / p256() >= 1, p256() > 0;
                lemma_mul_is_commutative((ap / p256()) as int, p256() as int);
            }
            assert(wd.v() < pv) by {
                assert(product.v() < av * pv);
                lemma_multiply_divide_lt(product.v() as int, av as int, pv as int);
            }
        }
        U256::lemma_eq_v(wd, p);
    }
    if add {
        if wd == p {
            let (denominator, dcarry) = numerator_1.overflowing_add(product);
            if !dcarry {
                proof {
                    assert(denominator.v() == n1 + ap);
                }
                return mul_div_rounding_up(numerator_1, p, denominator);
            }
        }
        // fallback: divide first, accepting the coarser rounding
        proof {
            assert(ap >= p256() || n1 + ap >= p256());
            assert(pv >= 1) by {
                if pv == 0 {
                    assert(ap == 0) by {
                        lemma_mul_by_zero_is_zero(av as int);
                    }
                }
            }
        }
        let (nd, _ndr) = numerator_1.div_rem(p);
        let (den2, dencarry) = nd.overflowing_add(amount);
        if dencarry {
            // the exact denominator exceeds any 256-bit numerator, so the
            // ceiling division is one for a non-zero numerator, else zero
            let r = if numerator_1.is_zero() {
                U256 { lo: 0, hi: 0 }
            } else {
                U256 { lo: 1, hi: 0 }
            };
            proof {
                let s: nat = n1 / pv + av;
                assert(s >= p256());
                lemma_basic_div(n1 as int, s as int);
                lemma_small_mod(n1, s);
                assert(r.v() == div_up(n1, s));
            }
            return Ok(r);
        }
        proof {
            assert(den2.v() == n1 / pv + av);
        }
        Ok(div_rounding_up(numerator_1, den2))
    } else {
        let cond = wd == p && numerator_1.gt(&product);
        proof {
            if ap < p256() {
                assert(product.v() == ap);
            } else {
                assert(!(wd == p));
            }
        }
        if cond {
            let denominator = numerator_1.overflowing_sub(product).0;
            mul_div_rounding_up(numerator_1, p, denominator)
        } else {
            Err(UniswapV3MathError::ProductDivAmount)
        }
    }
}

/// Gets the next square-root price from a token1 amount: the quotient is
/// rounded down when adding and up when subtracting.
pub fn get_next_sqrt_price_from_amount_1_rounding_down(
    sqrt_price_x_96: U256,
    liquidity: u128,
    amount: U256,
    add: bool,
) -> (r: Result<U256, UniswapV3MathError>)
    requires
        liquidity > 0,
    ensures
        res_v(r) == next_sqrt_price_from_amount_1_spec(
            sqrt_price_x_96.v(),
            liquidity as nat,
            amount.v(),
            add,
        ),
{
    let lq = U256 { lo: liquidity, hi: 0 };
    let m160 = max_u160();
    let q96v = q96();
    proof {
        lemma_pow2_values();
        amount.lemma_v_bound();
        assert(amount.v() <= pow2(160) - 1 ==> amount.v() * pow2(96) < p256())
            by (nonlinear_arith)
            requires
                pow2(96) == 0x1000000000000000000000000,
                pow2(160) == 0x10000000000000000000000000000000000000000,
                p256() == 0x10000000000000000000000000000000000000000000000000000000000000000,
        ;
    }
    if add {
        let quotient: U256;
        if amount.le(&m160) {
            let sh = amount.shl(96);
            proof {
                lemma_small_mod(amount.v() * pow2(96), p256());
            }
            let (qv, _r2) = sh.div_rem(lq);
            quotient = qv;
        } else {
            match mul_div(amount, q96v, lq) {
                Ok(qv) => {
                    quotient = qv;
                },
                Err(e) => {
                    return Err(e);
                },
            }
        }
        let (next, carry) = sqrt_price_x_96.overflowing_add(quotient);
        proof {
            if carry {
                sqrt_price_x_96.lemma_v_bound();
                quotient.lemma_v_bound();
                lemma_pow2_strictly_increases(160, 256);
            }
        }
        if carry || next.gt(&m160) {
            Err(UniswapV3MathError::SafeCastToU160Overflow)
        } else {
            Ok(next)
        }
    } else {
        let quotient: U256;
        if amount.le(&m160) {
            let sh = amount.shl(96);
            proof {
                lemma_small_mod(amount.v() * pow2(96), p256());
            }
            quotient = div_rounding_up(sh, lq);
        } else {
            match mul_div_rounding_up(amount, q96v, lq) {
                Ok(qv) => {
                    quotient = qv;
                },
                Err(e) => {
                    return Err(e);
                },
            }
        }
        if !sqrt_price_x_96.gt(&quotient) {
            return Err(UniswapV3MathError::SqrtPriceIsLteQuotient);
        }
        Ok(sqrt_price_x_96.overflowing_sub(quotient).0)
    }
}

/// The next square-root price after swapping in `amount_in`; price falls for
/// token0 input and rises for token1 input.
pub fn get_next_sqrt_price_from_input(
    sqrt_price: U256,
    liquidity: u128,
    amount_in: U256,
    zero_for_one: bool,
) -> (r: Result<U256, UniswapV3MathError>)
    ensures
        res_v(r) == next_sqrt_price_from_input_spec(
            sqrt_price.v(),
            liquidity as nat,
            amount_in.v(),
            zero_for_one,
        ),
{
    if sqrt_price.is_zero() {
        return Err(UniswapV3MathError::SqrtPriceIsZero);
    }
    if liquidity == 0 {
        return Err(UniswapV3MathError::LiquidityIsZero);
    }
    if zero_for_one {
        get_next_sqrt_price_from_amount_0_rounding_up(sqrt_price, liquidity, amount_in, true)
    } else {
        get_next_sqrt_price_from_amount_1_rounding_down(sqrt_price, liquidity, amount_in, true)
    }
}

/// The next square-root price after swapping out `amount_out`.
pub fn get_next_sqrt_price_from_output(
    sqrt_price: U256,
    liquidity: u128,
    amount_out: U256,
    zero_for_one: bool,
) -> (r: Result<U256, UniswapV3MathError>)
    ensures
        res_v(r) == next_sqrt_price_from_output_spec(
            sqrt_price.v(),
            liquidity as nat,
            amount_out.v(),
            zero_for_one,
        ),
{
    if sqrt_price.is_zero() {
        return Err(UniswapV3MathError::SqrtPriceIsZero);
    }
    if liquidity == 0 {
        return Err(UniswapV3MathError::LiquidityIsZero);
    }
    if zero_for_one {
        get_next_sqrt_price_from_amount_1_rounding_down(sqrt_price, liquidity, amount_out, false)
    } else {
        get_next_sqrt_price_from_amount_0_rounding_up(sqrt_price, liquidity, amount_out, false)
    }
}


/// The token0 amount between two square-root prices, unsigned form.
pub open spec fn amount_0_delta_spec(pa: nat, pb: nat, l: nat, round_up: bool) -> Result<
    nat,
    UniswapV3MathError,
> {
    let lo = if pa <= pb { pa } else { pb };
    let hi = if pa <= pb { pb } else { pa };
    if lo == 0 {
        Err(UniswapV3MathError::SqrtPriceIsZero)
    } else {
        let n1 = l * pow2(96);
        let n2 = (hi - lo) as nat;
        if round_up {
            match mul_div_up_spec(n1, n2, hi) {
                Err(e) => Err(e),
                Ok(v) => Ok(div_up(v, lo)),
            }
        } else {
            match mul_div_spec(n1, n2, hi) {
                Err(e) => Err(e),
                Ok(v) => Ok(v / lo),
            }
        }
    }
}

/// The token1 amount between two square-root prices, unsigned form.
pub open spec fn amount_1_delta_spec(pa: nat, pb: nat, l: nat, round_up: bool) -> Result<
    nat,
    UniswapV3MathError,
> {
    let lo = if pa <= pb { pa } else { pb };
    let hi = if pa <= pb { pb } else { pa };
    if round_up {
        mul_div_up_spec(l, (hi - lo) as nat, pow2(96))
    } else {
        mul_div_spec(l, (hi - lo) as nat, pow2(96))
    }
}

/// `L * (1/pa - 1/pb)` in Q64.96, the token0 amount a price move covers.
pub fn _get_amount_0_delta(
    sqrt_ratio_a_x_96: U256,
    sqrt_ratio_b_x_96: U256,
    liquidity: u128,
    round_up: bool,
) -> (r: Result<U256, UniswapV3MathError>)
    ensures
        res_v(r) == amount_0_delta_spec(
            sqrt_ratio_a_x_96.v(),
            sqrt_ratio_b_x_96.v(),
            liquidity as nat,
            round_up,
        ),
{
    let (lo, hi) = if sqrt_ratio_a_x_96.gt(&sqrt_ratio_b_x_96) {
        (sqrt_ratio_b_x_96, sqrt_ratio_a_x_96)
    } else {
        (sqrt_ratio_a_x_96, sqrt_ratio_b_x_96)
    };
    let numerator_1 = U256 { lo: liquidity, hi: 0 }.shl(96);
    let numerator_2 = hi.overflowing_sub(lo).0;
    proof {
        lemma_pow2_values();
        assert(liquidity as nat * pow2(96) < p256()) by (nonlinear_arith)
            requires
                liquidity < p128(),
                pow2(96) == 0x1000000000000000000000000,
                p128() == 0x100000000000000000000000000000000,
                p256() == 0x10000000000000000000000000000000000000000000000000000000000000000,
        ;
        lemma_small_mod(liquidity as nat * pow2(96), p256());
    }
    if lo.is_zero() {
        return Err(UniswapV3MathError::SqrtPriceIsZero);
    }
    if round_up {
        match mul_div_rounding_up(numerator_1, numerator_2, hi) {
            Err(e) => Err(e),
            Ok(v) => Ok(div_rounding_up(v, lo)),
        }
    } else {
        match mul_div(numerator_1, numerator_2, hi) {
            Err(e) => Err(e),
            Ok(v) => {
                let (q, _rm) = v.div_rem(lo);
                Ok(q)
            },
        }
    }
}

/// `L * (pb - pa)` in Q64.96, the token1 amount a price move covers.
pub fn _get_amount_1_delta(
    sqrt_ratio_a_x_96: U256,
    sqrt_ratio_b_x_96: U256,
    liquidity: u128,
    round_up: bool,
) -> (r: Result<U256, UniswapV3MathError>)
    ensures
        res_v(r) == amount_1_delta_spec(
            sqrt_ratio_a_x_96.v(),
            sqrt_ratio_b_x_96.v(),
            liquidity as nat,
            round_up,
        ),
{
    let (lo, hi) = if sqrt_ratio_a_x_96.gt(&sqrt_ratio_b_x_96) {
        (sqrt_ratio_b_x_96, sqrt_ratio_a_x_96)
    } else {
        (sqrt_ratio_a_x_96, sqrt_ratio_b_x_96)
    };
    let lq = U256 { lo: liquidity, hi: 0 };
    let diff = hi.overflowing_sub(lo).0;
    let q96v = q96();
    if round_up {
        mul_div_rounding_up(lq, diff, q96v)
    } else {
        mul_div(lq, diff, q96v)
    }
}

/// The token0 delta signed by the liquidity: negative liquidity rounds down
/// and negates, non-negative rounds up.
pub fn get_amount_0_delta(
    sqrt_ratio_a_x_96: U256,
    sqrt_ratio_b_x_96: U256,
    liquidity: i128,
) -> (r: Result<I256, UniswapV3MathError>)
    ensures
        match r {
            Ok(s) => {
                let sp = amount_0_delta_spec(
                    sqrt_ratio_a_x_96.v(),
                    sqrt_ratio_b_x_96.v(),
                    (if liquidity < 0 { -liquidity } else { liquidity as int }) as nat,
                    liquidity >= 0,
                );
                match sp {
                    Ok(v) => s.rep.v() == (if liquidity >= 0 {
                        v as int
                    } else if v == 0 {
                        0int
                    } else {
                        p256() - v
                    }),
                    Err(_) => false,
                }
            },
            Err(e) => amount_0_delta_spec(
                sqrt_ratio_a_x_96.v(),
                sqrt_ratio_b_x_96.v(),
                (if liquidity < 0 { -liquidity } else { liquidity as int }) as nat,
                liquidity >= 0,
            ) == Err::<nat, UniswapV3MathError>(e),
        },
{
    if liquidity < 0 {
        let mag: u128 = if liquidity == i128::MIN {
            0x80000000000000000000000000000000
        } else {
            (-liquidity) as u128
        };
        match _get_amount_0_delta(sqrt_ratio_a_x_96, sqrt_ratio_b_x_96, mag, false) {
            Err(e) => Err(e),
            Ok(v) => Ok(crate::utils::u256_to_i256(v).neg()),
        }
    } else {
        match _get_amount_0_delta(sqrt_ratio_a_x_96, sqrt_ratio_b_x_96, liquidity as u128, true) {
            Err(e) => Err(e),
            Ok(v) => Ok(crate::utils::u256_to_i256(v)),
        }
    }
}

/// The token1 delta signed by the liquidity, as `get_amount_0_delta`.
pub fn get_amount_1_delta(
    sqrt_ratio_a_x_96: U256,
    sqrt_ratio_b_x_96: U256,
    liquidity: i128,
) -> (r: Result<I256, UniswapV3MathError>)
    ensures
        match r {
            Ok(s) => {
                let sp = amount_1_delta_spec(
                    sqrt_ratio_a_x_96.v(),
                    sqrt_ratio_b_x_96.v(),
                    (if liquidity < 0 { -liquidity } else { liquidity as int }) as nat,
                    liquidity >= 0,
                );
                match sp {
                    Ok(v) => s.rep.v() == (if liquidity >= 0 {
                        v as int
                    } else if v == 0 {
                        0int
                    } else {
                        p256() - v
                    }),
                    Err(_) => false,
                }
            },
            Err(e) => amount_1_delta_spec(
                sqrt_ratio_a_x_96.v(),
                sqrt_ratio_b_x_96.v(),
                (if liquidity < 0 { -liquidity } else { liquidity as int }) as nat,
                liquidity >= 0,
            ) == Err::<nat, UniswapV3MathError>(e),
        },
{
    if liquidity < 0 {
        let mag: u128 = if liquidity == i128::MIN {
            0x80000000000000000000000000000000
        } else {
            (-liquidity) as u128
        };
        match _get_amount_1_delta(sqrt_ratio_a_x_96, sqrt_ratio_b_x_96, mag, false) {
            Err(e) => Err(e),
            Ok(v) => Ok(crate::utils::u256_to_i256(v).neg()),
        }
    } else {
        match _get_amount_1_delta(sqrt_ratio_a_x_96, sqrt_ratio_b_x_96, liquidity as u128, true) {
            Err(e) => Err(e),
            Ok(v) => Ok(crate::utils::u256_to_i256(v)),
        }
    }
}


/// Law: for a fixed price and liquidity, the token1-input next price is
/// monotone in the input amount and never below the price, wherever both
/// computations succeed.
pub proof fn lemma_input_price_monotone_token1(p: nat, l: nat, a1: nat, a2: nat, r1: nat, r2: nat)
    requires
        a1 <= a2,
        next_sqrt_price_from_input_spec(p, l, a1, false) == Ok::<nat, UniswapV3MathError>(r1),
        next_sqrt_price_from_input_spec(p, l, a2, false) == Ok::<nat, UniswapV3MathError>(r2),
    ensures
        p <= r1 <= r2,
{
    lemma_pow2_values();
    lemma_pow2_pos(96);
    let q96n = pow2(96);
    let q1 = a1 * q96n / l;
    let q2 = a2 * q96n / l;
    assert(r1 == p + q1 && r2 == p + q2) by {
        if a1 > pow2(160) - 1 {
            assert(mul_div_spec(a1, q96n, l) == Ok::<nat, UniswapV3MathError>(q1));
        }
        if a2 > pow2(160) - 1 {
            assert(mul_div_spec(a2, q96n, l) == Ok::<nat, UniswapV3MathError>(q2));
        }
    }
    assert(q1 <= q2) by {
        lemma_mul_inequality(a1 as int, a2 as int, q96n as int);
        lemma_div_is_ordered((a1 * q96n) as int, (a2 * q96n) as int, l as int);
    }
}

/// Law: for a fixed price and liquidity, the token0-input next price is
/// antitone in the input amount and stays within `[1, p]`, over the whole
/// domain.
pub proof fn lemma_input_price_monotone_token0(p: nat, l: nat, a1: nat, a2: nat, r1: nat, r2: nat)
    requires
        a1 <= a2,
        p > 0,
        l > 0,
        l < p128(),
        p < p256(),
        next_sqrt_price_from_input_spec(p, l, a1, true) == Ok::<nat, UniswapV3MathError>(r1),
        next_sqrt_price_from_input_spec(p, l, a2, true) == Ok::<nat, UniswapV3MathError>(r2),
    ensures
        1 <= r2 <= r1 <= p,
{
    lemma_pow2_values();
    lemma_pow2_pos(96);
    let n1 = l * pow2(96);
    let fl = n1 / p;
    assert(n1 >= 1) by {
        lemma_mul_strictly_positive(l as int, pow2(96) as int);
    }
    lemma_fundamental_div_mod(n1 as int, p as int);
    lemma_mod_division_less_than_divisor(n1 as int, p as int);
    lemma_div_pos_is_pos(n1 as int, p as int);
    if a2 == 0 {
        // both runs return the price unchanged
        assert(r1 == p && r2 == p);
    } else {
        let happy2 = a2 * p < p256() && n1 + a2 * p < p256();
        if happy2 {
            lemma_amount_0_up_is_div_up(p, l, a2);
        } else {
            lemma_amount_0_up_fallback_is_div_up(p, l, a2);
        }
        if a1 == 0 {
            assert(r1 == p);
        } else {
            let happy1 = a1 * p < p256() && n1 + a1 * p < p256();
            if happy1 {
                lemma_amount_0_up_is_div_up(p, l, a1);
                let den1 = n1 + a1 * p;
                assert(den1 * r1 >= n1 * p) by {
                    crate::swap_math::lemma_div_up_lower(n1 * p, den1);
                    lemma_mul_is_commutative(den1 as int, r1 as int);
                }
                if happy2 {
                    // both exact: a larger denominator cannot raise the ceiling
                    let den2 = n1 + a2 * p;
                    assert(den1 <= den2) by {
                        lemma_mul_inequality(a1 as int, a2 as int, p as int);
                    }
                    assert(n1 * p <= r1 * den2) by {
                        assert(den1 * r1 <= den2 * r1) by {
                            lemma_mul_inequality(den1 as int, den2 as int, r1 as int);
                        }
                        lemma_mul_is_commutative(den2 as int, r1 as int);
                    }
                    lemma_mul_nonnegative(n1 as int, p as int);
                    crate::swap_math::lemma_div_up_le(n1 * p, den2, r1);
                } else {
                    // the overflow boundary forces a2 to exceed a1, and that
                    // one extra unit repays the coarser path's floor loss
                    assert(n1 + a2 * p >= p256()) by {
                        if a2 * p >= p256() {
                        }
                    }
                    assert(a1 + 1 <= a2) by {
                        if a2 <= a1 {
                            assert(a2 * p <= a1 * p) by {
                                lemma_mul_inequality(a2 as int, a1 as int, p as int);
                            }
                        }
                    }
                    assert(r1 * ((fl + a2) * p) >= n1 * p + r1) by (nonlinear_arith)
                        requires
                            den1 * r1 >= n1 * p,
                            den1 == n1 + a1 * p,
                            fl * p >= n1 - p + 1,
                            a2 >= a1 + 1,
                            r1 >= 1,
                            p >= 1,
                            fl >= 0,
                            a1 >= 0,
                            n1 >= 1,
                    ;
                    assert(n1 <= r1 * (fl + a2)) by (nonlinear_arith)
                        requires
                            r1 * ((fl + a2) * p) >= n1 * p + r1,
                            r1 >= 1,
                            p >= 1,
                            fl + a2 >= 0,
                            n1 >= 0,
                    ;
                    crate::swap_math::lemma_div_up_le(n1, fl + a2, r1);
                }
            } else {
                lemma_amount_0_up_fallback_is_div_up(p, l, a1);
                if happy2 {
                    // impossible: overflowing at the smaller amount means
                    // overflowing at the larger one
                    assert(n1 + a1 * p >= p256()) by {
                        if a1 * p >= p256() {
                        }
                    }
                    assert(a1 * p <= a2 * p) by {
                        lemma_mul_inequality(a1 as int, a2 as int, p as int);
                    }
                    assert(false);
                } else {
                    // both coarse: a larger denominator cannot raise the ceiling
                    let den1 = fl + a1;
                    let den2 = fl + a2;
                    assert(den1 * r1 >= n1) by {
                        crate::swap_math::lemma_div_up_lower(n1, den1);
                        lemma_mul_is_commutative(den1 as int, r1 as int);
                    }
                    assert(n1 <= r1 * den2) by {
                        assert(den1 * r1 <= den2 * r1) by {
                            lemma_mul_inequality(den1 as int, den2 as int, r1 as int);
                        }
                        lemma_mul_is_commutative(den2 as int, r1 as int);
                    }
                    crate::swap_math::lemma_div_up_le(n1, den2, r1);
                }
            }
        }
    }
}

/// On the full-precision path the token0 next price is exactly
/// `ceil(n1 * p / (n1 + amount * p))`, and it never exceeds `p`.
proof fn lemma_amount_0_up_is_div_up(p: nat, l: nat, amount: nat)
    requires
        p > 0,
        l > 0,
        amount > 0,
        amount * p < p256(),
        l * pow2(96) + amount * p < p256(),
    ensures
        next_sqrt_price_from_amount_0_spec(p, l, amount, true) == Ok::<nat, UniswapV3MathError>(
            crate::unsafe_math::div_up(l * pow2(96) * p, l * pow2(96) + amount * p),
        ),
        1 <= crate::unsafe_math::div_up(l * pow2(96) * p, l * pow2(96) + amount * p) <= p,
{
    lemma_pow2_values();
    lemma_pow2_pos(96);
    let n1 = l * pow2(96);
    let ap = amount * p;
    let den = n1 + ap;
    assert(n1 >= 1) by {
        lemma_mul_strictly_positive(l as int, pow2(96) as int);
    }
    assert(ap >= 1) by {
        lemma_mul_strictly_positive(amount as int, p as int);
    }
    assert(p <= ap) by {
        lemma_mul_inequality(1, amount as int, p as int);
        lemma_mul_basics_4(p as int);
    }
    assert(p < p256());
    lemma_mul_nonnegative(n1 as int, p as int);
    assert(n1 * p < den * p256()) by (nonlinear_arith)
        requires
            n1 < p256(),
            p < p256(),
            den >= n1 + 1,
            n1 >= 1,
            p >= 1,
    ;
    assert(n1 * p / p256() < den) by {
        lemma_multiply_divide_lt((n1 * p) as int, p256() as int, den as int);
        lemma_mul_is_commutative(den as int, p256() as int);
    }
    assert(n1 * p / den < p) by {
        assert(n1 * p < den * p) by (nonlinear_arith)
            requires
                den >= n1 + 1,
                p >= 1,
                n1 >= 1,
                ap >= 1,
                den == n1 + ap,
        ;
        lemma_multiply_divide_lt((n1 * p) as int, den as int, p as int);
    }
    assert(mul_div_up_spec(n1, p, den) == Ok::<nat, UniswapV3MathError>(
        crate::unsafe_math::div_up(n1 * p, den),
    )) by {
        lemma_fundamental_div_mod((n1 * p) as int, den as int);
    }
    assert(n1 * p <= p * den) by (nonlinear_arith)
        requires
            den == n1 + ap,
            ap >= 0,
            p >= 0,
            n1 >= 0,
    ;
    lemma_mul_is_commutative(p as int, den as int);
    crate::swap_math::lemma_div_up_le(n1 * p, den, p);
    assert(crate::unsafe_math::div_up(n1 * p, den) >= 1) by {
        crate::swap_math::lemma_div_up_lower(n1 * p, den);
        lemma_mul_strictly_positive(n1 as int, p as int);
        if crate::unsafe_math::div_up(n1 * p, den) == 0 {
            assert(den * 0 == 0) by (nonlinear_arith);
        }
    }
}


/// On the coarser path the token0 next price is exactly
/// `ceil(n1 / (floor(n1/p) + amount))`, and it stays within `[1, p]`.
proof fn lemma_amount_0_up_fallback_is_div_up(p: nat, l: nat, amount: nat)
    requires
        p > 0,
        l > 0,
        l < p128(),
        p < p256(),
        amount > 0,
        amount * p >= p256() || l * pow2(96) + amount * p >= p256(),
    ensures
        next_sqrt_price_from_amount_0_spec(p, l, amount, true) == Ok::<nat, UniswapV3MathError>(
            crate::unsafe_math::div_up(l * pow2(96), l * pow2(96) / p + amount),
        ),
        1 <= crate::unsafe_math::div_up(l * pow2(96), l * pow2(96) / p + amount) <= p,
{
    lemma_pow2_values();
    lemma_pow2_pos(96);
    let n1 = l * pow2(96);
    let den = n1 / p + amount;
    assert(n1 >= 1) by {
        lemma_mul_strictly_positive(l as int, pow2(96) as int);
    }
    lemma_fundamental_div_mod(n1 as int, p as int);
    lemma_mod_division_less_than_divisor(n1 as int, p as int);
    lemma_div_pos_is_pos(n1 as int, p as int);
    assert(crate::unsafe_math::div_up(n1, den) <= p) by {
        assert(n1 <= p * den) by (nonlinear_arith)
            requires
                n1 == p * (n1 / p) + n1 % p,
                n1 % p < p,
                amount >= 1,
                den == n1 / p + amount,
                p >= 1,
        ;
        crate::swap_math::lemma_div_up_le(n1, den, p);
    }
    assert(crate::unsafe_math::div_up(n1, den) >= 1) by {
        crate::swap_math::lemma_div_up_lower(n1, den);
        if crate::unsafe_math::div_up(n1, den) == 0 {
            assert(den * 0 == 0) by (nonlinear_arith);
        }
    }
}

} // verus!
