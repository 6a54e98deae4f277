use vstd::prelude::*;
use vstd::arithmetic::power2::*;
use vstd::arithmetic::div_mod::*;
use vstd::arithmetic::mul::*;
use crate::error::UniswapV3MathError;
use crate::u256::{U256, p128, p256};
use crate::i256::{I256, p255};
use crate::full_math::{mul_div, mul_div_rounding_up, mul_div_spec, mul_div_up_spec};
use crate::unsafe_math::div_up;
use crate::sqrt_price_math::{
    _get_amount_0_delta, _get_amount_1_delta, amount_0_delta_spec, amount_1_delta_spec,
    get_next_sqrt_price_from_input, get_next_sqrt_price_from_output, lemma_pow2_values,
    next_sqrt_price_from_amount_0_spec, next_sqrt_price_from_amount_1_spec,
    next_sqrt_price_from_input_spec, next_sqrt_price_from_output_spec,
};

verus! {

/// `ceil(a/b)` never exceeds `x` once `a <= x * b`.
pub proof fn lemma_div_up_le(a: nat, b: nat, x: nat)
    requires
        b > 0,
        a <= x * b,
    ensures
        div_up(a, b) <= x,
{
    lemma_fundamental_div_mod(a as int, b as int);
    lemma_mul_is_commutative(x as int, b as int);
    if a % b == 0 {
        lemma_div_is_ordered(a as int, (x * b) as int, b as int);
        lemma_div_multiples_vanish(x as int, b as int);
    } else {
        assert((x * b) % b == 0) by {
            lemma_mod_multiples_basic(x as int, b as int);
        }
        assert(a != x * b);
        lemma_multiply_divide_lt(a as int, b as int, x as int);
    }
}

/// `ceil(a/b) * b` covers `a`.
pub proof fn lemma_div_up_lower(a: nat, b: nat)
    requires
        b > 0,
    ensures
        b * div_up(a, b) >= a,
{
    lemma_fundamental_div_mod(a as int, b as int);
    lemma_mod_division_less_than_divisor(a as int, b as int);
    if a % b == 0 {
    } else {
        assert(b * (a / b + 1) == b * (a / b) + b) by {
            lemma_mul_is_distributive_add(b as int, (a / b) as int, 1);
        }
    }
}

/// `floor(a*c/d) <= a` whenever `c <= d`.
pub proof fn lemma_mul_div_le_self(a: nat, c: nat, d: nat)
    requires
        d > 0,
        c <= d,
    ensures
        a * c / d <= a,
{
    lemma_mul_left_inequality_gen(a, c, d);
    lemma_div_is_ordered((a * c) as int, (a * d) as int, d as int);
    lemma_div_multiples_vanish(a as int, d as int);
    lemma_mul_is_commutative(a as int, d as int);
}

proof fn lemma_mul_left_inequality_gen(a: nat, c: nat, d: nat)
    requires
        c <= d,
    ensures
        a * c <= a * d,
{
    lemma_mul_inequality(c as int, d as int, a as int);
    lemma_mul_is_commutative(c as int, a as int);
    lemma_mul_is_commutative(d as int, a as int);
}

/// The price reached by feeding `x` of token0 swallows at most `x` when the
/// input amount is recomputed against it with upward rounding.
pub proof fn lemma_amount_0_roundtrip(p: nat, l: nat, x: nat, np: nat)
    requires
        p > 0,
        p < p256(),
        l > 0,
        l < p128(),
        x > 0,
        x <= p255(),
        next_sqrt_price_from_amount_0_spec(p, l, x, true) == Ok::<nat, UniswapV3MathError>(np),
    ensures
        np > 0,
        np <= p,
        amount_0_delta_spec(np, p, l, true) matches Ok(ain) && ain <= x,
{
    lemma_pow2_values();
    let n1 = l * pow2(96);
    let ap = x * p;
    lemma_pow2_pos(96);
    assert(n1 >= pow2(96)) by {
        lemma_mul_inequality(1, l as int, pow2(96) as int);
    }
    lemma_mul_strictly_positive(x as int, p as int);
    assert(n1 < pow2(224)) by (nonlinear_arith)
        requires
            n1 == l * pow2(96),
            l < p128(),
            pow2(96) == 0x1000000000000000000000000,
            p128() == 0x100000000000000000000000000000000,
            pow2(224) == 0x100000000000000000000000000000000000000000000000000000000,
    ;
    assert(pow2(224) < p256());
    let happy = ap < p256() && n1 + ap < p256();
    if happy {
        // np == ceil(n1 * p / (n1 + ap)): the quotient stays strictly below p
        assert(n1 * p < (n1 + ap) * p) by (nonlinear_arith)
            requires
                ap >= 1,
                p >= 1,
                n1 >= 1,
        ;
        lemma_mul_nonnegative(n1 as int, p as int);
        assert(n1 * p / p256() < n1 + ap) by {
            assert(n1 * p < (n1 + ap) * p256()) by (nonlinear_arith)
                requires
                    n1 * p < (n1 + ap) * p,
                    p < p256(),
                    n1 + ap >= 1,
            ;
            lemma_multiply_divide_lt((n1 * p) as int, p256() as int, (n1 + ap) as int);
            lemma_mul_is_commutative((n1 + ap) as int, p256() as int);
        }
        assert(n1 * p / (n1 + ap) < p) by {
            lemma_multiply_divide_lt((n1 * p) as int, (n1 + ap) as int, p as int);
        }
        assert(np == div_up(n1 * p, n1 + ap));
        assert(np <= p) by {
            assert(n1 * p <= p * (n1 + ap)) by (nonlinear_arith);
            lemma_mul_is_commutative(p as int, (n1 + ap) as int);
            lemma_div_up_le(n1 * p, n1 + ap, p);
        }
        assert(np >= 1) by {
            lemma_div_up_lower(n1 * p, n1 + ap);
            lemma_mul_strictly_positive(n1 as int, p as int);
            if np == 0 {
                assert((n1 + ap) * 0 == 0) by (nonlinear_arith);
            }
        }
        assert((n1 + ap) * np >= n1 * p) by {
            lemma_div_up_lower(n1 * p, n1 + ap);
        }
        assert(n1 * p - n1 * np <= x * (p * np)) by (nonlinear_arith)
            requires
                (n1 + ap) * np >= n1 * p,
                ap == x * p,
        ;
        lemma_amount_0_delta_le(p, l, x, np);
    } else {
        let s = n1 / p + x;
        assert(np == div_up(n1, s));
        lemma_fundamental_div_mod(n1 as int, p as int);
        lemma_mod_division_less_than_divisor(n1 as int, p as int);
        lemma_div_pos_is_pos(n1 as int, p as int);
        assert(np <= p) by {
            assert(n1 <= p * s) by (nonlinear_arith)
                requires
                    n1 == p * (n1 / p) + n1 % p,
                    n1 % p < p,
                    x >= 1,
                    s == n1 / p + x,
                    p >= 1,
            ;
            lemma_div_up_le(n1, s, p);
        }
        assert(np >= 1) by {
            lemma_div_up_lower(n1, s);
            if np == 0 {
                assert(s * 0 == 0) by (nonlinear_arith);
            }
        }
        assert(s * np >= n1) by {
            lemma_div_up_lower(n1, s);
        }
        assert(n1 * p - n1 * np <= x * (p * np)) by (nonlinear_arith)
            requires
                s * np >= n1,
                s == n1 / p + x,
                p * (n1 / p) <= n1,
                n1 % p >= 0,
                n1 == p * (n1 / p) + n1 % p,
                p >= 1,
                np >= 1,
                n1 >= 1,
        ;
        lemma_amount_0_delta_le(p, l, x, np);
    }
}

/// From the covering inequality, the recomputed token0 input is at most `x`.
proof fn lemma_amount_0_delta_le(p: nat, l: nat, x: nat, np: nat)
    requires
        0 < np <= p,
        p < p256(),
        l < p128(),
        l * pow2(96) * p - l * pow2(96) * np <= x * (p * np),
        pow2(96) == 0x1000000000000000000000000,
    ensures
        amount_0_delta_spec(np, p, l, true) matches Ok(ain) && ain <= x,
{
    lemma_pow2_values();
    let n1 = l * pow2(96);
    let n2 = (p - np) as nat;
    assert(n1 < pow2(224)) by (nonlinear_arith)
        requires
            n1 == l * pow2(96),
            l < p128(),
            pow2(96) == 0x1000000000000000000000000,
            p128() == 0x100000000000000000000000000000000,
            pow2(224) == 0x100000000000000000000000000000000000000000000000000000000,
    ;
    assert(n1 * n2 <= n1 * p) by {
        lemma_mul_left_inequality_gen(n1, n2, p);
    }
    lemma_mul_nonnegative(n1 as int, n2 as int);
    // the inner ceiling division succeeds and yields at most n1
    assert(n1 * n2 / p256() < p) by {
        assert(n1 * n2 < p * p256()) by (nonlinear_arith)
            requires
                n1 * n2 <= n1 * p,
                n1 < pow2(224),
                pow2(224) < p256(),
                p >= 1,
        ;
        lemma_multiply_divide_lt((n1 * n2) as int, p256() as int, p as int);
        lemma_mul_is_commutative(p as int, p256() as int);
    }
    let v = div_up(n1 * n2, p);
    assert(v <= n1) by {
        lemma_mul_is_commutative(n1 as int, p as int);
        lemma_div_up_le(n1 * n2, p, n1);
    }
    assert(mul_div_up_spec(n1, n2, p) == Ok::<nat, UniswapV3MathError>(v)) by {
        lemma_fundamental_div_mod((n1 * n2) as int, p as int);
        assert(n1 < p256() - 1);
    }
    assert(n1 * n2 == n1 * p - n1 * np) by {
        lemma_mul_is_distributive_sub(n1 as int, p as int, np as int);
    }
    assert(n1 * n2 <= x * (p * np)) by (nonlinear_arith)
        requires
            l * pow2(96) * p - l * pow2(96) * np <= x * (p * np),
            n1 == l * pow2(96),
            n2 == p - np,
            n1 * n2 == n1 * p - n1 * np,
    ;
    assert(v <= x * np) by {
        assert(n1 * n2 <= (x * np) * p) by (nonlinear_arith)
            requires n1 * n2 <= x * (p * np);
        lemma_div_up_le(n1 * n2, p, x * np);
    }
    assert(div_up(v, np) <= x) by {
        lemma_mul_is_commutative(x as int, np as int);
        lemma_div_up_le(v, np, x);
    }
}

/// The price reached by feeding `x` of token1 yields a recomputed input of
/// at most `x` when rounded up.
pub proof fn lemma_amount_1_roundtrip(p: nat, l: nat, x: nat, np: nat)
    requires
        l > 0,
        l < p128(),
        p < p256(),
        x <= p255(),
        next_sqrt_price_from_amount_1_spec(p, l, x, true) == Ok::<nat, UniswapV3MathError>(np),
    ensures
        np >= p,
        amount_1_delta_spec(p, np, l, true) matches Ok(ain) && ain <= x,
{
    lemma_pow2_values();
    let q96n = pow2(96);
    lemma_pow2_pos(96);
    lemma_mul_nonnegative(x as int, q96n as int);
    // both entry branches compute the same floored quotient
    let q = x * q96n / l;
    assert(x * q96n <= p255() * pow2(96)) by {
        lemma_mul_inequality(x as int, p255() as int, q96n as int);
    }
    assert(p255() * pow2(96) < pow2(96) * p256()) by (nonlinear_arith)
        requires
            p255() == 0x8000000000000000000000000000000000000000000000000000000000000000,
            p256() == 0x10000000000000000000000000000000000000000000000000000000000000000,
            pow2(96) == 0x1000000000000000000000000,
    ;
    assert(np == p + q) by {
        if x <= pow2(160) - 1 {
        } else {
            // the mul_div path returns the same quotient and cannot overflow
            assert(x * q96n / p256() < q96n) by {
                lemma_multiply_divide_lt((x * q96n) as int, p256() as int, q96n as int);
                lemma_mul_is_commutative(q96n as int, p256() as int);
            }
        }
    }
    lemma_fundamental_div_mod((x * q96n) as int, l as int);
    assert(l * q <= x * q96n) by {
        lemma_mul_is_commutative(l as int, q as int);
    }
    let v = div_up(l * q, q96n);
    assert(v <= x) by {
        lemma_mul_is_commutative(x as int, q96n as int);
        lemma_div_up_le(l * q, q96n, x);
    }
    lemma_mul_nonnegative(l as int, q as int);
    assert(mul_div_up_spec(l, (np - p) as nat, q96n) == Ok::<nat, UniswapV3MathError>(v)) by {
        assert((np - p) as nat == q);
        // no 256-bit overflow: l*q <= x * 2^96 < 2^96 * 2^256
        assert(l * q / p256() < q96n) by {
            lemma_multiply_divide_lt((l * q) as int, p256() as int, q96n as int);
            lemma_mul_is_commutative(q96n as int, p256() as int);
        }
        lemma_fundamental_div_mod((l * q) as int, q96n as int);
        assert(v < p256() - 1);
    }
}


/// The exact result of one swap step: next price, amount in, amount out and
/// fee, phase by phase as the pool contract computes them.
#[verifier::opaque]
pub open spec fn compute_swap_step_spec(p: nat, target: nat, l: nat, rem: int, fee_pips: nat)
    -> Result<(nat, nat, nat, nat), UniswapV3MathError>
    recommends
        fee_pips <= 1000000,
{
    let zfo = p >= target;
    let exact_in = rem >= 0;
    let rem_abs: nat = (if rem >= 0 { rem } else { -rem }) as nat;
    let step1: Result<(nat, nat, nat), UniswapV3MathError> = if exact_in {
        let rlf = rem_abs * ((1000000 - fee_pips) as nat) / 1000000;
        let ain_r = if zfo {
            amount_0_delta_spec(target, p, l, true)
        } else {
            amount_1_delta_spec(p, target, l, true)
        };
        match ain_r {
            Err(e) => Err(e),
            Ok(ain) => if rlf >= ain {
                Ok((target, ain, 0nat))
            } else {
                match next_sqrt_price_from_input_spec(p, l, rlf, zfo) {
                    Err(e) => Err(e),
                    Ok(nx) => Ok((nx, ain, 0nat)),
                }
            },
        }
    } else {
        let aout_r = if zfo {
            amount_1_delta_spec(target, p, l, false)
        } else {
            amount_0_delta_spec(p, target, l, false)
        };
        match aout_r {
            Err(e) => Err(e),
            Ok(aout) => if rem_abs >= aout {
                Ok((target, 0nat, aout))
            } else {
                match next_sqrt_price_from_output_spec(p, l, rem_abs, zfo) {
                    Err(e) => Err(e),
                    Ok(nx) => Ok((nx, 0nat, aout)),
                }
            },
        }
    };
    match step1 {
        Err(e) => Err(e),
        Ok(s1) => {
            let next = s1.0;
            let maxed = target == next;
            let ain_r: Result<nat, UniswapV3MathError> = if !maxed || !exact_in {
                if zfo {
                    amount_0_delta_spec(next, p, l, true)
                } else {
                    amount_1_delta_spec(p, next, l, true)
                }
            } else {
                Ok(s1.1)
            };
            let aout_r: Result<nat, UniswapV3MathError> = if !maxed || exact_in {
                if zfo {
                    amount_1_delta_spec(next, p, l, false)
                } else {
                    amount_0_delta_spec(p, next, l, false)
                }
            } else {
                Ok(s1.2)
            };
            match ain_r {
                Err(e) => Err(e),
                Ok(ain) => match aout_r {
                    Err(e) => Err(e),
                    Ok(aout1) => {
                        let aout = if !exact_in && aout1 > rem_abs {
                            rem_abs
                        } else {
                            aout1
                        };
                        if exact_in && next != target {
                            Ok((next, ain, aout, (rem_abs - ain) as nat))
                        } else {
                            match mul_div_up_spec(ain, fee_pips, (1000000 - fee_pips) as nat) {
                                Err(e) => Err(e),
                                Ok(fee) => Ok((next, ain, aout, fee)),
                            }
                        }
                    },
                },
            }
        },
    }
}

/// Computes one step of a swap within a single tick range: how far the price
/// moves toward `sqrt_ratio_target_x_96`, the amounts exchanged and the fee.
/// When the step consumes the whole remaining exact-in amount, the fee is
/// precisely the remainder over the recomputed input, so input plus fee
/// equals the amount that was offered.
#[verifier::rlimit(100)]
pub fn compute_swap_step(
    sqrt_ratio_current_x_96: U256,
    sqrt_ratio_target_x_96: U256,
    liquidity: u128,
    amount_remaining: I256,
    fee_pips: u32,
) -> (r: Result<(U256, U256, U256, U256), UniswapV3MathError>)
    requires
        fee_pips <= 1000000,
    ensures
        match r {
            Ok(t) => compute_swap_step_spec(
                sqrt_ratio_current_x_96.v(),
                sqrt_ratio_target_x_96.v(),
                liquidity as nat,
                amount_remaining.iv(),
                fee_pips as nat,
            ) == Ok::<(nat, nat, nat, nat), UniswapV3MathError>(
                (t.0.v(), t.1.v(), t.2.v(), t.3.v()),
            ),
            Err(e) => compute_swap_step_spec(
                sqrt_ratio_current_x_96.v(),
                sqrt_ratio_target_x_96.v(),
                liquidity as nat,
                amount_remaining.iv(),
                fee_pips as nat,
            ) == Err::<(nat, nat, nat, nat), UniswapV3MathError>(e),
        },
{
    proof {
        reveal(compute_swap_step_spec);
    }
    let p = sqrt_ratio_current_x_96;
    let target = sqrt_ratio_target_x_96;
    let zero_for_one = p.ge(&target);
    let exact_in = !amount_remaining.is_negative();
    let rem_abs = amount_remaining.abs_u256();
    let ghost pv: nat = p.v();
    let ghost tv: nat = target.v();
    let ghost lv: nat = liquidity as nat;
    let ghost remv: nat = rem_abs.v();
    proof {
        amount_remaining.lemma_iv_range();
        p.lemma_v_bound();
        target.lemma_v_bound();
        lemma_pow2_values();
    }
    let sqrt_ratio_next_x_96: U256;
    let mut amount_in = U256 { lo: 0, hi: 0 };
    let mut amount_out = U256 { lo: 0, hi: 0 };
    if exact_in {
        let fee_factor = U256 { lo: (1000000 - fee_pips) as u128, hi: 0 };
        let amount_remaining_less_fee: U256;
        match mul_div(rem_abs, fee_factor, U256 { lo: 1000000, hi: 0 }) {
            Ok(v) => {
                amount_remaining_less_fee = v;
            },
            Err(e) => {
                proof {
                    rem_abs.lemma_v_bound();
                    assert(remv * ((1000000 - fee_pips) as nat) < 1000000 * p256())
                        by (nonlinear_arith)
                        requires
                            remv < p256(),
                            (1000000 - fee_pips) as nat <= 1000000,
                    ;
                    assert(remv * ((1000000 - fee_pips) as nat) / p256() < 1000000) by {
                        lemma_mul_nonnegative(remv as int, (1000000 - fee_pips) as int);
                        lemma_multiply_divide_lt(
                            (remv * ((1000000 - fee_pips) as nat)) as int,
                            p256() as int,
                            1000000,
                        );
                        lemma_mul_is_commutative(1000000, p256() as int);
                    }
                    assert(false);
                }
                return Err(e);
            },
        }
        let ghost rlf: nat = amount_remaining_less_fee.v();
        proof {
            assert(rlf == remv * ((1000000 - fee_pips) as nat) / 1000000);
        }
        let ain_to_target = if zero_for_one {
            _get_amount_0_delta(target, p, liquidity, true)
        } else {
            _get_amount_1_delta(p, target, liquidity, true)
        };
        match ain_to_target {
            Err(e) => {
                return Err(e);
            },
            Ok(ain) => {
                amount_in = ain;
                if amount_remaining_less_fee.ge(&ain) {
                    sqrt_ratio_next_x_96 = target;
                } else {
                    match get_next_sqrt_price_from_input(
                        p,
                        liquidity,
                        amount_remaining_less_fee,
                        zero_for_one,
                    ) {
                        Ok(nx) => {
                            sqrt_ratio_next_x_96 = nx;
                        },
                        Err(e) => {
                            return Err(e);
                        },
                    }
                }
            },
        }
    } else {
        let aout_to_target = if zero_for_one {
            _get_amount_1_delta(target, p, liquidity, false)
        } else {
            _get_amount_0_delta(p, target, liquidity, false)
        };
        match aout_to_target {
            Err(e) => {
                return Err(e);
            },
            Ok(aout) => {
                amount_out = aout;
                if rem_abs.ge(&aout) {
                    sqrt_ratio_next_x_96 = target;
                } else {
                    match get_next_sqrt_price_from_output(p, liquidity, rem_abs, zero_for_one) {
                        Ok(nx) => {
                            sqrt_ratio_next_x_96 = nx;
                        },
                        Err(e) => {
                            return Err(e);
                        },
                    }
                }
            },
        }
    }
    let maxed = target == sqrt_ratio_next_x_96;
    let next = sqrt_ratio_next_x_96;
    proof {
        U256::lemma_eq_v(target, next);
    }
    if zero_for_one {
        if !maxed || !exact_in {
            match _get_amount_0_delta(next, p, liquidity, true) {
                Ok(v) => {
                    amount_in = v;
                },
                Err(e) => {
                    return Err(e);
                },
            }
        }
        if !maxed || exact_in {
            match _get_amount_1_delta(next, p, liquidity, false) {
                Ok(v) => {
                    amount_out = v;
                },
                Err(e) => {
                    return Err(e);
                },
            }
        }
    } else {
        if !maxed || !exact_in {
            match _get_amount_1_delta(p, next, liquidity, true) {
                Ok(v) => {
                    amount_in = v;
                },
                Err(e) => {
                    return Err(e);
                },
            }
        }
        if !maxed || exact_in {
            match _get_amount_0_delta(p, next, liquidity, false) {
                Ok(v) => {
                    amount_out = v;
                },
                Err(e) => {
                    return Err(e);
                },
            }
        }
    }
    if !exact_in && amount_out.gt(&rem_abs) {
        amount_out = rem_abs;
    }
    if exact_in && !(next == target) {
        proof {
            U256::lemma_eq_v(next, target);
            // full consumption: the recomputed input never exceeds what the
            // fee deduction left, so the fee is the exact remainder
            rem_abs.lemma_v_bound();
            let rlf: nat = remv * ((1000000 - fee_pips) as nat) / 1000000;
            assert(rlf <= remv) by {
                lemma_mul_div_le_self(remv, (1000000 - fee_pips) as nat, 1000000);
            }
            assert(pv > 0 && lv > 0);
            if rlf == 0 {
                assert(next.v() == pv);
                assert(amount_in.v() == 0) by {
                    if zero_for_one {
                        assert(amount_0_delta_spec(pv, pv, lv, true) == Ok::<
                            nat,
                            UniswapV3MathError,
                        >(crate::unsafe_math::div_up(0, pv))) by {
                            assert(lv * pow2(96) * 0 == 0) by (nonlinear_arith);
                            assert(mul_div_up_spec(lv * pow2(96), 0, pv) == Ok::<
                                nat,
                                UniswapV3MathError,
                            >(0)) by {
                                assert(lv * pow2(96) * 0 == 0) by (nonlinear_arith);
                                lemma_div_of0(pv as int);
                                lemma_mod_self_0(pv as int);
                                assert(0nat * pow2(96) == 0) by (nonlinear_arith);
                            }
                            lemma_div_of0(pv as int);
                        }
                        assert(crate::unsafe_math::div_up(0, pv) == 0) by {
                            lemma_div_of0(pv as int);
                            lemma_small_mod(0, pv);
                        }
                    } else {
                        assert(amount_1_delta_spec(pv, pv, lv, true) == Ok::<
                            nat,
                            UniswapV3MathError,
                        >(0)) by {
                            assert(lv * 0 == 0) by (nonlinear_arith);
                            lemma_div_of0(pow2(96) as int);
                            lemma_mod_self_0(pow2(96) as int);
                            lemma_pow2_pos(96);
                            lemma_small_mod(0, pow2(96));
                        }
                    }
                }
            } else {
                if zero_for_one {
                    lemma_amount_0_roundtrip(pv, lv, rlf, next.v());
                } else {
                    lemma_amount_1_roundtrip(pv, lv, rlf, next.v());
                }
            }
            assert(amount_in.v() <= remv);
        }
        let fee_amount = rem_abs.overflowing_sub(amount_in).0;
        Ok((next, amount_in, amount_out, fee_amount))
    } else {
        match mul_div_rounding_up(
            amount_in,
            U256 { lo: fee_pips as u128, hi: 0 },
            U256 { lo: (1000000 - fee_pips) as u128, hi: 0 },
        ) {
            Ok(fee_amount) => Ok((next, amount_in, amount_out, fee_amount)),
            Err(e) => Err(e),
        }
    }
}


/// Law: when an exact-input step stops short of the target price, the whole
/// remaining amount is consumed: the recomputed input never exceeds it and
/// the fee is exactly the difference, so input plus fee equals the amount.
pub proof fn lemma_exact_in_consumes_all(
    p: nat,
    target: nat,
    l: nat,
    rem: int,
    fee_pips: nat,
    t: (nat, nat, nat, nat),
)
    requires
        p < p256(),
        target < p256(),
        l < p128(),
        0 <= rem < p255(),
        fee_pips <= 1000000,
        compute_swap_step_spec(p, target, l, rem, fee_pips) == Ok::<
            (nat, nat, nat, nat),
            UniswapV3MathError,
        >(t),
        t.0 != target,
    ensures
        t.1 <= rem,
        t.1 + t.3 == rem,
{
    reveal(compute_swap_step_spec);
    lemma_pow2_values();
    let zfo = p >= target;
    let rem_abs = rem as nat;
    let rlf = rem_abs * ((1000000 - fee_pips) as nat) / 1000000;
    assert(rlf <= rem_abs) by {
        lemma_mul_div_le_self(rem_abs, (1000000 - fee_pips) as nat, 1000000);
    }
    // the step cannot have reached the target, so the next price came from
    // feeding the fee-reduced remainder into the price formula
    let next = t.0;
    assert(next_sqrt_price_from_input_spec(p, l, rlf, zfo) == Ok::<nat, UniswapV3MathError>(next));
    assert(p > 0 && l > 0);
    if rlf == 0 {
        assert(next == p);
        assert(t.1 == 0) by {
            if zfo {
                assert(amount_0_delta_spec(p, p, l, true) == Ok::<nat, UniswapV3MathError>(
                    div_up(0, p),
                )) by {
                    assert(l * pow2(96) * 0 == 0) by (nonlinear_arith);
                    assert(mul_div_up_spec(l * pow2(96), 0, p) == Ok::<nat, UniswapV3MathError>(
                        0,
                    )) by {
                        assert(l * pow2(96) * 0 == 0) by (nonlinear_arith);
                        lemma_div_of0(p as int);
                        lemma_mod_self_0(p as int);
                        assert(0nat * pow2(96) == 0) by (nonlinear_arith);
                    }
                    lemma_div_of0(p as int);
                }
                assert(div_up(0, p) == 0) by {
                    lemma_div_of0(p as int);
                    lemma_small_mod(0, p);
                }
            } else {
                assert(amount_1_delta_spec(p, p, l, true) == Ok::<nat, UniswapV3MathError>(0))
                    by {
                    assert(l * 0 == 0) by (nonlinear_arith);
                    lemma_div_of0(pow2(96) as int);
                    lemma_mod_self_0(pow2(96) as int);
                    lemma_pow2_pos(96);
                    lemma_small_mod(0, pow2(96));
                }
            }
        }
    } else {
        if zfo {
            lemma_amount_0_roundtrip(p, l, rlf, next);
        } else {
            lemma_amount_1_roundtrip(p, l, rlf, next);
        }
    }
    assert(t.1 <= rlf || rlf == 0);
    assert(t.3 == (rem_abs - t.1) as nat);
}

} // verus!
