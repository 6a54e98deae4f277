use vstd::prelude::*;
use vstd::arithmetic::div_mod::*;
use vstd::arithmetic::mul::*;
use crate::error::UniswapV3MathError;
use crate::u256::{U256, p256, div_512_by_256};
use crate::utils::res_v;

verus! {

/// What `mul_div` returns: `floor(a*b/d)` over a 512-bit intermediate,
/// `DenominatorIsZero` when `d = 0` (and the product fits 256 bits),
/// `DenominatorIsLteProdOne` when the exact quotient would not fit.
pub open spec fn mul_div_spec(a: nat, b: nat, d: nat) -> Result<nat, UniswapV3MathError> {
    if a * b < p256() {
        if d == 0 {
            Err(UniswapV3MathError::DenominatorIsZero)
        } else {
            Ok(a * b / d)
        }
    } else if d <= a * b / p256() {
        Err(UniswapV3MathError::DenominatorIsLteProdOne)
    } else {
        Ok(a * b / d)
    }
}

/// What `mul_div_rounding_up` returns: `ceil(a*b/d)`, with the same failures
/// as `mul_div`, plus `ResultIsU256MAX` when rounding up would leave 256 bits.
pub open spec fn mul_div_up_spec(a: nat, b: nat, d: nat) -> Result<nat, UniswapV3MathError> {
    match mul_div_spec(a, b, d) {
        Err(e) => Err(e),
        Ok(q) => if a * b % d == 0 {
            Ok(q)
        } else if q == p256() - 1 {
            Err(UniswapV3MathError::ResultIsU256MAX)
        } else {
            Ok(q + 1)
        },
    }
}

/// `mul_div` together with the exact remainder of the 512-bit division.
fn mul_div_inner(a: U256, b: U256, denominator: U256) -> (r: Result<
    (U256, U256),
    UniswapV3MathError,
>)
    ensures
        match r {
            Ok(p) => mul_div_spec(a.v(), b.v(), denominator.v()) == Ok::<
                nat,
                UniswapV3MathError,
            >(p.0.v()) && p.0.v() == a.v() * b.v() / denominator.v() && p.1.v() == a.v() * b.v()
                % denominator.v() && denominator.v() > 0,
            Err(e) => mul_div_spec(a.v(), b.v(), denominator.v()) == Err::<
                nat,
                UniswapV3MathError,
            >(e),
        },
{
    let (prod_0, prod_1) = a.mul_full(b);
    let ghost ab: nat = a.v() * b.v();
    proof {
        prod_0.lemma_v_bound();
        prod_1.lemma_v_bound();
        lemma_mul_nonnegative(a.v() as int, b.v() as int);
        lemma_fundamental_div_mod_converse(
            ab as int,
            p256() as int,
            prod_1.v() as int,
            prod_0.v() as int,
        );
        assert(prod_1.v() == ab / p256() && prod_0.v() == ab % p256());
    }
    if prod_1.is_zero() {
        if denominator.is_zero() {
            return Err(UniswapV3MathError::DenominatorIsZero);
        }
        let (q, rem) = prod_0.div_rem(denominator);
        Ok((q, rem))
    } else {
        proof {
            assert(ab >= p256()) by {
                assert(prod_1.v() * p256() >= p256()) by (nonlinear_arith)
                    requires prod_1.v() >= 1;
            }
        }
        if denominator.le(&prod_1) {
            return Err(UniswapV3MathError::DenominatorIsLteProdOne);
        }
        let (q, rem) = div_512_by_256(prod_1, prod_0, denominator);
        proof {
            assert(q.v() * denominator.v() + rem.v() == ab);
            lemma_fundamental_div_mod_converse(
                ab as int,
                denominator.v() as int,
                q.v() as int,
                rem.v() as int,
            );
        }
        Ok((q, rem))
    }
}

/// `floor(a * b / denominator)` computed over a 512-bit intermediate product.
pub fn mul_div(a: U256, b: U256, denominator: U256) -> (r: Result<U256, UniswapV3MathError>)
    ensures
        res_v(r) == mul_div_spec(a.v(), b.v(), denominator.v()),
{
    match mul_div_inner(a, b, denominator) {
        Ok((q, _rem)) => Ok(q),
        Err(e) => Err(e),
    }
}

/// `ceil(a * b / denominator)` computed over a 512-bit intermediate product.
pub fn mul_div_rounding_up(a: U256, b: U256, denominator: U256) -> (r: Result<
    U256,
    UniswapV3MathError,
>)
    ensures
        res_v(r) == mul_div_up_spec(a.v(), b.v(), denominator.v()),
{
    match mul_div_inner(a, b, denominator) {
        Err(e) => Err(e),
        Ok((q, rem)) => {
            if rem.is_zero() {
                Ok(q)
            } else if q.lo == u128::MAX && q.hi == u128::MAX {
                proof {
                    assert(q.v() == p256() - 1) by {
                        crate::u256::lemma_p128_p256();
                        assert((0x100000000000000000000000000000000int - 1) * 0x100000000000000000000000000000000int
                            == p256() - 0x100000000000000000000000000000000int) by (nonlinear_arith);
                    }
                }
                Err(UniswapV3MathError::ResultIsU256MAX)
            } else {
                proof {
                    q.lemma_v_bound();
                    assert(q.v() != p256() - 1) by {
                        U256::lemma_eq_v(q, U256 { lo: u128::MAX, hi: u128::MAX });
                        crate::u256::lemma_p128_p256();
                        assert((0x100000000000000000000000000000000int - 1) * 0x100000000000000000000000000000000int
                            == p256() - 0x100000000000000000000000000000000int) by (nonlinear_arith);
                    }
                    lemma_small_mod(q.v() + 1, p256());
                }
                Ok(q.wrapping_add(U256 { lo: 1, hi: 0 }))
            }
        },
    }
}

} // verus!
