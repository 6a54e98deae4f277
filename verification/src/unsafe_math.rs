use vstd::prelude::*;
use vstd::arithmetic::div_mod::*;
use crate::u256::{U256, p256};

verus! {

/// `ceil(a / b)` over the integers, for `b > 0`.
pub open spec fn div_up(a: nat, b: nat) -> nat {
    if a % b == 0 {
        a / b
    } else {
        a / b + 1
    }
}

/// Unsigned division rounding the quotient up. A zero divisor has no
/// defined result and is excluded here.
pub fn div_rounding_up(a: U256, b: U256) -> (r: U256)
    requires
        b.v() > 0,
    ensures
        r.v() == div_up(a.v(), b.v()),
{
    let (quotient, remainder) = a.div_rem(b);
    if remainder.is_zero() {
        quotient
    } else {
        proof {
            // a non-zero remainder forces b >= 2, so the quotient is small
            // enough for the increment not to wrap
            lemma_fundamental_div_mod(a.v() as int, b.v() as int);
            lemma_mod_division_less_than_divisor(a.v() as int, b.v() as int);
            lemma_div_pos_is_pos(a.v() as int, b.v() as int);
            a.lemma_v_bound();
            assert(quotient.v() + 1 < p256()) by (nonlinear_arith)
                requires
                    a.v() == b.v() * quotient.v() + a.v() % b.v(),
                    a.v() % b.v() >= 1,
                    b.v() >= 2,
                    quotient.v() >= 0,
                    a.v() < p256(),
                    p256() > 2,
            ;
            lemma_small_mod(quotient.v() + 1, p256());
        }
        quotient.wrapping_add(U256 { lo: 1, hi: 0 })
    }
}

} // verus!
