use vstd::prelude::*;
use vstd::arithmetic::div_mod::*;
use vstd::arithmetic::mul::*;
use crate::u256::{U256, p128, p256};

verus! {

/// 2^255, the sign boundary of the two's-complement encoding.
pub open spec fn p255() -> nat {
    0x8000000000000000000000000000000000000000000000000000000000000000nat
}

/// A signed 256-bit integer. The bit pattern is the two's-complement
/// reinterpretation of a `U256`, exactly as the pool contract treats it.
#[derive(Clone, Copy, PartialEq, Eq, Structural, Debug, Default)]
pub struct I256 {
    pub rep: U256,
}

/// Maps an arbitrary integer into `[-2^255, 2^255)` modulo 2^256.
pub open spec fn i256_wrap(x: int) -> int {
    let m = x % (p256() as int);
    if m >= p255() {
        m - p256()
    } else {
        m
    }
}

impl I256 {
    /// The mathematical (signed) value of the two's-complement pattern.
    pub open spec fn iv(self) -> int {
        if self.rep.v() >= p255() {
            self.rep.v() - p256()
        } else {
            self.rep.v() as int
        }
    }

    pub proof fn lemma_iv_range(self)
        ensures
            -(p255() as int) <= self.iv() < p255(),
            self.iv() % (p256() as int) == self.rep.v() as int % (p256() as int),
    {
        self.rep.lemma_v_bound();
        if self.rep.v() >= p255() {
            lemma_mod_sub_multiples_vanish(self.rep.v() as int, p256() as int);
        }
    }

    /// The value zero.
    pub fn zero() -> (r: I256)
        ensures
            r.iv() == 0,
    {
        I256 { rep: U256 { lo: 0, hi: 0 } }
    }

    pub fn is_zero(&self) -> (r: bool)
        ensures
            r == (self.iv() == 0),
    {
        proof {
            self.rep.lemma_v_bound();
        }
        self.rep.lo == 0 && self.rep.hi == 0
    }

    pub fn is_negative(&self) -> (r: bool)
        ensures
            r == (self.iv() < 0),
    {
        let r = self.rep.hi >= 0x80000000000000000000000000000000;
        proof {
            self.rep.lemma_v_bound();
            if r {
                assert(self.rep.hi as int * p128() >= 0x80000000000000000000000000000000int
                    * p128()) by {
                    lemma_mul_inequality(
                        0x80000000000000000000000000000000int,
                        self.rep.hi as int,
                        p128() as int,
                    );
                }
            } else {
                assert(self.rep.hi as int * p128() <= (0x80000000000000000000000000000000int - 1)
                    * p128()) by {
                    lemma_mul_inequality(
                        self.rep.hi as int,
                        0x80000000000000000000000000000000int - 1,
                        p128() as int,
                    );
                }
                assert((0x80000000000000000000000000000000int - 1) * p128() == p255() - p128())
                    by {
                    lemma_mul_is_distributive_sub_other_way(
                        p128() as int,
                        0x80000000000000000000000000000000int,
                        1,
                    );
                }
            }
        }
        r
    }

    /// Two's-complement (wrapping) negation.
    pub fn neg(self) -> (r: I256)
        ensures
            r.rep.v() == (if self.rep.v() == 0 { 0int } else { p256() - self.rep.v() }),
            r.iv() == i256_wrap(-self.iv()),
    {
        let z = U256 { lo: 0, hi: 0 };
        let rep = z.wrapping_sub(self.rep);
        let r = I256 { rep };
        proof {
            self.rep.lemma_v_bound();
            if self.rep.v() == 0 {
                lemma_small_mod(0, p256());
            } else {
                lemma_fundamental_div_mod_converse(
                    0int - self.rep.v(),
                    p256() as int,
                    -1,
                    p256() - self.rep.v(),
                );
            }
            self.lemma_iv_range();
            r.lemma_iv_range();
            assert((-self.iv()) % (p256() as int) == r.rep.v() as int % (p256() as int)) by {
                if self.rep.v() >= p255() {
                    assert(-self.iv() == p256() - self.rep.v());
                    lemma_small_mod((p256() - self.rep.v()) as nat, p256());
                } else if self.rep.v() == 0 {
                } else {
                    assert(-self.iv() == -(self.rep.v() as int));
                    lemma_fundamental_div_mod_converse(
                        -(self.rep.v() as int),
                        p256() as int,
                        -1,
                        p256() - self.rep.v(),
                    );
                    lemma_small_mod((p256() - self.rep.v()) as nat, p256());
                }
            }
            assert(r.rep.v() as int % (p256() as int) == r.rep.v()) by {
                lemma_small_mod(r.rep.v(), p256());
            }
        }
        r
    }

    /// The magnitude as an unsigned value; `|-2^255|` is representable as 2^255.
    pub fn abs_u256(self) -> (r: U256)
        ensures
            r.v() as int == (if self.iv() < 0 { -self.iv() } else { self.iv() }),
    {
        proof {
            self.lemma_iv_range();
        }
        if self.is_negative() {
            self.neg().rep
        } else {
            self.rep
        }
    }

    /// Wrapping subtraction, two's complement over 256 bits.
    pub fn wrapping_sub(self, other: I256) -> (r: I256)
        ensures
            r.iv() == i256_wrap(self.iv() - other.iv()),
            r.rep.v() as int == (self.rep.v() - other.rep.v()) % (p256() as int),
    {
        let rep = self.rep.wrapping_sub(other.rep);
        let r = I256 { rep };
        proof {
            self.lemma_iv_range();
            other.lemma_iv_range();
            r.lemma_iv_range();
            let p = p256() as int;
            let k1: int = if self.rep.v() >= p255() { 1 } else { 0 };
            let k2: int = if other.rep.v() >= p255() { 1 } else { 0 };
            assert(self.iv() - other.iv() == (k2 - k1) * p + (self.rep.v() - other.rep.v()))
                by (nonlinear_arith)
                requires
                    self.iv() == self.rep.v() - k1 * p,
                    other.iv() == other.rep.v() - k2 * p,
                    p == p256();
            lemma_mod_multiples_vanish(k2 - k1, self.rep.v() - other.rep.v(), p);
            lemma_small_mod(r.rep.v(), p256());
        }
        r
    }

}

} // verus!
