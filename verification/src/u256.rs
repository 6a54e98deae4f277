use vstd::prelude::*;
use vstd::arithmetic::power2::*;
use vstd::arithmetic::div_mod::*;
use vstd::arithmetic::mul::*;

verus! {

/// 2^128, the weight of the high limb.
pub open spec fn p128() -> nat {
    0x100000000000000000000000000000000nat
}

/// 2^256, one past the largest representable value.
pub open spec fn p256() -> nat {
    0x10000000000000000000000000000000000000000000000000000000000000000nat
}

pub proof fn lemma_p128_p256()
    ensures
        pow2(128) == p128(),
        pow2(256) == p256(),
        p128() * p128() == p256(),
{
    lemma2_to64();
    lemma_pow2_adds(64, 64);
    lemma_pow2_adds(128, 128);
    assert(0x10000000000000000int * 0x10000000000000000int == p128()) by (nonlinear_arith);
    assert(p128() * p128() == p256()) by (nonlinear_arith);
}

/// An unsigned 256-bit integer, stored as two 128-bit limbs:
/// the represented value is `lo + hi * 2^128`.
#[derive(Clone, Copy, PartialEq, Eq, Structural, Debug, Default)]
pub struct U256 {
    pub lo: u128,
    pub hi: u128,
}

impl U256 {
    /// The mathematical value of this 256-bit integer.
    pub open spec fn v(self) -> nat {
        self.lo as nat + self.hi as nat * p128()
    }

    pub proof fn lemma_v_bound(self)
        ensures
            self.v() < p256(),
    {
        assert(self.hi * p128() <= (p128() - 1) * p128()) by {
            lemma_mul_inequality(self.hi as int, p128() as int - 1, p128() as int);
        }
        assert((p128() - 1) * p128() == p128() * p128() - p128()) by {
            lemma_mul_is_distributive_sub_other_way(p128() as int, p128() as int, 1);
        }
        lemma_p128_p256();
    }

    /// Two values are structurally equal exactly when their mathematical values agree.
    pub proof fn lemma_eq_v(a: U256, b: U256)
        ensures
            (a == b) <==> (a.v() == b.v()),
    {
        if a.v() == b.v() {
            lemma_fundamental_div_mod_converse(a.v() as int, p128() as int, a.hi as int, a.lo as int);
            lemma_fundamental_div_mod_converse(b.v() as int, p128() as int, b.hi as int, b.lo as int);
        }
    }

    pub proof fn lemma_cmp(a: U256, b: U256)
        ensures
            (a.v() < b.v()) <==> (a.hi < b.hi || (a.hi == b.hi && a.lo < b.lo)),
    {
        if a.hi < b.hi {
            assert((a.hi + 1) * p128() <= b.hi * p128()) by {
                lemma_mul_inequality(a.hi as int + 1, b.hi as int, p128() as int);
            }
            assert((a.hi + 1) * p128() == a.hi * p128() + p128()) by {
                lemma_mul_is_distributive_add_other_way(p128() as int, a.hi as int, 1);
            }
        } else if b.hi < a.hi {
            assert((b.hi + 1) * p128() <= a.hi * p128()) by {
                lemma_mul_inequality(b.hi as int + 1, a.hi as int, p128() as int);
            }
            assert((b.hi + 1) * p128() == b.hi * p128() + p128()) by {
                lemma_mul_is_distributive_add_other_way(p128() as int, b.hi as int, 1);
            }
        }
    }

    /// The zero value.
    pub fn zero() -> (r: U256)
        ensures
            r.v() == 0,
    {
        U256 { lo: 0, hi: 0 }
    }

    /// The value one.
    pub fn one() -> (r: U256)
        ensures
            r.v() == 1,
    {
        U256 { lo: 1, hi: 0 }
    }

    /// The largest representable value, 2^256 - 1.
    pub fn max() -> (r: U256)
        ensures
            r.v() == p256() - 1,
    {
        let r = U256 { lo: u128::MAX, hi: u128::MAX };
        proof {
            assert(r.v() == (p128() - 1) + (p128() - 1) * p128());
            assert((p128() - 1) * p128() == p128() * p128() - p128()) by {
                lemma_mul_is_distributive_sub_other_way(p128() as int, p128() as int, 1);
            }
            lemma_p128_p256();
        }
        r
    }

    /// Embeds a 128-bit value.
    pub fn from_u128(x: u128) -> (r: U256)
        ensures
            r.v() == x,
    {
        U256 { lo: x, hi: 0 }
    }

    /// Builds a value from its two 128-bit limbs, low limb first.
    pub fn from_limbs(lo: u128, hi: u128) -> (r: U256)
        ensures
            r.v() == lo + hi * p128(),
    {
        U256 { lo, hi }
    }

    pub fn is_zero(&self) -> (r: bool)
        ensures
            r == (self.v() == 0),
    {
        self.lo == 0 && self.hi == 0
    }

    pub fn lt(&self, other: &U256) -> (r: bool)
        ensures
            r == (self.v() < other.v()),
    {
        proof {
            U256::lemma_cmp(*self, *other);
        }
        self.hi < other.hi || (self.hi == other.hi && self.lo < other.lo)
    }

    pub fn le(&self, other: &U256) -> (r: bool)
        ensures
            r == (self.v() <= other.v()),
    {
        proof {
            U256::lemma_cmp(*other, *self);
        }
        !(other.hi < self.hi || (other.hi == self.hi && other.lo < self.lo))
    }

    pub fn gt(&self, other: &U256) -> (r: bool)
        ensures
            r == (self.v() > other.v()),
    {
        other.lt(self)
    }

    pub fn ge(&self, other: &U256) -> (r: bool)
        ensures
            r == (self.v() >= other.v()),
    {
        other.le(self)
    }

    /// Addition returning the wrapped sum and a carry flag.
    pub fn overflowing_add(self, other: U256) -> (r: (U256, bool))
        ensures
            r.0.v() + (if r.1 { p256() as int } else { 0 }) == self.v() + other.v(),
            r.1 == (self.v() + other.v() >= p256()),
    {
        let (lo, c0) = add_carry_u128(self.lo, other.lo, false);
        let (hi, c1) = add_carry_u128(self.hi, other.hi, c0);
        let r = U256 { lo, hi };
        proof {
            lemma_p128_p256();
            let c0v: int = if c0 { 1 } else { 0 };
            let c1v: int = if c1 { 1 } else { 0 };
            assert(lo + c0v * p128() == self.lo + other.lo);
            assert(hi + c1v * p128() == self.hi + other.hi + c0v);
            assert(r.v() + c1v * p256() == self.v() + other.v()) by {
                lemma_mul_is_distributive_add(p128() as int, hi as int, c1v * p128());
                lemma_mul_is_distributive_add(p128() as int, self.hi as int, other.hi as int + c0v);
                lemma_mul_is_distributive_add(p128() as int, self.hi as int + other.hi, c0v);
                lemma_mul_is_associative(c1v, p128() as int, p128() as int);
                lemma_mul_is_associative(c0v, p128() as int, 1);
            }
            r.lemma_v_bound();
            self.lemma_v_bound();
            other.lemma_v_bound();
        }
        (r, c1)
    }

    /// Addition modulo 2^256.
    pub fn wrapping_add(self, other: U256) -> (r: U256)
        ensures
            r.v() == (self.v() + other.v()) % p256(),
    {
        let (r, c) = self.overflowing_add(other);
        proof {
            r.lemma_v_bound();
            if c {
                lemma_fundamental_div_mod_converse(
                    (self.v() + other.v()) as int,
                    p256() as int,
                    1,
                    r.v() as int,
                );
            } else {
                lemma_small_mod(self.v() + other.v(), p256());
            }
        }
        r
    }

    /// Addition that reports overflow instead of wrapping.
    pub fn checked_add(self, other: U256) -> (r: Option<U256>)
        ensures
            match r {
                Some(s) => s.v() == self.v() + other.v(),
                None => self.v() + other.v() >= p256(),
            },
    {
        let (r, c) = self.overflowing_add(other);
        if c {
            None
        } else {
            Some(r)
        }
    }

    /// Subtraction returning the wrapped difference and a borrow flag.
    pub fn overflowing_sub(self, other: U256) -> (r: (U256, bool))
        ensures
            r.0.v() as int == self.v() - other.v() + (if r.1 { p256() as int } else { 0 }),
            r.1 == (self.v() < other.v()),
    {
        let (lo, b0) = sub_borrow_u128(self.lo, other.lo, false);
        let (hi, b1) = sub_borrow_u128(self.hi, other.hi, b0);
        let r = U256 { lo, hi };
        proof {
            lemma_p128_p256();
            let b0v: int = if b0 { 1 } else { 0 };
            let b1v: int = if b1 { 1 } else { 0 };
            assert(lo as int == self.lo - other.lo + b0v * p128());
            assert(hi as int == self.hi - other.hi - b0v + b1v * p128());
            assert(r.v() as int == self.v() - other.v() + b1v * p256()) by {
                lemma_mul_is_distributive_sub(p128() as int, self.hi as int, other.hi as int);
                lemma_mul_is_distributive_sub(
                    p128() as int,
                    self.hi as int - other.hi,
                    b0v,
                );
                lemma_mul_is_distributive_add(
                    p128() as int,
                    self.hi as int - other.hi - b0v,
                    b1v * p128(),
                );
                lemma_mul_is_associative(b1v, p128() as int, p128() as int);
            }
            r.lemma_v_bound();
            self.lemma_v_bound();
            other.lemma_v_bound();
        }
        (r, b1)
    }

    /// Subtraction modulo 2^256.
    pub fn wrapping_sub(self, other: U256) -> (r: U256)
        ensures
            r.v() as int == (self.v() - other.v()) % (p256() as int),
    {
        let (r, b) = self.overflowing_sub(other);
        proof {
            r.lemma_v_bound();
            if b {
                lemma_fundamental_div_mod_converse(
                    self.v() - other.v(),
                    p256() as int,
                    -1,
                    r.v() as int,
                );
            } else {
                lemma_small_mod((self.v() - other.v()) as nat, p256());
            }
        }
        r
    }

    /// Subtraction that reports underflow instead of wrapping.
    pub fn checked_sub(self, other: U256) -> (r: Option<U256>)
        ensures
            match r {
                Some(s) => self.v() >= other.v() && s.v() as int == self.v() - other.v(),
                None => self.v() < other.v(),
            },
    {
        let (r, b) = self.overflowing_sub(other);
        if b {
            None
        } else {
            Some(r)
        }
    }
}

/// One limb of a multi-limb addition: `a + b + carry_in` as a wrapped sum and carry-out.
fn add_carry_u128(a: u128, b: u128, c: bool) -> (r: (u128, bool))
    ensures
        r.0 + (if r.1 { p128() as int } else { 0 }) == a + b + (if c { 1int } else { 0int }),
{
    let cv: u128 = if c { 1 } else { 0 };
    let (s1, o1) = if a <= u128::MAX - b {
        (a + b, false)
    } else {
        ((a - (u128::MAX - b)) - 1, true)
    };
    let (s2, o2) = if cv == 0 {
        (s1, false)
    } else if s1 < u128::MAX {
        (s1 + 1, false)
    } else {
        (0u128, true)
    };
    (s2, o1 || o2)
}

/// One limb of a multi-limb subtraction: `a - b - borrow_in` as a wrapped difference
/// and borrow-out.
fn sub_borrow_u128(a: u128, b: u128, bo: bool) -> (r: (u128, bool))
    ensures
        r.0 as int == a - b - (if bo { 1int } else { 0int }) + (if r.1 { p128() as int } else { 0int }),
        r.1 == ((a as int - b - (if bo { 1int } else { 0int })) < 0),
{
    let bv: u128 = if bo { 1 } else { 0 };
    let (d1, u1) = if a >= b {
        (a - b, false)
    } else {
        (u128::MAX - (b - a) + 1, true)
    };
    let (d2, u2) = if bv == 0 {
        (d1, false)
    } else if d1 > 0 {
        (d1 - 1, false)
    } else {
        (u128::MAX, true)
    };
    (d2, u1 || u2)
}

/// 2^64, the split point used by the multiplication routine.
pub open spec fn p64() -> nat {
    0x10000000000000000nat
}

/// 2^n as a `u128`, computed by repeated doubling.
pub fn pow2_u128(n: u32) -> (r: u128)
    requires
        n < 128,
    ensures
        r == pow2(n as nat),
        r >= 1,
{
    let mut r: u128 = 1;
    let mut i: u32 = 0;
    proof {
        lemma_pow2(0);
        reveal(vstd::arithmetic::power::pow);
    }
    while i < n
        invariant
            i <= n,
            n < 128,
            r == pow2(i as nat),
        decreases n - i,
    {
        proof {
            lemma_pow2_strictly_increases(i as nat, 127);
            lemma_pow2_adds(i as nat, 1);
            lemma2_to64();
            assert(pow2(127) == 0x80000000000000000000000000000000) by {
                lemma_pow2_adds(64, 63);
                lemma2_to64_rest();
            }
        }
        r = r * 2;
        i = i + 1;
    }
    proof {
        lemma_pow2_pos(n as nat);
    }
    r
}

/// Full 128x128 -> 256 bit multiplication over `u64` half-limbs.
fn mul_u128_full(a: u128, b: u128) -> (r: (u128, u128))
    ensures
        r.0 + r.1 * p128() == a * b,
{
    let p64c: u128 = 0x10000000000000000;
    let ah = a / p64c;
    let al = a % p64c;
    let bh = b / p64c;
    let bl = b % p64c;
    proof {
        lemma_fundamental_div_mod(a as int, p64c as int);
        lemma_fundamental_div_mod(b as int, p64c as int);
        lemma_div_pos_is_pos(a as int, p64c as int);
        lemma_div_pos_is_pos(b as int, p64c as int);
        assert(ah < p64c && bh < p64c) by {
            assert(0x10000000000000000int * 0x10000000000000000int
                == 0x100000000000000000000000000000000int) by (nonlinear_arith);
            lemma_multiply_divide_lt(a as int, p64c as int, p64c as int);
            lemma_multiply_divide_lt(b as int, p64c as int, p64c as int);
        }
        assert(ah * bh <= (p64c - 1) * (p64c - 1)) by (nonlinear_arith)
            requires ah <= p64c - 1 && bh <= p64c - 1 && ah >= 0 && bh >= 0;
        assert(ah * bl <= (p64c - 1) * (p64c - 1)) by (nonlinear_arith)
            requires ah <= p64c - 1 && bl <= p64c - 1 && ah >= 0 && bl >= 0;
        assert(al * bh <= (p64c - 1) * (p64c - 1)) by (nonlinear_arith)
            requires al <= p64c - 1 && bh <= p64c - 1 && al >= 0 && bh >= 0;
        assert(al * bl <= (p64c - 1) * (p64c - 1)) by (nonlinear_arith)
            requires al <= p64c - 1 && bl <= p64c - 1 && al >= 0 && bl >= 0;
        assert((0x10000000000000000int - 1) * (0x10000000000000000int - 1)
            < 0x100000000000000000000000000000000int) by (nonlinear_arith);
    }
    let hh = ah * bh;
    let hl = ah * bl;
    let lh = al * bh;
    let ll = al * bl;
    let (mid, midc) = add_carry_u128(hl, lh, false);
    let mq = mid / p64c;
    let mr = mid % p64c;
    proof {
        lemma_fundamental_div_mod(mid as int, p64c as int);
        lemma_div_pos_is_pos(mid as int, p64c as int);
        assert(mq < p64c) by {
            assert(0x10000000000000000int * 0x10000000000000000int
                == 0x100000000000000000000000000000000int) by (nonlinear_arith);
            lemma_multiply_divide_lt(mid as int, p64c as int, p64c as int);
        }
        assert(mr * p64c <= (p64c - 1) * p64c) by (nonlinear_arith)
            requires mr <= p64c - 1 && mr >= 0 && p64c >= 1;
        assert((0x10000000000000000int - 1) * 0x10000000000000000int
            < 0x100000000000000000000000000000000int) by (nonlinear_arith);
    }
    let (lo, c2) = add_carry_u128(ll, mr * p64c, false);
    let ghost midcv: int = if midc { 1 } else { 0 };
    let ghost c2v: int = if c2 { 1 } else { 0 };
    let ghost hsum: int = hh + mq + midcv * p64() + c2v;
    proof {
        assert(a * b == lo + hsum * p128()) by (nonlinear_arith)
            requires
                a == ah * p64() + al,
                b == bh * p64() + bl,
                hh == ah * bh,
                hl == ah * bl,
                lh == al * bh,
                ll == al * bl,
                mid + midcv * p128() == hl + lh,
                mid == mq * p64() + mr,
                lo + c2v * p128() == ll + mr * p64(),
                hsum == hh + mq + midcv * p64() + c2v,
                p128() == p64() * p64();
        assert(p128() == p64() * p64()) by (nonlinear_arith);
        assert(hsum >= 0);
        assert(hsum < p128()) by {
            assert(a * b < p128() * p128()) by (nonlinear_arith)
                requires a < p128() && b < p128() && a >= 0 && b >= 0;
            if hsum >= p128() {
                assert(hsum * p128() >= p128() * p128()) by (nonlinear_arith)
                    requires hsum >= p128();
            }
        }
        assert(midcv * p64() == if midc { p64() as int } else { 0int });
    }
    let midc_term: u128 = if midc { p64c } else { 0 };
    let c2_term: u128 = if c2 { 1 } else { 0 };
    let hi = hh + mq + midc_term + c2_term;
    (lo, hi)
}

impl U256 {
    /// Full 256x256 -> 512 bit multiplication; returns the low and high halves.
    pub fn mul_full(self, other: U256) -> (r: (U256, U256))
        ensures
            r.0.v() + r.1.v() * p256() == self.v() * other.v(),
    {
        let (ll0, ll1) = mul_u128_full(self.lo, other.lo);
        let (lh0, lh1) = mul_u128_full(self.lo, other.hi);
        let (hl0, hl1) = mul_u128_full(self.hi, other.lo);
        let (hh0, hh1) = mul_u128_full(self.hi, other.hi);
        let llv = U256 { lo: ll0, hi: ll1 };
        let lhv = U256 { lo: lh0, hi: lh1 };
        let hlv = U256 { lo: hl0, hi: hl1 };
        let hhv = U256 { lo: hh0, hi: hh1 };
        let (mid, midc) = lhv.overflowing_add(hlv);
        let (lor, c2) = llv.overflowing_add(U256 { lo: 0, hi: mid.lo });
        let ghost midcv: int = if midc { 1 } else { 0 };
        let ghost c2v: int = if c2 { 1 } else { 0 };
        let ghost hsum: int = hhv.v() + mid.hi + midcv * p128() + c2v;
        proof {
            lemma_p128_p256();
            assert(mid.v() == mid.lo + mid.hi * p128());
            assert((U256 { lo: 0, hi: mid.lo }).v() == mid.lo * p128());
            assert(self.v() * other.v() == lor.v() + hsum * p256()) by (nonlinear_arith)
                requires
                    self.v() == self.hi * p128() + self.lo,
                    other.v() == other.hi * p128() + other.lo,
                    hhv.v() == self.hi * other.hi,
                    hlv.v() == self.hi * other.lo,
                    lhv.v() == self.lo * other.hi,
                    llv.v() == self.lo * other.lo,
                    mid.lo + mid.hi * p128() + midcv * p256() == lhv.v() + hlv.v(),
                    lor.v() + c2v * p256() == llv.v() + mid.lo * p128(),
                    hsum == hhv.v() + mid.hi + midcv * p128() + c2v,
                    p256() == p128() * p128();
            assert(hsum >= 0);
            assert(hsum < p256()) by {
                self.lemma_v_bound();
                other.lemma_v_bound();
                assert(self.v() * other.v() < p256() * p256()) by (nonlinear_arith)
                    requires self.v() < p256() && other.v() < p256();
                if hsum >= p256() {
                    assert(hsum * p256() >= p256() * p256()) by (nonlinear_arith)
                        requires hsum >= p256();
                }
            }
        }
        let (h1, o1) = hhv.overflowing_add(U256 { lo: mid.hi, hi: if midc { 1 } else { 0 } });
        proof {
            assert((U256 { lo: mid.hi, hi: if midc { 1u128 } else { 0u128 } }).v()
                == mid.hi + midcv * p128());
            assert(!o1);
        }
        let (hir, o2) = h1.overflowing_add(U256 { lo: if c2 { 1 } else { 0 }, hi: 0 });
        proof {
            assert(!o2);
            assert(hir.v() == hsum);
        }
        (lor, hir)
    }

    /// Multiplication modulo 2^256.
    pub fn wrapping_mul(self, other: U256) -> (r: U256)
        ensures
            r.v() == (self.v() * other.v()) % p256(),
    {
        let (lo, hi) = self.mul_full(other);
        proof {
            lo.lemma_v_bound();
            lemma_mul_nonnegative(self.v() as int, other.v() as int);
            lemma_fundamental_div_mod_converse(
                (self.v() * other.v()) as int,
                p256() as int,
                hi.v() as int,
                lo.v() as int,
            );
        }
        lo
    }

}


impl U256 {
    /// Logical right shift: the value divided by 2^n.
    pub fn shr(self, n: u32) -> (r: U256)
        requires
            n < 256,
        ensures
            r.v() == self.v() / pow2(n as nat),
    {
        proof {
            lemma_p128_p256();
            lemma_pow2_pos(n as nat);
        }
        if n == 0 {
            proof {
                lemma2_to64();
                lemma_div_basics(self.v() as int);
            }
            self
        } else if n < 128 {
            let m = pow2_u128(n);
            let mc = pow2_u128(128 - n);
            proof {
                lemma_pow2_adds(n as nat, (128 - n) as nat);
                lemma_fundamental_div_mod(self.hi as int, m as int);
                lemma_div_pos_is_pos(self.hi as int, m as int);
                assert(self.lo < m * mc && self.hi < m * mc);
                lemma_multiply_divide_lt(self.lo as int, m as int, mc as int);
                assert((self.hi % m) * mc <= (m - 1) * mc) by {
                    lemma_mul_inequality(self.hi as int % m as int, m as int - 1, mc as int);
                }
                assert((m - 1) * mc == m * mc - mc) by {
                    lemma_mul_is_distributive_sub_other_way(mc as int, m as int, 1);
                }
            }
            let q = self.hi / m;
            let rm = self.hi % m;
            let ld = self.lo / m;
            let lor = ld + rm * mc;
            let r = U256 { lo: lor, hi: q };
            proof {
                let p = p128() as int;
                let mi = m as int;
                assert(self.v() as int == self.lo + (rm * mc) * mi + ((q * p) * mi)) by (nonlinear_arith)
                    requires
                        self.v() == self.lo + self.hi * p128(),
                        self.hi == q * m + rm,
                        p128() == m * mc,
                        p == p128(),
                        mi == m;
                lemma_hoist_over_denominator(self.lo + (rm * mc) * mi, q * p, m as nat);
                lemma_hoist_over_denominator(self.lo as int, rm as int * mc, m as nat);
                assert(r.v() == ld + rm * mc + q * p128());
            }
            r
        } else if n == 128 {
            let r = U256 { lo: self.hi, hi: 0 };
            proof {
                lemma_hoist_over_denominator(self.lo as int, self.hi as int, p128());
                lemma_basic_div(self.lo as int, p128() as int);
            }
            r
        } else {
            let m = pow2_u128(n - 128);
            proof {
                lemma_pow2_adds(128, (n - 128) as nat);
                lemma_hoist_over_denominator(self.lo as int, self.hi as int, p128());
                lemma_basic_div(self.lo as int, p128() as int);
                assert(self.v() / p128() == self.hi);
                lemma_div_denominator(self.v() as int, p128() as int, m as int);
            }
            U256 { lo: self.hi / m, hi: 0 }
        }
    }

    /// Left shift modulo 2^256: the value times 2^n, wrapped.
    pub fn shl(self, n: u32) -> (r: U256)
        requires
            n < 256,
        ensures
            r.v() == (self.v() * pow2(n as nat)) % p256(),
    {
        proof {
            lemma_p128_p256();
            lemma_pow2_pos(n as nat);
            self.lemma_v_bound();
        }
        if n == 0 {
            proof {
                lemma2_to64();
                lemma_mul_basics_2(self.v() as int);
                lemma_small_mod(self.v(), p256());
            }
            self
        } else if n < 128 {
            let m = pow2_u128(n);
            let mc = pow2_u128(128 - n);
            proof {
                lemma_pow2_adds(n as nat, (128 - n) as nat);
                assert(p128() == m * mc) by {
                    lemma_mul_is_commutative(m as int, mc as int);
                }
                lemma_fundamental_div_mod(self.lo as int, mc as int);
                lemma_fundamental_div_mod(self.hi as int, mc as int);
                lemma_div_pos_is_pos(self.lo as int, mc as int);
                lemma_div_pos_is_pos(self.hi as int, mc as int);
                lemma_multiply_divide_lt(self.lo as int, mc as int, m as int);
                assert((self.lo % mc) * m <= (mc - 1) * m) by {
                    lemma_mul_inequality(self.lo as int % mc as int, mc as int - 1, m as int);
                }
                assert((self.hi % mc) * m <= (mc - 1) * m) by {
                    lemma_mul_inequality(self.hi as int % mc as int, mc as int - 1, m as int);
                }
                assert((mc - 1) * m == mc * m - m) by {
                    lemma_mul_is_distributive_sub_other_way(m as int, mc as int, 1);
                }
            }
            let llq = self.lo / mc;
            let llr = self.lo % mc;
            let hhr = self.hi % mc;
            let lor = llr * m;
            let hir = hhr * m + llq;
            let r = U256 { lo: lor, hi: hir };
            let ghost hhq: int = self.hi as int / mc as int;
            proof {
                let p = p128() as int;
                assert(self.v() * m == r.v() + hhq * p256()) by (nonlinear_arith)
                    requires
                        self.v() == self.lo + self.hi * p128(),
                        self.lo == llq * mc + llr,
                        self.hi == hhq * mc + hhr,
                        r.v() == llr * m + (hhr * m + llq) * p128(),
                        p128() == m * mc,
                        p256() == p128() * p128(),
                        hhq >= 0;
                r.lemma_v_bound();
                lemma_fundamental_div_mod_converse_mod(
                    (self.v() * m) as int,
                    p256() as int,
                    hhq,
                    r.v() as int,
                );
            }
            r
        } else if n == 128 {
            let r = U256 { lo: 0, hi: self.lo };
            proof {
                assert(self.v() * p128() == r.v() + self.hi * p256()) by (nonlinear_arith)
                    requires
                        self.v() == self.lo + self.hi * p128(),
                        r.v() == self.lo * p128(),
                        p256() == p128() * p128();
                r.lemma_v_bound();
                lemma_mul_nonnegative(self.v() as int, p128() as int);
                lemma_fundamental_div_mod_converse_mod(
                    (self.v() * p128()) as int,
                    p256() as int,
                    self.hi as int,
                    r.v() as int,
                );
            }
            r
        } else {
            let m = pow2_u128(n - 128);
            let mc2 = pow2_u128(256 - n);
            proof {
                lemma_pow2_adds((n - 128) as nat, (256 - n) as nat);
                lemma_pow2_adds((n - 128) as nat, 128);
                assert(pow2(n as nat) == m * p128()) by {
                    lemma_mul_is_commutative(m as int, p128() as int);
                }
                lemma_fundamental_div_mod(self.lo as int, mc2 as int);
                lemma_div_pos_is_pos(self.lo as int, mc2 as int);
                assert((self.lo % mc2) * m <= (mc2 - 1) * m) by {
                    lemma_mul_inequality(self.lo as int % mc2 as int, mc2 as int - 1, m as int);
                }
                assert((mc2 - 1) * m == mc2 * m - m) by {
                    lemma_mul_is_distributive_sub_other_way(m as int, mc2 as int, 1);
                }
                assert(mc2 * m == p128());
            }
            let r2 = self.lo % mc2;
            let r = U256 { lo: 0, hi: r2 * m };
            let ghost q2: int = self.lo as int / mc2 as int;
            proof {
                assert(self.v() * pow2(n as nat) == r.v() + (q2 + self.hi * m) * p256())
                    by (nonlinear_arith)
                    requires
                        self.v() == self.lo + self.hi * p128(),
                        self.lo == q2 * mc2 + r2,
                        r.v() == (r2 * m) * p128(),
                        p128() == mc2 * m,
                        p256() == p128() * p128(),
                        pow2(n as nat) == m * p128();
                r.lemma_v_bound();
                assert(q2 + self.hi * m >= 0) by {
                    lemma_mul_nonnegative(self.hi as int, m as int);
                }
                lemma_mul_nonnegative(self.v() as int, pow2(n as nat) as int);
                lemma_fundamental_div_mod_converse_mod(
                    (self.v() * pow2(n as nat)) as int,
                    p256() as int,
                    q2 + self.hi * m,
                    r.v() as int,
                );
            }
            r
        }
    }
}


/// Divides the 512-bit value `n_hi * 2^256 + n_lo` by `d`, one bit at a time.
/// The quotient fits in 256 bits because `n_hi < d`.
#[verifier::rlimit(60)]
pub fn div_512_by_256(n_hi: U256, n_lo: U256, d: U256) -> (r: (U256, U256))
    requires
        d.v() > 0,
        n_hi.v() < d.v(),
    ensures
        r.0.v() * d.v() + r.1.v() == n_hi.v() * p256() + n_lo.v(),
        r.1.v() < d.v(),
{
    let mut q = U256 { lo: 0, hi: 0 };
    let mut rem = n_hi;
    let mut i: u32 = 0;
    proof {
        lemma_p128_p256();
        lemma2_to64();
        n_lo.lemma_v_bound();
        d.lemma_v_bound();
        lemma_basic_div(n_lo.v() as int, p256() as int);
        lemma_mul_basics_2(n_hi.v() as int);
        lemma_mul_basics_2(q.v() as int);
        assert(q.v() * d.v() == 0) by {
            lemma_mul_by_zero_is_zero(d.v() as int);
        }
    }
    while i < 256
        invariant
            i <= 256,
            d.v() > 0,
            d.v() < p256(),
            n_lo.v() < p256(),
            rem.v() < d.v(),
            q.v() < pow2(i as nat),
            q.v() * d.v() + rem.v() == n_hi.v() * pow2(i as nat) + n_lo.v() / pow2(
                (256 - i) as nat,
            ),
        decreases 256 - i,
    {
        let sh = n_lo.shr(255 - i);
        let bit: u128 = sh.lo % 2;
        let ghost x: int = n_lo.v() as int / pow2((255 - i) as nat) as int;
        proof {
            lemma_pow2_pos((255 - i) as nat);
            assert(bit == x % 2) by {
                assert(2 * (sh.hi * 0x80000000000000000000000000000000) == sh.hi * p128())
                    by (nonlinear_arith);
                lemma_mod_multiples_vanish(
                    sh.hi as int * 0x80000000000000000000000000000000,
                    sh.lo as int,
                    2,
                );
                lemma_small_mod((sh.lo % 2) as nat, 2);
                lemma_mod_twice(sh.lo as int, 2);
            }
        }
        let (rem_sh, carry) = rem.overflowing_add(rem);
        let (rem2, c2) = rem_sh.overflowing_add(U256 { lo: bit, hi: 0 });
        proof {
            assert(!c2);
        }
        let ghost rem2val: int = 2 * rem.v() + bit;
        proof {
            assert(rem2.v() + (if carry { p256() as int } else { 0 }) == rem2val);
            // the running prefix doubles and takes in the next bit
            lemma_pow2_adds((255 - i) as nat, 1);
            lemma2_to64();
            lemma_div_denominator(n_lo.v() as int, pow2((255 - i) as nat) as int, 2);
            lemma_fundamental_div_mod(x, 2);
            assert(n_lo.v() / pow2((256 - i) as nat) == x / 2);
            lemma_pow2_adds(i as nat, 1);
            lemma_p128_p256();
            if i + 1 < 256 {
                lemma_pow2_strictly_increases((i + 1) as nat, 256);
            }
            assert(pow2((i + 1) as nat) <= p256());
            assert(2 * q.v() + 1 < p256());
        }
        let cond = carry || rem2.ge(&d);
        if cond {
            let rem_new = rem2.wrapping_sub(d);
            proof {
                if carry {
                    assert(rem2.v() < d.v());
                }
                assert(rem2val - d.v() >= 0);
                assert(rem2val - d.v() < d.v());
                assert(rem_new.v() == rem2val - d.v()) by {
                    if rem2.v() >= d.v() {
                        lemma_small_mod((rem2.v() - d.v()) as nat, p256());
                    } else {
                        lemma_fundamental_div_mod_converse(
                            rem2.v() - d.v(),
                            p256() as int,
                            -1,
                            rem2.v() - d.v() + p256(),
                        );
                    }
                }
            }
            let (qd, qc) = q.overflowing_add(q);
            proof {
                lemma_pow2_strictly_increases(i as nat, 256);
                assert(!qc);
            }
            let (q_new, qc2) = qd.overflowing_add(U256 { lo: 1, hi: 0 });
            proof {
                assert(!qc2);
                assert(q_new.v() * d.v() == 2 * (q.v() * d.v()) + d.v()) by (nonlinear_arith)
                    requires q_new.v() == 2 * q.v() + 1;
                assert(n_hi.v() * pow2((i + 1) as nat) == 2 * (n_hi.v() * pow2(i as nat)))
                    by (nonlinear_arith)
                    requires pow2((i + 1) as nat) == 2 * pow2(i as nat);
                assert(q_new.v() < pow2((i + 1) as nat));
            }
            q = q_new;
            rem = rem_new;
        } else {
            proof {
                assert(rem2.v() == rem2val);
                assert(rem2val < d.v());
            }
            let (q_new, qc) = q.overflowing_add(q);
            proof {
                lemma_pow2_strictly_increases(i as nat, 256);
                assert(!qc);
                assert(q_new.v() * d.v() == 2 * (q.v() * d.v())) by (nonlinear_arith)
                    requires q_new.v() == 2 * q.v();
                assert(n_hi.v() * pow2((i + 1) as nat) == 2 * (n_hi.v() * pow2(i as nat)))
                    by (nonlinear_arith)
                    requires pow2((i + 1) as nat) == 2 * pow2(i as nat);
                assert(q_new.v() < pow2((i + 1) as nat));
            }
            q = q_new;
            rem = rem2;
        }
        i = i + 1;
    }
    proof {
        lemma_p128_p256();
        lemma2_to64();
        lemma_div_basics(n_lo.v() as int);
    }
    (q, rem)
}

impl U256 {
    /// Euclidean division: returns the quotient and the remainder.
    pub fn div_rem(self, d: U256) -> (r: (U256, U256))
        requires
            d.v() > 0,
        ensures
            r.0.v() == self.v() / d.v(),
            r.1.v() == self.v() % d.v(),
    {
        let z = U256 { lo: 0, hi: 0 };
        let (q, rem) = div_512_by_256(z, self, d);
        proof {
            assert(z.v() * p256() == 0) by {
                lemma_mul_by_zero_is_zero(p256() as int);
            }
            lemma_fundamental_div_mod_converse(
                self.v() as int,
                d.v() as int,
                q.v() as int,
                rem.v() as int,
            );
        }
        (q, rem)
    }
}

} // verus!
