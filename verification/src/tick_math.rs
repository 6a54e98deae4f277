use vstd::prelude::*;
use vstd::arithmetic::power2::*;
use vstd::arithmetic::div_mod::*;
use vstd::arithmetic::mul::*;
use crate::error::UniswapV3MathError;
use crate::u256::{U256, p128, p256, lemma_p128_p256};

verus! {

pub const MIN_TICK: i32 = -887272;

pub const MAX_TICK: i32 = 887272;

/// The square-root price at MIN_TICK, as a Q64.96 value.
pub fn min_sqrt_ratio() -> (r: U256)
    ensures
        r.v() == 4295128739,
{
    U256 { lo: 4295128739, hi: 0 }
}

/// The square-root price at MAX_TICK, as a Q64.96 value.
pub fn max_sqrt_ratio() -> (r: U256)
    ensures
        r.v() == 1461446703485210103287273052203988822378723970342,
{
    let r = U256 { lo: 318775800626314356294205765087544249638, hi: 4294805859 };
    proof {
        assert(4294805859int * 0x100000000000000000000000000000000int
            == 1461446703485210103287273052203988822378723970342int
                - 318775800626314356294205765087544249638int) by (nonlinear_arith);
    }
    r
}

/// The magic multiplier for bit `k` of the tick: round(2^128 / 1.0001^(2^(k-1))), k >= 1; k = 0 holds 2^128/1.0001^0.5.
pub open spec fn tick_magic(k: nat) -> nat {
    if k == 0 {
        0xfffcb933bd6fad37aa2d162d1a594001nat
    } else if k == 1 {
        0xfff97272373d413259a46990580e213anat
    } else if k == 2 {
        0xfff2e50f5f656932ef12357cf3c7fdccnat
    } else if k == 3 {
        0xffe5caca7e10e4e61c3624eaa0941cd0nat
    } else if k == 4 {
        0xffcb9843d60f6159c9db58835c926644nat
    } else if k == 5 {
        0xff973b41fa98c081472e6896dfb254c0nat
    } else if k == 6 {
        0xff2ea16466c96a3843ec78b326b52861nat
    } else if k == 7 {
        0xfe5dee046a99a2a811c461f1969c3053nat
    } else if k == 8 {
        0xfcbe86c7900a88aedcffc83b479aa3a4nat
    } else if k == 9 {
        0xf987a7253ac413176f2b074cf7815e54nat
    } else if k == 10 {
        0xf3392b0822b70005940c7a398e4b70f3nat
    } else if k == 11 {
        0xe7159475a2c29b7443b29c7fa6e889d9nat
    } else if k == 12 {
        0xd097f3bdfd2022b8845ad8f792aa5825nat
    } else if k == 13 {
        0xa9f746462d870fdf8a65dc1f90e061e5nat
    } else if k == 14 {
        0x70d869a156d2a1b890bb3df62baf32f7nat
    } else if k == 15 {
        0x31be135f97d08fd981231505542fcfa6nat
    } else if k == 16 {
        0x9aa508b5b7a84e1c677de54f3e99bc9nat
    } else if k == 17 {
        0x5d6af8dedb81196699c329225ee604nat
    } else if k == 18 {
        0x2216e584f5fa1ea926041bedfe98nat
    } else {
        0x48a170391f7dc42444e8fa2nat
    }
}

/// A running lower bound for the folded ratio: the value left when every magic multiplier up to `k` has been applied to 2^128, with flooring at each step.
pub open spec fn magic_floor_chain(k: nat) -> nat {
    if k == 0 {
        0xfffcb933bd6fad37aa2d162d1a594001nat
    } else if k == 1 {
        0xfff62bbb6d458ec3c792106391dc463enat
    } else if k == 2 {
        0xffe9114b9cf28d394c3203dbd44eb085nat
    } else if k == 3 {
        0xffcede6f1d8be90b88f350424e84e5b7nat
    } else if k == 4 {
        0xff9a80c1ada7480b1daa871d7c4d9b36nat
    } else if k == 5 {
        0xff31e58d5a53c84fc142023ec1b1dfd7nat
    } else if k == 6 {
        0xfe612f8183b1ea21b72fb71b03542ae4nat
    } else if k == 7 {
        0xfcc1c2f380536bc67ee1ff564d1080b2nat
    } else if k == 8 {
        0xf98ad8c8d7ecc0a3f8a42c9724cffb6anat
    } else if k == 9 {
        0xf33c480189b415235ad119427d89a1f6nat
    } else if k == 10 {
        0xe71889a85903fd03cb7cc40bdf371a9cnat
    } else if k == 11 {
        0xd09a9f3e93db5812d4820c2fc67a3e3anat
    } else if k == 12 {
        0xa9f973345b9e647c4163af91d00b255fnat
    } else if k == 13 {
        0x70d9db6485f04ddd567e07c7b89f8e7cnat
    } else if k == 14 {
        0x31beb65d91af63ae717a760be3b374dcnat
    } else if k == 15 {
        0x9aa7036fd2355429c4030b032e1cf71nat
    } else if k == 16 {
        0x5d6c2af97aaa8de0e5a6bf23f5e547nat
    } else if k == 17 {
        0x221755388a6658e120f4a3c503cfnat
    } else if k == 18 {
        0x48a25e36942a4fc0c1f899fnat
    } else {
        0x149b7873d84d48nat
    }
}

/// The ratio after the magic constants for bits `0..=k` of `abs_tick` have
/// been applied, as the reference contract computes it (Q128.128).
pub open spec fn ratio_fold(abs_tick: nat, k: nat) -> nat
    decreases k,
{
    if k == 0 {
        if abs_tick % 2 == 1 {
            tick_magic(0)
        } else {
            0x100000000000000000000000000000000nat
        }
    } else {
        let prev = ratio_fold(abs_tick, (k - 1) as nat);
        if (abs_tick / pow2(k)) % 2 == 1 {
            prev * tick_magic(k) / p128()
        } else {
            prev
        }
    }
}

/// The folded ratio stays within (0, 2^128]: above the precomputed floor
/// chain and never growing.
pub proof fn lemma_ratio_fold_bounds(abs_tick: nat, k: nat)
    requires
        k <= 19,
    ensures
        magic_floor_chain(k) <= ratio_fold(abs_tick, k) <= p128(),
    decreases k,
{
    if k == 0 {
    } else {
        lemma_ratio_fold_bounds(abs_tick, (k - 1) as nat);
        let prev = ratio_fold(abs_tick, (k - 1) as nat);
        let m = tick_magic(k);
        let b = magic_floor_chain((k - 1) as nat);
        if (abs_tick / pow2(k)) % 2 == 1 {
            assert(prev * m / p128() <= prev) by {
                lemma_mul_left_inequality(prev as int, m as int, p128() as int);
                lemma_div_is_ordered(prev as int * m as int, prev as int * p128() as int, p128() as int);
                lemma_div_multiples_vanish(prev as int, p128() as int);
                lemma_mul_is_commutative(prev as int, p128() as int);
            }
            assert(magic_floor_chain(k) <= prev * m / p128()) by {
                assert(b * m >= magic_floor_chain(k) * p128());
                lemma_mul_inequality(b as int, prev as int, m as int);
                lemma_div_is_ordered(
                    magic_floor_chain(k) as int * p128() as int,
                    prev as int * m as int,
                    p128() as int,
                );
                lemma_div_multiples_vanish(magic_floor_chain(k) as int, p128() as int);
                lemma_mul_is_commutative(magic_floor_chain(k) as int, p128() as int);
            }
        } else {
            assert(magic_floor_chain(k) <= b);
        }
    }
}

/// Multiplies a ratio of at most 2^128 by a 128-bit magic constant and
/// shifts the 256-bit product right by 128.
fn mul_shift_128(a: U256, m: u128) -> (r: U256)
    requires
        a.v() <= p128(),
    ensures
        r.v() == a.v() * (m as nat) / p128(),
{
    let (lo, hi) = a.mul_full(U256 { lo: m, hi: 0 });
    proof {
        lemma_p128_p256();
        lo.lemma_v_bound();
        assert(a.v() * m < p256()) by {
            lemma_mul_upper_bound(a.v() as int, p128() as int, m as int, p128() as int - 1);
            assert(p128() * (p128() - 1) == p256() - p128()) by {
                lemma_mul_is_distributive_sub(p128() as int, p128() as int, 1);
            }
        }
        assert(hi.v() == 0) by {
            if hi.v() >= 1 {
                assert(hi.v() * p256() >= p256()) by (nonlinear_arith)
                    requires hi.v() >= 1;
            }
        }
        assert(lo.v() == a.v() * m);
        lemma_hoist_over_denominator(lo.lo as int, lo.hi as int, p128());
        lemma_basic_div(lo.lo as int, p128() as int);
        assert(lo.v() / p128() == lo.hi);
    }
    U256 { lo: lo.hi, hi: 0 }
}

/// One conditional multiply-and-shift of the tick folding.
fn fold_step(ratio: U256, abs_tick: u32, k: u32, pk: u32, m: u128) -> (r: U256)
    requires
        1 <= k <= 19,
        pk == pow2(k as nat),
        m == tick_magic(k as nat),
        ratio.v() == ratio_fold(abs_tick as nat, (k - 1) as nat),
        ratio.v() <= p128(),
    ensures
        r.v() == ratio_fold(abs_tick as nat, k as nat),
        r.v() <= p128(),
{
    proof {
        lemma_pow2_pos(k as nat);
    }
    if (abs_tick / pk) % 2 == 1 {
        let r = mul_shift_128(ratio, m);
        proof {
            assert(r.v() <= ratio.v()) by {
                lemma_mul_inequality(m as int, p128() as int, ratio.v() as int);
                lemma_mul_is_commutative(ratio.v() as int, m as int);
                lemma_div_is_ordered(
                    ratio.v() as int * m as int,
                    p128() as int * ratio.v() as int,
                    p128() as int,
                );
                lemma_div_multiples_vanish(ratio.v() as int, p128() as int);
                lemma_mul_is_commutative(ratio.v() as int, p128() as int);
            }
        }
        r
    } else {
        ratio
    }
}

/// The exact value `get_sqrt_ratio_at_tick` returns for an in-range tick:
/// the magic-constant evaluation of `ceil(1.0001^(tick/2) * 2^96)`.
#[verifier::opaque]
pub open spec fn sqrt_ratio_at_tick_spec(tick: int) -> nat
    recommends
        -887272 <= tick <= 887272,
{
    let a = (if tick < 0 { -tick } else { tick }) as nat;
    let folded = ratio_fold(a, 19);
    let rr: nat = if tick > 0 { ((p256() - 1) as nat) / folded } else { folded };
    rr / 0x100000000 + (if rr % 0x100000000 == 0 { 0nat } else { 1nat })
}

/// The Q64.96 square-root price for a tick; `TickOutOfRange` outside
/// `[MIN_TICK, MAX_TICK]`.
pub fn get_sqrt_ratio_at_tick(tick: i32) -> (r: Result<U256, UniswapV3MathError>)
    ensures
        match r {
            Ok(p) => MIN_TICK <= tick <= MAX_TICK && p.v() == sqrt_ratio_at_tick_spec(tick as int),
            Err(e) => (tick < MIN_TICK || tick > MAX_TICK) && e == UniswapV3MathError::T,
        },
{
    proof {
        reveal(sqrt_ratio_at_tick_spec);
    }
    if tick > MAX_TICK || tick < MIN_TICK {
        return Err(UniswapV3MathError::T);
    }
    let abs_tick: u32 = if tick < 0 {
        (-tick) as u32
    } else {
        tick as u32
    };
    proof {
        lemma2_to64();
        lemma_p128_p256();
    }
    let mut ratio: U256 = if abs_tick % 2 == 1 {
        U256 { lo: 0xfffcb933bd6fad37aa2d162d1a594001, hi: 0 }
    } else {
        U256 { lo: 0, hi: 1 }
    };
    ratio = fold_step(ratio, abs_tick, 1, 2, 0xfff97272373d413259a46990580e213a);
    ratio = fold_step(ratio, abs_tick, 2, 4, 0xfff2e50f5f656932ef12357cf3c7fdcc);
    ratio = fold_step(ratio, abs_tick, 3, 8, 0xffe5caca7e10e4e61c3624eaa0941cd0);
    ratio = fold_step(ratio, abs_tick, 4, 16, 0xffcb9843d60f6159c9db58835c926644);
    ratio = fold_step(ratio, abs_tick, 5, 32, 0xff973b41fa98c081472e6896dfb254c0);
    ratio = fold_step(ratio, abs_tick, 6, 64, 0xff2ea16466c96a3843ec78b326b52861);
    ratio = fold_step(ratio, abs_tick, 7, 128, 0xfe5dee046a99a2a811c461f1969c3053);
    ratio = fold_step(ratio, abs_tick, 8, 256, 0xfcbe86c7900a88aedcffc83b479aa3a4);
    ratio = fold_step(ratio, abs_tick, 9, 512, 0xf987a7253ac413176f2b074cf7815e54);
    ratio = fold_step(ratio, abs_tick, 10, 1024, 0xf3392b0822b70005940c7a398e4b70f3);
    ratio = fold_step(ratio, abs_tick, 11, 2048, 0xe7159475a2c29b7443b29c7fa6e889d9);
    ratio = fold_step(ratio, abs_tick, 12, 4096, 0xd097f3bdfd2022b8845ad8f792aa5825);
    ratio = fold_step(ratio, abs_tick, 13, 8192, 0xa9f746462d870fdf8a65dc1f90e061e5);
    ratio = fold_step(ratio, abs_tick, 14, 16384, 0x70d869a156d2a1b890bb3df62baf32f7);
    ratio = fold_step(ratio, abs_tick, 15, 32768, 0x31be135f97d08fd981231505542fcfa6);
    ratio = fold_step(ratio, abs_tick, 16, 65536, 0x9aa508b5b7a84e1c677de54f3e99bc9);
    ratio = fold_step(ratio, abs_tick, 17, 131072, 0x5d6af8dedb81196699c329225ee604);
    ratio = fold_step(ratio, abs_tick, 18, 262144, 0x2216e584f5fa1ea926041bedfe98);
    ratio = fold_step(ratio, abs_tick, 19, 524288, 0x48a170391f7dc42444e8fa2);
    proof {
        lemma_ratio_fold_bounds(abs_tick as nat, 19);
    }
    let ghost folded: nat = ratio.v();
    if tick > 0 {
        let mx = U256 { lo: u128::MAX, hi: u128::MAX };
        proof {
            assert(mx.v() == p256() - 1) by {
                assert((0x100000000000000000000000000000000int - 1)
                    * 0x100000000000000000000000000000000int
                    == p256() - 0x100000000000000000000000000000000int) by (nonlinear_arith);
            }
        }
        let (q, _discard) = mx.div_rem(ratio);
        ratio = q;
        proof {
            ratio.lemma_v_bound();
        }
    }
    let (q, rem) = ratio.div_rem(U256 { lo: 0x100000000, hi: 0 });
    if rem.is_zero() {
        Ok(q)
    } else {
        proof {
            ratio.lemma_v_bound();
            lemma_fundamental_div_mod(ratio.v() as int, 0x100000000);
            assert(q.v() + 1 < p256()) by (nonlinear_arith)
                requires
                    ratio.v() == 0x100000000 * q.v() + ratio.v() % 0x100000000,
                    ratio.v() % 0x100000000 >= 1,
                    ratio.v() < p256(),
                    q.v() >= 0,
            ;
            lemma_small_mod(q.v() + 1, p256());
        }
        Ok(q.wrapping_add(U256 { lo: 1, hi: 0 }))
    }
}


/// The fractional log2 bits that the squaring ladder extracts: `k` rounds,
/// the first contributing bit `49 + k` of the fixed-point logarithm.
pub open spec fn log2_frac(r: nat, k: nat) -> nat
    decreases k,
{
    if k == 0 {
        0
    } else {
        let r2 = r * r / pow2(127);
        let f = r2 / pow2(128);
        f * pow2((49 + k) as nat) + log2_frac(r2 / pow2(f), (k - 1) as nat)
    }
}

/// Runs the 14-round squaring ladder on a normalized mantissa and returns the
/// signed fixed-point log2 with 64 fractional bits.
fn log2_ladder(rnorm: U256, msb: u8) -> (log2: i128)
    requires
        pow2(127) <= rnorm.v() < pow2(128),
        64 <= msb <= 192,
    ensures
        log2 == (msb as int - 128) * pow2(64) + log2_frac(rnorm.v(), 14),
        log2_frac(rnorm.v(), 14) <= pow2(64) - pow2(50),
        -(64 * 0x10000000000000000) <= log2 < 65 * 0x10000000000000000,
{
    proof {
        lemma2_to64();
        lemma_p128_p256();
        assert((msb as int - 128) * 0x10000000000000000int <= 64 * 0x10000000000000000int
            && (msb as int - 128) * 0x10000000000000000int >= -(64 * 0x10000000000000000int))
            by (nonlinear_arith)
            requires -64 <= msb as int - 128 <= 64;
    }
    let mut log2: i128 = (msb as i128 - 128) * 0x10000000000000000;
    let mut rr = rnorm;
    let mut i: u32 = 0;
    let ghost rn0: nat = rnorm.v();
    let ghost base: int = (msb as int - 128) * pow2(64);
    let ghost mut acc: nat = 0;
    proof {
        lemma_pow2_adds(63, 1);
    }
    while i < 14
        invariant
            i <= 14,
            pow2(127) <= rr.v() < pow2(128),
            acc <= pow2(64) - pow2((64 - i) as nat),
            log2 == base + acc,
            base == (msb as int - 128) * pow2(64),
            -(64 * 0x10000000000000000) <= base <= 64 * 0x10000000000000000,
            pow2(64) == 0x10000000000000000,
            log2_frac(rn0, 14) == acc + log2_frac(rr.v(), (14 - i) as nat),
        decreases 14 - i,
    {
        let ghost rold: nat = rr.v();
        let (sq_lo, sq_hi) = rr.mul_full(rr);
        proof {
            lemma2_to64();
            lemma_p128_p256();
            lemma_pow2_adds(127, 1);
            lemma_pow2_adds(127, 2);
            lemma_pow2_adds(127, 127);
            lemma_pow2_adds(128, 128);
            assert(rold * rold < p256()) by {
                lemma_mul_strict_upper_bound(rold as int, pow2(128) as int, rold as int, pow2(128) as int);
            }
            assert(sq_hi.v() == 0) by {
                if sq_hi.v() >= 1 {
                    assert(sq_hi.v() * p256() >= p256()) by (nonlinear_arith)
                        requires sq_hi.v() >= 1;
                }
            }
            assert(rold * rold >= pow2(254)) by {
                lemma_mul_inequality(pow2(127) as int, rold as int, pow2(127) as int);
                lemma_mul_inequality(pow2(127) as int, rold as int, rold as int);
                lemma_mul_is_commutative(pow2(127) as int, rold as int);
                lemma_pow2_adds(127, 127);
            }
        }
        let r2 = sq_lo.shr(127);
        let ghost r2v: nat = r2.v();
        proof {
            assert(r2v == rold * rold / pow2(127));
            assert(r2v >= pow2(127)) by {
                lemma_div_is_ordered(pow2(254) as int, (rold * rold) as int, pow2(127) as int);
                lemma_pow2_adds(127, 127);
                lemma_div_multiples_vanish(pow2(127) as int, pow2(127) as int);
                lemma_mul_is_commutative(pow2(127) as int, pow2(127) as int);
                lemma_pow2_pos(127);
            }
            assert(r2v < pow2(129)) by {
                lemma_pow2_adds(127, 129);
                lemma_multiply_divide_lt((rold * rold) as int, pow2(127) as int, pow2(129) as int);
                lemma_pow2_adds(128, 128);
                lemma_pow2_adds(128, 1);
                assert(rold * rold < pow2(256));
                assert(pow2(256) == pow2(127) * pow2(129));
            }
            // the top bit of the shifted square is its high limb
            assert(r2.hi <= 1) by {
                if r2.hi >= 2 {
                    assert(r2.hi * p128() >= 2 * p128()) by (nonlinear_arith)
                        requires r2.hi >= 2;
                    lemma_pow2_adds(128, 1);
                }
            }
            assert(r2v / pow2(128) == r2.hi) by {
                lemma_hoist_over_denominator(r2.lo as int, r2.hi as int, p128());
                lemma_basic_div(r2.lo as int, p128() as int);
            }
        }
        let f: u128 = r2.hi;
        let term: i128 = if f == 1 {
            crate::u256::pow2_u128((63 - i) as u32) as i128
        } else {
            0
        };
        proof {
            lemma_pow2_strictly_increases((63 - i) as nat, 64);
            assert(acc + (if f == 1 { pow2((63 - i) as nat) } else { 0nat }) <= pow2(64)
                - pow2((64 - (i + 1)) as nat)) by {
                lemma_pow2_adds((63 - i) as nat, 1);
            }
        }
        log2 = log2 + term;
        let rr_next = if f == 1 {
            r2.shr(1)
        } else {
            r2
        };
        proof {
            lemma2_to64();
            // tie this round to one unfolding of the spec ladder
            assert(log2_frac(rold, (14 - i) as nat) == r2.hi * pow2((63 - i) as nat)
                + log2_frac(r2v / pow2(r2.hi as nat), (14 - (i + 1)) as nat)) by {
                assert((49 + (14 - i)) as nat == (63 - i) as nat);
            }
            if f == 1 {
                assert(rr_next.v() == r2v / 2);
                assert(r2v / pow2(1) == r2v / 2);
                assert(rr_next.v() >= pow2(127)) by {
                    assert(r2v >= pow2(128));
                    lemma_div_is_ordered(pow2(128) as int, r2v as int, 2);
                    lemma_pow2_adds(127, 1);
                    lemma_div_multiples_vanish(pow2(127) as int, 2);
                    lemma_mul_is_commutative(pow2(127) as int, 2);
                }
                assert(rr_next.v() < pow2(128)) by {
                    lemma_pow2_adds(128, 1);
                    lemma_multiply_divide_lt(r2v as int, 2, pow2(128) as int);
                }
            } else {
                assert(r2v / pow2(0) == r2v) by {
                    lemma_div_basics(r2v as int);
                }
                assert(rr_next.v() < pow2(128)) by {
                    assert(r2.hi == 0);
                    assert(r2v == r2.lo);
                }
            }
            acc = acc + (if f == 1 { pow2((63 - i) as nat) } else { 0nat });
            assert(r2.hi as nat * pow2((63 - i) as nat) == (if f == 1 {
                pow2((63 - i) as nat)
            } else {
                0nat
            })) by {
                lemma_mul_basics(pow2((63 - i) as nat) as int);
            }
            assert(rr_next.v() == r2v / pow2(r2.hi as nat));
            assert(log2_frac(rn0, 14) == acc + log2_frac(rr_next.v(), (14 - (i + 1)) as nat));
        }
        rr = rr_next;
        i = i + 1;
    }
    proof {
        assert(log2_frac(rr.v(), 0) == 0);
        lemma_pow2_pos((64 - i) as nat);
        assert(acc < pow2(64));
    }
    log2
}

/// The exact tick `get_tick_at_sqrt_ratio` returns for an in-range price:
/// the fixed-point log2 bracketing, corrected by one ratio lookup.
#[verifier::opaque]
pub open spec fn tick_at_sqrt_ratio_spec(p: nat) -> Result<int, UniswapV3MathError> {
    let ratio = p * pow2(32);
    let msb = crate::bit_math::naive_msb(ratio);
    let rnorm = if msb >= 128 {
        ratio / pow2((msb - 127) as nat)
    } else {
        ratio * pow2((127 - msb) as nat)
    };
    let lg: int = (msb - 128) * pow2(64) + log2_frac(rnorm, 14);
    let ls: int = lg * 255738958999603826347141;
    let tick_low: int = (ls - 3402992956809132418596140100660247210) / (p128() as int);
    let tick_high: int = (ls + 291339464771989622907027621153398088495) / (p128() as int);
    if tick_low == tick_high {
        Ok(tick_low)
    } else if -887272 <= tick_high <= 887272 {
        Ok(
            if sqrt_ratio_at_tick_spec(tick_high) <= p {
                tick_high
            } else {
                tick_low
            },
        )
    } else {
        Err(UniswapV3MathError::T)
    }
}


/// The greatest tick whose price is at most `sqrt_price_x_96`;
/// `PriceOutOfRange` outside `[MIN_SQRT_RATIO, MAX_SQRT_RATIO)`.
#[verifier::rlimit(80)]
pub fn get_tick_at_sqrt_ratio(sqrt_price_x_96: U256) -> (r: Result<i32, UniswapV3MathError>)
    ensures
        match r {
            Ok(t) => 4295128739 <= sqrt_price_x_96.v()
                < 1461446703485210103287273052203988822378723970342 && tick_at_sqrt_ratio_spec(
                sqrt_price_x_96.v(),
            ) == Ok::<int, UniswapV3MathError>(t as int) && -887273 <= t <= 887272,
            Err(e) => !(4295128739 <= sqrt_price_x_96.v()
                < 1461446703485210103287273052203988822378723970342) && e
                == UniswapV3MathError::R,
        },
{
    let minr = min_sqrt_ratio();
    let maxr = max_sqrt_ratio();
    if sqrt_price_x_96.lt(&minr) || !sqrt_price_x_96.lt(&maxr) {
        return Err(UniswapV3MathError::R);
    }
    proof {
        reveal(tick_at_sqrt_ratio_spec);
        lemma2_to64();
        lemma_p128_p256();
    }
    let ghost sp: nat = sqrt_price_x_96.v();
    let ghost ratv: nat = sp * pow2(32);
    let ratio = sqrt_price_x_96.shl(32);
    proof {
        assert(ratv < p256()) by (nonlinear_arith)
            requires
                ratv == sp * pow2(32),
                sp < 1461446703485210103287273052203988822378723970342,
                pow2(32) == 0x100000000,
                p256() == 0x10000000000000000000000000000000000000000000000000000000000000000,
        ;
        lemma_small_mod(ratv, p256());
        assert(ratio.v() == ratv);
        assert(ratv >= 4295128739 * pow2(32)) by {
            lemma_mul_inequality(4295128739, sp as int, pow2(32) as int);
        }
    }
    let msb: u8;
    match crate::bit_math::most_significant_bit(ratio) {
        Ok(m) => {
            msb = m;
        },
        Err(e) => {
            proof {
                assert(false);
            }
            return Err(e);
        },
    }
    proof {
        // the price bounds pin the magnitude: 2^64 <= ratio < 2^193
        assert(ratv >= pow2(64)) by {
            lemma_pow2_adds(32, 32);
            assert(4295128739 * pow2(32) >= pow2(32) * pow2(32)) by {
                lemma_mul_inequality(pow2(32) as int, 4295128739, pow2(32) as int);
            }
        }
        assert(ratv < pow2(192)) by {
            lemma_pow2_adds(128, 32);
            assert(sp <= pow2(160) - 1);
            lemma_mul_inequality(sp as int, pow2(160) as int - 1, pow2(32) as int);
            lemma_mul_is_distributive_sub_other_way(pow2(32) as int, pow2(160) as int, 1);
            lemma_pow2_adds(160, 32);
        }
        assert(64 <= msb <= 191) by {
            if msb < 64 {
                if msb + 1 < 64 {
                    lemma_pow2_strictly_increases((msb + 1) as nat, 64);
                }
            }
            if msb > 191 {
                if msb > 192 {
                    lemma_pow2_strictly_increases(192, msb as nat);
                }
            }
        }
    }
    let rnorm: U256;
    if msb >= 128 {
        rnorm = ratio.shr((msb - 127) as u32);
        proof {
            lemma_pow2_pos((msb - 127) as nat);
            assert(rnorm.v() >= pow2(127)) by {
                lemma_pow2_adds(127, (msb - 127) as nat);
                lemma_div_is_ordered(
                    pow2(msb as nat) as int,
                    ratv as int,
                    pow2((msb - 127) as nat) as int,
                );
                lemma_div_multiples_vanish(pow2(127) as int, pow2((msb - 127) as nat) as int);
                lemma_mul_is_commutative(pow2(127) as int, pow2((msb - 127) as nat) as int);
            }
            assert(rnorm.v() < pow2(128)) by {
                lemma_pow2_adds(128, (msb - 127) as nat);
                lemma_mul_is_commutative(pow2(128) as int, pow2((msb - 127) as nat) as int);
                lemma_multiply_divide_lt(
                    ratv as int,
                    pow2((msb - 127) as nat) as int,
                    pow2(128) as int,
                );
            }
        }
    } else {
        rnorm = ratio.shl((127 - msb) as u32);
        proof {
            lemma_pow2_pos((127 - msb) as nat);
            assert(ratv * pow2((127 - msb) as nat) < pow2(128)) by {
                assert(ratv <= pow2((msb + 1) as nat) - 1);
                lemma_mul_inequality(
                    ratv as int,
                    pow2((msb + 1) as nat) as int - 1,
                    pow2((127 - msb) as nat) as int,
                );
                lemma_mul_is_distributive_sub_other_way(
                    pow2((127 - msb) as nat) as int,
                    pow2((msb + 1) as nat) as int,
                    1,
                );
                lemma_pow2_adds((msb + 1) as nat, (127 - msb) as nat);
            }
            assert(pow2(128) < p256()) by {
                lemma_pow2_strictly_increases(128, 256);
            }
            lemma_small_mod((ratv * pow2((127 - msb) as nat)) as nat, p256());
            assert(rnorm.v() >= pow2(127)) by {
                lemma_mul_inequality(
                    pow2(msb as nat) as int,
                    ratv as int,
                    pow2((127 - msb) as nat) as int,
                );
                lemma_pow2_adds(msb as nat, (127 - msb) as nat);
                lemma_mul_is_commutative(pow2(msb as nat) as int, pow2((127 - msb) as nat) as int);
            }
        }
    }
    let lg = log2_ladder(rnorm, msb);
    let ghost ls: int = ((msb as int - 128) * pow2(64) + log2_frac(rnorm.v(), 14))
        * 255738958999603826347141;
    let neg = lg < 0;
    let mag: u128 = if neg {
        (-lg) as u128
    } else {
        lg as u128
    };
    let kq = U256 { lo: 255738958999603826347141, hi: 0 };
    let (lsm, ls_hi) = U256 { lo: mag, hi: 0 }.mul_full(kq);
    proof {
        // the tick candidates stay inside the tick range: a positive log is
        // at most 64*2^64 - 2^50, a negative one at most 64*2^64 in magnitude
        lemma2_to64();
        lemma2_to64_rest();
        assert((msb as int - 128) * pow2(64) <= 63 * pow2(64)) by {
            lemma_mul_inequality(msb as int - 128, 63, pow2(64) as int);
        }
        assert((msb as int - 128) * pow2(64) >= (-64) * pow2(64)) by {
            lemma_mul_inequality(-64, msb as int - 128, pow2(64) as int);
        }
        assert(!neg ==> mag <= 64 * 0x10000000000000000 - 0x4000000000000);
        assert(neg ==> mag <= 64 * 0x10000000000000000);
        assert(mag < 65 * 0x10000000000000000);
        assert(mag as nat * 255738958999603826347141 < 949998
            * 0x100000000000000000000000000000000) by (nonlinear_arith)
            requires
                mag < 65 * 0x10000000000000000,
        ;
        assert(949998 * 0x100000000000000000000000000000000int < p256() as int);
        assert(ls_hi.v() == 0) by {
            if ls_hi.v() >= 1 {
                assert(ls_hi.v() * p256() >= p256()) by (nonlinear_arith)
                    requires ls_hi.v() >= 1;
            }
        }
        assert(lsm.v() == mag as nat * 255738958999603826347141);
        assert(lsm.v() < 949998 * p128());
        assert(!neg ==> lsm.v() <= (64 * 0x10000000000000000 - 0x4000000000000)
            * 255738958999603826347141) by {
            if !neg {
                lemma_mul_inequality(
                    mag as int,
                    64 * 0x10000000000000000int - 0x4000000000000,
                    255738958999603826347141int,
                );
            }
        }
        assert(neg ==> lsm.v() <= 64 * 0x10000000000000000 * 255738958999603826347141) by {
            if neg {
                lemma_mul_inequality(
                    mag as int,
                    64 * 0x10000000000000000int,
                    255738958999603826347141int,
                );
            }
        }
        // ground bounds that keep every candidate tick inside the range
        assert((64 * 0x10000000000000000int - 0x4000000000000)
            * 255738958999603826347141 + 291339464771989622907027621153398088495
            < 887273 * 0x100000000000000000000000000000000);
        assert(64 * 0x10000000000000000int * 255738958999603826347141
            + 3402992956809132418596140100660247210
            < 887273 * 0x100000000000000000000000000000000);
        assert(64 * 0x10000000000000000int * 255738958999603826347141
            <= 887272 * 0x100000000000000000000000000000000
            + 291339464771989622907027621153398088495);
        assert(ls == (if neg { -(lsm.v() as int) } else { lsm.v() as int })) by (nonlinear_arith)
            requires
                lsm.v() == mag as nat * 255738958999603826347141,
                (if neg { mag as int == -((msb as int - 128) * pow2(64) + log2_frac(rnorm.v(), 14)) } else { mag as int == (msb as int - 128) * pow2(64) + log2_frac(rnorm.v(), 14) }),
                ls == ((msb as int - 128) * pow2(64) + log2_frac(rnorm.v(), 14))
                    * 255738958999603826347141,
        ;
    }
    let ghost c1v: int = 3402992956809132418596140100660247210;
    let ghost c2v: int = 291339464771989622907027621153398088495;
    let ghost tlow_spec: int = (ls - c1v) / (p128() as int);
    let ghost thigh_spec: int = (ls + c2v) / (p128() as int);
    let c1 = U256 { lo: 3402992956809132418596140100660247210, hi: 0 };
    let c2 = U256 { lo: 291339464771989622907027621153398088495, hi: 0 };
    let tick_low: i32;
    if !neg {
        match lsm.checked_sub(c1) {
            Some(d) => {
                proof {
                    d.lemma_v_bound();
                    lemma_hoist_over_denominator(d.lo as int, d.hi as int, p128());
                    lemma_basic_div(d.lo as int, p128() as int);
                    assert(d.v() / p128() == d.hi);
                    assert(d.hi < 887273) by {
                        lemma_multiply_divide_lt(d.v() as int, p128() as int, 887273);
                        lemma_mul_is_commutative(887273, p128() as int);
                    }
                    assert(tlow_spec == d.hi as int);
                }
                tick_low = d.hi as i32;
            },
            None => {
                let (d, _b) = c1.overflowing_sub(lsm);
                tick_low = if d.is_zero() {
                    0
                } else {
                    -1
                };
                proof {
                    assert(d.v() as int == c1v - lsm.v());
                    if d.v() == 0 {
                        lemma_div_of0(p128() as int);
                    } else {
                        assert(ls - c1v == (-1) * (p128() as int) + (p128() - d.v())) by (nonlinear_arith)
                            requires ls - c1v == -(d.v() as int);
                        lemma_fundamental_div_mod_converse(
                            ls - c1v,
                            p128() as int,
                            -1,
                            p128() - d.v(),
                        );
                    }
                }
            },
        }
    } else {
        let (t, c) = lsm.overflowing_add(c1);
        proof {
            assert(!c);
            assert(t.v() < 887273 * p128());
            assert(t.hi < 887273) by {
                lemma_hoist_over_denominator(t.lo as int, t.hi as int, p128());
                lemma_basic_div(t.lo as int, p128() as int);
                lemma_multiply_divide_lt(t.v() as int, p128() as int, 887273);
                lemma_mul_is_commutative(887273, p128() as int);
            }
        }
        if t.lo == 0 {
            tick_low = -(t.hi as i32);
            proof {
                assert(ls - c1v == (-(t.hi as int)) * (p128() as int) + 0) by (nonlinear_arith)
                    requires
                        ls - c1v == -(t.v() as int),
                        t.v() == t.hi as nat * p128(),
                ;
                lemma_fundamental_div_mod_converse(ls - c1v, p128() as int, -(t.hi as int), 0);
            }
        } else {
            tick_low = -(t.hi as i32) - 1;
            proof {
                assert(ls - c1v == (-(t.hi as int) - 1) * (p128() as int) + (p128() - t.lo))
                    by (nonlinear_arith)
                    requires
                        ls - c1v == -(t.v() as int),
                        t.v() == t.lo + t.hi as nat * p128(),
                ;
                lemma_fundamental_div_mod_converse(
                    ls - c1v,
                    p128() as int,
                    -(t.hi as int) - 1,
                    p128() - t.lo,
                );
            }
        }
    }
    let tick_high: i32;
    if !neg {
        let (t, c) = lsm.overflowing_add(c2);
        proof {
            assert(!c);
            assert(t.v() < 887273 * p128());
            assert(t.hi < 887273) by {
                lemma_hoist_over_denominator(t.lo as int, t.hi as int, p128());
                lemma_basic_div(t.lo as int, p128() as int);
                lemma_multiply_divide_lt(t.v() as int, p128() as int, 887273);
                lemma_mul_is_commutative(887273, p128() as int);
            }
            assert(thigh_spec == t.hi as int) by {
                lemma_hoist_over_denominator(t.lo as int, t.hi as int, p128());
                lemma_basic_div(t.lo as int, p128() as int);
            }
        }
        tick_high = t.hi as i32;
    } else {
        if lsm.le(&c2) {
            let (d, _b) = c2.overflowing_sub(lsm);
            proof {
                d.lemma_v_bound();
                lemma_hoist_over_denominator(d.lo as int, d.hi as int, p128());
                lemma_basic_div(d.lo as int, p128() as int);
                assert(d.hi < 887273) by {
                    lemma_multiply_divide_lt(d.v() as int, p128() as int, 887273);
                    lemma_mul_is_commutative(887273, p128() as int);
                }
                assert(thigh_spec == d.hi as int);
            }
            tick_high = d.hi as i32;
        } else {
            let (d, _b) = lsm.overflowing_sub(c2);
            proof {
                assert(d.v() as int == lsm.v() - c2v);
                assert(d.v() <= 887272 * p128());
                assert(d.hi <= 887272) by {
                    lemma_hoist_over_denominator(d.lo as int, d.hi as int, p128());
                    lemma_basic_div(d.lo as int, p128() as int);
                    if d.hi >= 887273 {
                        assert(d.hi as int * p128() >= 887273 * p128()) by {
                            lemma_mul_inequality(887273, d.hi as int, p128() as int);
                        }
                    }
                }
                assert(d.lo != 0 ==> d.hi <= 887271) by {
                    if d.lo != 0 && d.hi >= 887272 {
                        assert(d.hi as int * p128() >= 887272 * p128()) by {
                            lemma_mul_inequality(887272, d.hi as int, p128() as int);
                        }
                    }
                }
            }
            if d.lo == 0 {
                tick_high = -(d.hi as i32);
                proof {
                    assert(ls + c2v == (-(d.hi as int)) * (p128() as int) + 0) by (nonlinear_arith)
                        requires
                            ls + c2v == -(d.v() as int),
                            d.v() == d.hi as nat * p128(),
                    ;
                    lemma_fundamental_div_mod_converse(
                        ls + c2v,
                        p128() as int,
                        -(d.hi as int),
                        0,
                    );
                }
            } else {
                tick_high = -(d.hi as i32) - 1;
                proof {
                    assert(ls + c2v == (-(d.hi as int) - 1) * (p128() as int) + (p128() - d.lo))
                        by (nonlinear_arith)
                        requires
                            ls + c2v == -(d.v() as int),
                            d.v() == d.lo + d.hi as nat * p128(),
                    ;
                    lemma_fundamental_div_mod_converse(
                        ls + c2v,
                        p128() as int,
                        -(d.hi as int) - 1,
                        p128() - d.lo,
                    );
                }
            }
        }
    }
    proof {
        assert(tick_low as int == tlow_spec);
        assert(tick_high as int == thigh_spec);
        assert(-887273 <= tick_low <= 887272);
        assert(-887272 <= tick_high <= 887272);
    }
    if tick_low == tick_high {
        Ok(tick_low)
    } else {
        match get_sqrt_ratio_at_tick(tick_high) {
            Err(e) => {
                proof {
                    // both candidate ticks were just shown to be in range
                    assert(false);
                }
                Err(e)
            },
            Ok(rat) => {
                if rat.le(&sqrt_price_x_96) {
                    Ok(tick_high)
                } else {
                    Ok(tick_low)
                }
            },
        }
    }
}

/// `tick / tick_spacing` rounded toward negative infinity.
pub fn calculate_compressed(tick: i32, tick_spacing: i32) -> (r: i32)
    requires
        tick_spacing >= 1,
        tick > i32::MIN,
    ensures
        r as int == tick as int / tick_spacing as int,
{
    if tick >= 0 {
        let q = (tick as u32) / (tick_spacing as u32);
        q as i32
    } else {
        let a = (-tick) as u32;
        let qq = a / (tick_spacing as u32);
        let rr = a % (tick_spacing as u32);
        if rr == 0 {
            proof {
                lemma_fundamental_div_mod(a as int, tick_spacing as int);
                assert(tick as int == (-(qq as int)) * (tick_spacing as int) + 0)
                    by (nonlinear_arith)
                    requires
                        a as int == qq as int * tick_spacing as int + rr,
                        rr == 0,
                        tick as int == -(a as int),
                ;
                lemma_fundamental_div_mod_converse(
                    tick as int,
                    tick_spacing as int,
                    -(qq as int),
                    0,
                );
            }
            -(qq as i32)
        } else {
            proof {
                lemma_fundamental_div_mod(a as int, tick_spacing as int);
                lemma_mod_division_less_than_divisor(a as int, tick_spacing as int);
                assert(tick as int == (-(qq as int) - 1) * (tick_spacing as int) + (tick_spacing
                    - rr)) by (nonlinear_arith)
                    requires
                        a as int == qq as int * tick_spacing as int + rr,
                        tick as int == -(a as int),
                ;
                lemma_fundamental_div_mod_converse(
                    tick as int,
                    tick_spacing as int,
                    -(qq as int) - 1,
                    tick_spacing - rr,
                );
            }
            -(qq as i32) - 1
        }
    }
}

} // verus!
