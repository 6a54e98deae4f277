use vstd::prelude::*;
use vstd::arithmetic::power2::*;
use vstd::arithmetic::div_mod::*;
use vstd::arithmetic::mul::*;
use crate::error::UniswapV3MathError;
use crate::u256::{U256, p256, lemma_p128_p256};
use crate::bit_math::{most_significant_bit, least_significant_bit, naive_msb, naive_lsb};
use crate::TicksProvider;

verus! {

/// Word index and bit index of a compressed tick in the bitmap.
pub fn position(tick: i32) -> (r: (i16, u8))
    requires
        -8388608 <= tick < 8388608,
    ensures
        r.0 as int == tick as int / 256,
        r.1 as int == tick as int % 256,
{
    if tick >= 0 {
        let t = tick as u32;
        ((t / 256) as i16, (t % 256) as u8)
    } else {
        let a = (-(tick + 1)) as u32;
        let q = a / 256;
        let rm = a % 256;
        proof {
            lemma_fundamental_div_mod(a as int, 256);
            lemma_mod_division_less_than_divisor(a as int, 256);
            assert(tick as int == (-(q as int) - 1) * 256 + (255 - rm)) by (nonlinear_arith)
                requires
                    a as int == 256 * (q as int) + rm,
                    tick as int == -(a as int) - 1,
            ;
            lemma_fundamental_div_mod_converse(tick as int, 256, -(q as int) - 1, 255 - rm);
        }
        ((-(q as i32) - 1) as i16, (255 - rm) as u8)
    }
}

/// What the next-tick scan returns when searching at or below the bit.
pub open spec fn next_tick_le_spec(bit_pos: nat, wordv: nat, spacing: int, compressed: int)
    -> (int, bool) {
    let masked = wordv % pow2(bit_pos + 1);
    if masked != 0 {
        ((compressed - (bit_pos - naive_msb(masked))) * spacing, true)
    } else {
        ((compressed - bit_pos) * spacing, false)
    }
}

/// What the next-tick scan returns when searching strictly above the bit.
pub open spec fn next_tick_gt_spec(bit_pos: nat, wordv: nat, spacing: int, compressed: int)
    -> (int, bool) {
    let shifted = wordv / pow2(bit_pos);
    let masked = shifted * pow2(bit_pos);
    if shifted != 0 {
        ((compressed + 1 + (naive_lsb(masked) - bit_pos)) * spacing, true)
    } else {
        ((compressed + 1 + (255 - bit_pos)) * spacing, false)
    }
}

/// Finds the next initialized tick within the bitmap word that holds
/// `bit_pos`: at or below it when `lte`, strictly above it otherwise.
#[verifier::rlimit(60)]
pub fn next_initialized_tick_within_one_word(
    bit_pos: u8,
    word: U256,
    tick_spacing: i32,
    lte: bool,
    compressed: i32,
) -> (r: Result<(i32, bool), UniswapV3MathError>)
    requires
        tick_spacing >= 1,
        (compressed - 255) * tick_spacing >= i32::MIN,
        (compressed + 256) * tick_spacing <= i32::MAX,
    ensures
        r matches Ok(v) && ({
            let s = if lte {
                next_tick_le_spec(bit_pos as nat, word.v(), tick_spacing as int, compressed as int)
            } else {
                next_tick_gt_spec(bit_pos as nat, word.v(), tick_spacing as int, compressed as int)
            };
            v.0 == s.0 && v.1 == s.1
        }),
{
    proof {
        lemma_p128_p256();
        word.lemma_v_bound();
    }
    if lte {
        let masked: U256;
        if bit_pos == 255 {
            masked = word;
            proof {
                lemma_small_mod(word.v(), pow2(256));
            }
        } else {
            let modulus = U256 { lo: 1, hi: 0 }.shl((bit_pos + 1) as u32);
            proof {
                lemma_pow2_strictly_increases((bit_pos + 1) as nat, 256);
                lemma_small_mod(1 * pow2((bit_pos + 1) as nat), p256());
                lemma_mul_basics_1(pow2((bit_pos + 1) as nat) as int);
                lemma_pow2_pos((bit_pos + 1) as nat);
            }
            let (_q, rm) = word.div_rem(modulus);
            masked = rm;
        }
        let initialized = !masked.is_zero();
        let next: i32;
        if initialized {
            let msb: u8;
            match most_significant_bit(masked) {
                Ok(m) => {
                    msb = m;
                },
                Err(e) => {
                    proof {
                        assert(false);
                    }
                    return Err(e);
                },
            }
            proof {
                // a bit inside the mask cannot lie above the mask boundary
                lemma_pow2_pos((bit_pos + 1) as nat);
                lemma_mod_division_less_than_divisor(word.v() as int, pow2((bit_pos + 1) as nat) as int);
                assert(msb <= bit_pos) by {
                    if msb > bit_pos {
                        lemma_pow2_strictly_increases((bit_pos + 1) as nat, (msb) as nat);
                        if (bit_pos + 1) as nat == msb as nat {
                        }
                    }
                }
                lemma_mul_bounds_i32(compressed as int, (bit_pos - msb) as int, tick_spacing as int);
            }
            next = (compressed - (bit_pos - msb) as i32) * tick_spacing;
        } else {
            proof {
                lemma_mul_bounds_i32(compressed as int, bit_pos as int, tick_spacing as int);
            }
            next = (compressed - bit_pos as i32) * tick_spacing;
        }
        Ok((next, initialized))
    } else {
        let shifted = word.shr(bit_pos as u32);
        let initialized = !shifted.is_zero();
        let next: i32;
        if initialized {
            let masked = shifted.shl(bit_pos as u32);
            proof {
                // shifting back reconstructs the masked word without wrap
                lemma_pow2_pos(bit_pos as nat);
                lemma_fundamental_div_mod(word.v() as int, pow2(bit_pos as nat) as int);
                lemma_mod_division_less_than_divisor(word.v() as int, pow2(bit_pos as nat) as int);
                assert(shifted.v() * pow2(bit_pos as nat) <= word.v()) by {
                    lemma_mul_is_commutative(shifted.v() as int, pow2(bit_pos as nat) as int);
                }
                lemma_small_mod(shifted.v() * pow2(bit_pos as nat), p256());
            }
            let lsb: u8;
            match least_significant_bit(masked) {
                Ok(m) => {
                    lsb = m;
                },
                Err(e) => {
                    proof {
                        lemma_mul_strictly_positive(shifted.v() as int, pow2(bit_pos as nat) as int);
                        assert(false);
                    }
                    return Err(e);
                },
            }
            proof {
                // the lowest set bit of the masked word is at or above bit_pos
                assert(lsb >= bit_pos) by {
                    if lsb < bit_pos {
                        let m = masked.v();
                        lemma_pow2_pos(lsb as nat);
                        lemma_pow2_adds(lsb as nat, (bit_pos - lsb) as nat);
                        lemma_fundamental_div_mod(m as int, pow2(lsb as nat) as int);
                        assert(m / pow2(lsb as nat) == shifted.v() * pow2((bit_pos - lsb) as nat))
                            by {
                            lemma_div_multiples_vanish(
                                (shifted.v() * pow2((bit_pos - lsb) as nat)) as int,
                                pow2(lsb as nat) as int,
                            );
                            assert(m == (shifted.v() * pow2((bit_pos - lsb) as nat)) * pow2(
                                lsb as nat,
                            )) by (nonlinear_arith)
                                requires
                                    m == shifted.v() * pow2(bit_pos as nat),
                                    pow2(bit_pos as nat) == pow2(lsb as nat) * pow2(
                                        (bit_pos - lsb) as nat,
                                    ),
                            ;
                            lemma_mul_is_commutative(
                                (shifted.v() * pow2((bit_pos - lsb) as nat)) as int,
                                pow2(lsb as nat) as int,
                            );
                        }
                        assert((m / pow2(lsb as nat)) % 2 == 0) by {
                            lemma_pow2_adds(1, (bit_pos - lsb - 1) as nat);
                            lemma2_to64();
                            assert(shifted.v() * pow2((bit_pos - lsb) as nat) == 2 * (shifted.v()
                                * pow2((bit_pos - lsb - 1) as nat))) by (nonlinear_arith)
                                requires
                                    pow2((bit_pos - lsb) as nat) == 2 * pow2(
                                        (bit_pos - lsb - 1) as nat,
                                    ),
                            ;
                            lemma_mod_multiples_basic(
                                (shifted.v() * pow2((bit_pos - lsb - 1) as nat)) as int,
                                2,
                            );
                        }
                    }
                }
                lemma_mul_bounds_i32_hi(compressed as int, 1 + (lsb - bit_pos) as int, tick_spacing as int);
            }
            next = (compressed + 1 + (lsb - bit_pos) as i32) * tick_spacing;
        } else {
            proof {
                lemma_mul_bounds_i32_hi(compressed as int, 1 + (255 - bit_pos) as int, tick_spacing as int);
                assert(shifted.v() * pow2(bit_pos as nat) == 0) by {
                    lemma_mul_by_zero_is_zero(pow2(bit_pos as nat) as int);
                }
            }
            next = (compressed + 1 + (255 - bit_pos) as i32) * tick_spacing;
        }
        Ok((next, initialized))
    }
}

/// The product `(compressed - d) * spacing` fits in `i32` for any offset
/// `d` up to 255.
proof fn lemma_mul_bounds_i32(compressed: int, d: int, spacing: int)
    requires
        spacing >= 1,
        0 <= d <= 255,
        (compressed - 255) * spacing >= i32::MIN,
        (compressed + 256) * spacing <= i32::MAX,
    ensures
        i32::MIN <= (compressed - d) * spacing <= i32::MAX,
        i32::MIN <= compressed - d,
        compressed <= i32::MAX,
{
    lemma_mul_inequality(compressed - 255, compressed - d, spacing);
    lemma_mul_inequality(compressed - d, compressed + 256, spacing);
    lemma_factor_within_i32(compressed, spacing);
}

/// The product `(compressed + u) * spacing` fits in `i32` for any offset
/// `u` up to 256.
proof fn lemma_mul_bounds_i32_hi(compressed: int, u: int, spacing: int)
    requires
        spacing >= 1,
        0 <= u <= 256,
        (compressed - 255) * spacing >= i32::MIN,
        (compressed + 256) * spacing <= i32::MAX,
    ensures
        i32::MIN <= (compressed + u) * spacing <= i32::MAX,
        compressed + u <= i32::MAX,
        i32::MIN <= compressed,
{
    lemma_mul_inequality(compressed - 255, compressed + u, spacing);
    lemma_mul_inequality(compressed + u, compressed + 256, spacing);
    lemma_factor_within_i32(compressed, spacing);
}

/// With the scaled end points inside `i32`, so is every factor in between.
proof fn lemma_factor_within_i32(compressed: int, spacing: int)
    requires
        spacing >= 1,
        (compressed - 255) * spacing >= i32::MIN,
        (compressed + 256) * spacing <= i32::MAX,
    ensures
        compressed - 255 >= i32::MIN,
        compressed + 256 <= i32::MAX,
{
    if compressed - 255 < 0 {
        assert((compressed - 255) * spacing <= compressed - 255) by (nonlinear_arith)
            requires
                compressed - 255 < 0,
                spacing >= 1,
        ;
    }
    if compressed + 256 >= 0 {
        assert((compressed + 256) * spacing >= compressed + 256) by (nonlinear_arith)
            requires
                compressed + 256 >= 0,
                spacing >= 1,
        ;
    }
}

/// Whether a scan outcome is the one the word `wv` dictates.
pub open spec fn provider_scan_matches(
    wv: nat,
    tick: int,
    spacing: int,
    lte: bool,
    next: int,
    initialized: bool,
) -> bool {
    let c = tick / spacing;
    let s = if lte {
        next_tick_le_spec((c % 256) as nat, wv, spacing, c)
    } else {
        next_tick_gt_spec((((c + 1) % 256)) as nat, wv, spacing, c)
    };
    next == s.0 && initialized == s.1
}

/// As `next_initialized_tick_within_one_word`, but fetching the word from
/// the provider; the result is the scan of whatever word the provider gave.
pub fn next_initialized_tick_within_one_word_from_provider<P: TicksProvider>(
    tick: i32,
    tick_spacing: i32,
    lte: bool,
    data_provider: &P,
) -> (r: Result<(i32, bool), UniswapV3MathError>)
    requires
        1 <= tick_spacing <= 32767,
        -8000000 <= tick <= 8000000,
    ensures
        r matches Ok(v) ==> exists|wv: nat|
            #[trigger] provider_scan_matches(
                wv,
                tick as int,
                tick_spacing as int,
                lte,
                v.0 as int,
                v.1,
            ),
{
    let compressed = crate::tick_math::calculate_compressed(tick, tick_spacing);
    proof {
        lemma_scan_products_fit(tick as int, tick_spacing as int);
    }
    if lte {
        let (word_pos, bit_pos) = position(compressed);
        let word = match data_provider.get_word_at_position(word_pos) {
            Ok(w) => w,
            Err(e) => {
                return Err(e);
            },
        };
        let r = next_initialized_tick_within_one_word(
            bit_pos,
            word,
            tick_spacing,
            true,
            compressed,
        );
        proof {
            match r {
                Ok(v) => {
                    assert(provider_scan_matches(
                        word.v(),
                        tick as int,
                        tick_spacing as int,
                        lte,
                        v.0 as int,
                        v.1,
                    ));
                },
                Err(_) => {},
            }
        }
        r
    } else {
        let (word_pos, bit_pos) = position(compressed + 1);
        let word = match data_provider.get_word_at_position(word_pos) {
            Ok(w) => w,
            Err(e) => {
                return Err(e);
            },
        };
        let r = next_initialized_tick_within_one_word(
            bit_pos,
            word,
            tick_spacing,
            false,
            compressed,
        );
        proof {
            match r {
                Ok(v) => {
                    assert(provider_scan_matches(
                        word.v(),
                        tick as int,
                        tick_spacing as int,
                        lte,
                        v.0 as int,
                        v.1,
                    ));
                },
                Err(_) => {},
            }
        }
        r
    }
}

/// With a positive spacing the compressed tick sits close enough to zero for
/// every product the scan forms to fit in 32 bits.
pub proof fn lemma_scan_products_fit(tick: int, spacing: int)
    requires
        1 <= spacing <= 32767,
        -8000000 <= tick <= 8000000,
    ensures
        -8000000 <= tick / spacing <= 8000000,
        ((tick / spacing) - 255) * spacing >= i32::MIN,
        ((tick / spacing) + 256) * spacing <= i32::MAX,
{
    lemma_fundamental_div_mod(tick, spacing);
    lemma_mod_division_less_than_divisor(tick, spacing);
    let q = tick / spacing;
    assert(-8000000 <= q <= 8000000) by (nonlinear_arith)
        requires
            tick == spacing * q + tick % spacing,
            0 <= tick % spacing < spacing,
            1 <= spacing <= 32767,
            -8000000 <= tick <= 8000000,
    ;
    assert((q - 255) * spacing == q * spacing - 255 * spacing) by {
        lemma_mul_is_distributive_sub_other_way(spacing, q, 255);
    }
    assert((q + 256) * spacing == q * spacing + 256 * spacing) by {
        lemma_mul_is_distributive_add_other_way(spacing, q, 256);
    }
    assert(tick - spacing < q * spacing <= tick) by (nonlinear_arith)
        requires
            tick == spacing * q + tick % spacing,
            0 <= tick % spacing < spacing,
    ;
    assert(255 * spacing <= 255 * 32767) by (nonlinear_arith)
        requires 1 <= spacing <= 32767;
    assert(256 * spacing <= 256 * 32767) by (nonlinear_arith)
        requires 1 <= spacing <= 32767;
}

} // verus!
