use uniswap_v3_math::full_math::{mul_div, mul_div_rounding_up};
use uniswap_v3_math::u256::U256;
use uniswap_v3_math::unsafe_math::div_rounding_up;

fn u256(s: &str) -> U256 {
    let mut r = U256::zero();
    let ten = U256::from_u128(10);
    for c in s.bytes() {
        let d = (c - b'0') as u128;
        r = r.wrapping_mul(ten).wrapping_add(U256::from_u128(d));
    }
    r
}

#[test]
fn mul_div_uses_the_full_512_bit_product() {
    // (2^128) * (2^128) / 2 would overflow a 256-bit product midway
    let q128 = U256::one().shl(128);
    let r = mul_div(q128, q128, U256::from_u128(2)).unwrap();
    assert_eq!(r, U256::one().shl(255));

    // floor((2^200 + 1) * 3 / 2^100)
    let a = U256::one().shl(200).checked_add(U256::one()).unwrap();
    let r = mul_div(a, U256::from_u128(3), U256::one().shl(100)).unwrap();
    assert_eq!(r, U256::from_u128(3).wrapping_mul(U256::one().shl(100)));

    // exact small case
    let r = mul_div(u256("1000000"), u256("999999"), u256("1000")).unwrap();
    assert_eq!(r, u256("999999000"));
}

#[test]
fn mul_div_reports_its_failure_modes() {
    // zero denominator with a small product
    let r = mul_div(U256::from_u128(5), U256::from_u128(7), U256::zero());
    assert_eq!(r.unwrap_err().message(), "Denominator is 0");

    // quotient above 2^256 - 1
    let r = mul_div(U256::max(), U256::max(), U256::one());
    assert_eq!(
        r.unwrap_err().message(),
        "Denominator is less than or equal to prod_1"
    );

    // rounding up from the largest representable quotient
    let r = mul_div_rounding_up(U256::max(), U256::max(), U256::max());
    assert_eq!(r.unwrap(), U256::max());
    // the exact quotient is 2^256 - 1 with a remainder, so rounding up spills
    let r = mul_div_rounding_up(
        u256("1070012277628718"),
        u256("432862656469423142931042426214547535783388063929571229938474969"),
        u256("4"),
    );
    assert_eq!(r.unwrap_err().message(), "Result is U256::MAX");
}

#[test]
fn mul_div_rounding_up_adds_one_only_on_remainders() {
    let r = mul_div_rounding_up(u256("7"), u256("3"), u256("4")).unwrap();
    assert_eq!(r, u256("6"));
    let r = mul_div_rounding_up(u256("8"), u256("3"), u256("4")).unwrap();
    assert_eq!(r, u256("6"));
}

#[test]
fn div_rounding_up_matches_ceiling() {
    assert_eq!(div_rounding_up(u256("10"), u256("5")), u256("2"));
    assert_eq!(div_rounding_up(u256("11"), u256("5")), u256("3"));
    assert_eq!(div_rounding_up(U256::zero(), u256("5")), U256::zero());
    assert_eq!(
        div_rounding_up(U256::max(), U256::one()),
        U256::max()
    );
}

#[test]
fn u256_arithmetic_edges() {
    // wrapping behavior at the 256-bit boundary
    assert_eq!(U256::max().wrapping_add(U256::one()), U256::zero());
    assert_eq!(U256::zero().wrapping_sub(U256::one()), U256::max());
    assert!(U256::max().checked_add(U256::one()).is_none());
    assert!(U256::zero().checked_sub(U256::one()).is_none());

    // full-width multiplication
    let (lo, hi) = U256::max().mul_full(U256::max());
    assert_eq!(lo, U256::one());
    assert_eq!(hi, U256::max().checked_sub(U256::one()).unwrap());

    // division and remainder
    let (q, r) = U256::max().div_rem(U256::one().shl(128));
    assert_eq!(q, U256::from_limbs(u128::MAX, 0));
    assert_eq!(r, U256::from_limbs(u128::MAX, 0));
}
