use uniswap_v3_math::bit_math::{least_significant_bit, most_significant_bit};
use uniswap_v3_math::u256::U256;

#[test]
fn test_most_significant_bit() {
    //0
    let result = most_significant_bit(U256::zero());
    assert_eq!(
        result.unwrap_err().message(),
        "Can not get most significant bit or least significant bit on zero value"
    );

    //1
    let result = most_significant_bit(U256::one());
    assert_eq!(result.unwrap(), 0);

    //2
    let result = most_significant_bit(U256::from_u128(2));
    assert_eq!(result.unwrap(), 1);

    //all powers of 2
    for i in 0..=255u32 {
        let result = most_significant_bit(U256::one().shl(i));
        assert_eq!(result.unwrap(), i as u8);
    }

    //uint256(-1)
    let result = most_significant_bit(U256::max());
    assert_eq!(result.unwrap(), 255);
}

#[test]
fn test_least_significant_bit() {
    //0
    let result = least_significant_bit(U256::zero());
    assert_eq!(
        result.unwrap_err().message(),
        "Can not get most significant bit or least significant bit on zero value"
    );

    //1
    let result = least_significant_bit(U256::one());
    assert_eq!(result.unwrap(), 0);

    //2
    let result = least_significant_bit(U256::from_u128(2));
    assert_eq!(result.unwrap(), 1);

    //all powers of 2
    for i in 0..=255u32 {
        let result = least_significant_bit(U256::one().shl(i));
        assert_eq!(result.unwrap(), i as u8);
    }

    //uint256(-1)
    let result = least_significant_bit(U256::max());
    assert_eq!(result.unwrap(), 0);
}

#[test]
fn bit_scans_agree_with_naive_scan() {
    // spot values whose bit structure is known outright
    let samples: [(u128, u128, u8, u8); 4] = [
        (0x8000, 0, 15, 15),
        (0x90000000, 0, 31, 28),
        (0, 1, 128, 128),
        (0x10, 0x400, 138, 4),
    ];
    for (lo, hi, msb, lsb) in samples {
        let x = U256::from_limbs(lo, hi);
        assert_eq!(most_significant_bit(x).unwrap(), msb);
        assert_eq!(least_significant_bit(x).unwrap(), lsb);
    }
}
