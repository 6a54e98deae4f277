use uniswap_v3_math::sqrt_price_math::{
    _get_amount_0_delta, _get_amount_1_delta, get_next_sqrt_price_from_input,
    get_next_sqrt_price_from_output, max_u160,
};
use uniswap_v3_math::u256::U256;

fn u256(s: &str) -> U256 {
    let mut r = U256::zero();
    let ten = U256::from_u128(10);
    for c in s.bytes() {
        let d = (c - b'0') as u128;
        r = r.wrapping_mul(ten).wrapping_add(U256::from_u128(d));
    }
    r
}

#[test]
fn test_get_next_sqrt_price_from_input() {
    //Fails if price is zero
    let result =
        get_next_sqrt_price_from_input(U256::zero(), 0, u256("100000000000000000"), false);
    assert_eq!(result.unwrap_err().message(), "Sqrt price is 0");

    //Fails if liquidity is zero
    let result = get_next_sqrt_price_from_input(U256::one(), 0, u256("100000000000000000"), true);
    assert_eq!(result.unwrap_err().message(), "Liquidity is 0");

    //fails if input amount overflows the price
    let result = get_next_sqrt_price_from_input(max_u160(), 1024, U256::from_u128(1024), false);
    assert_eq!(result.unwrap_err().message(), "Overflow when casting to U160");

    //any input amount cannot underflow the price
    let result = get_next_sqrt_price_from_input(
        U256::one(),
        1,
        u256("57896044618658097711785492504343953926634992332820282019728792003956564819968"),
        true,
    );
    assert_eq!(result.unwrap(), U256::one());

    //returns input price if amount in is zero and zeroForOne = true
    let result = get_next_sqrt_price_from_input(
        u256("79228162514264337593543950336"),
        100000000000000000u128,
        U256::zero(),
        true,
    );
    assert_eq!(result.unwrap(), u256("79228162514264337593543950336"));

    //returns input price if amount in is zero and zeroForOne = false
    let result = get_next_sqrt_price_from_input(
        u256("79228162514264337593543950336"),
        100000000000000000u128,
        U256::zero(),
        true,
    );
    assert_eq!(result.unwrap(), u256("79228162514264337593543950336"));

    //returns the minimum price for max inputs
    let sqrt_price = max_u160();
    let liquidity = u128::MAX;
    let (shifted, _) = U256::from_u128(liquidity).shl(96).div_rem(sqrt_price);
    let max_amount_no_overflow = U256::max().checked_sub(shifted).unwrap();
    let result =
        get_next_sqrt_price_from_input(sqrt_price, liquidity, max_amount_no_overflow, true);
    assert_eq!(result.unwrap(), U256::one());

    //input amount of 0.1 token1
    let result = get_next_sqrt_price_from_input(
        u256("79228162514264337593543950336"),
        1000000000000000000u128,
        u256("100000000000000000"),
        false,
    );
    assert_eq!(result.unwrap(), u256("87150978765690771352898345369"));

    //input amount of 0.1 token0
    let result = get_next_sqrt_price_from_input(
        u256("79228162514264337593543950336"),
        1000000000000000000u128,
        u256("100000000000000000"),
        true,
    );
    assert_eq!(result.unwrap(), u256("72025602285694852357767227579"));

    //amountIn > type(uint96).max and zeroForOne = true
    let result = get_next_sqrt_price_from_input(
        u256("79228162514264337593543950336"),
        10000000000000000000u128,
        u256("1267650600228229401496703205376"),
        true,
    );
    assert_eq!(result.unwrap(), u256("624999999995069620"));

    //can return 1 with enough amountIn and zeroForOne = true
    let (half_max, _) = U256::max().div_rem(U256::from_u128(2));
    let result = get_next_sqrt_price_from_input(
        u256("79228162514264337593543950336"),
        1,
        half_max,
        true,
    );
    assert_eq!(result.unwrap(), U256::one());
}

#[test]
fn test_get_next_sqrt_price_from_output() {
    //fails if price is zero
    let result =
        get_next_sqrt_price_from_output(U256::zero(), 0, U256::from_u128(1000000000), false);
    assert_eq!(result.unwrap_err().message(), "Sqrt price is 0");

    //fails if liquidity is zero
    let result =
        get_next_sqrt_price_from_output(U256::one(), 0, U256::from_u128(1000000000), false);
    assert_eq!(result.unwrap_err().message(), "Liquidity is 0");

    //fails if output amount is exactly the virtual reserves of token0
    let result = get_next_sqrt_price_from_output(
        u256("20282409603651670423947251286016"),
        1024,
        U256::from_u128(4),
        false,
    );
    assert_eq!(
        result.unwrap_err().message(),
        "require((product = amount * sqrtPX96) / amount == sqrtPX96 && numerator1 > product);"
    );

    //fails if output amount is greater than virtual reserves of token0
    let result = get_next_sqrt_price_from_output(
        u256("20282409603651670423947251286016"),
        1024,
        U256::from_u128(5),
        false,
    );
    assert_eq!(
        result.unwrap_err().message(),
        "require((product = amount * sqrtPX96) / amount == sqrtPX96 && numerator1 > product);"
    );

    //fails if output amount is greater than virtual reserves of token1
    let result = get_next_sqrt_price_from_output(
        u256("20282409603651670423947251286016"),
        1024,
        U256::from_u128(262145),
        true,
    );
    assert_eq!(
        result.unwrap_err().message(),
        "Sqrt price is less than or equal to quotient"
    );

    //fails if output amount is exactly the virtual reserves of token1
    let result = get_next_sqrt_price_from_output(
        u256("20282409603651670423947251286016"),
        1024,
        U256::from_u128(262144),
        true,
    );
    assert_eq!(
        result.unwrap_err().message(),
        "Sqrt price is less than or equal to quotient"
    );

    //succeeds if output amount is just less than the virtual
    let result = get_next_sqrt_price_from_output(
        u256("20282409603651670423947251286016"),
        1024,
        U256::from_u128(262143),
        true,
    );
    assert_eq!(result.unwrap(), u256("77371252455336267181195264"));

    //puzzling echidna test
    let result = get_next_sqrt_price_from_output(
        u256("20282409603651670423947251286016"),
        1024,
        U256::from_u128(4),
        false,
    );
    assert_eq!(
        result.unwrap_err().message(),
        "require((product = amount * sqrtPX96) / amount == sqrtPX96 && numerator1 > product);"
    );

    //returns input price if amount in is zero and zeroForOne = true
    let result = get_next_sqrt_price_from_output(
        u256("79228162514264337593543950336"),
        100000000000000000u128,
        U256::zero(),
        true,
    );
    assert_eq!(result.unwrap(), u256("79228162514264337593543950336"));

    //returns input price if amount in is zero and zeroForOne = false
    let result = get_next_sqrt_price_from_output(
        u256("79228162514264337593543950336"),
        100000000000000000u128,
        U256::zero(),
        false,
    );
    assert_eq!(result.unwrap(), u256("79228162514264337593543950336"));

    //output amount of 0.1 token1
    let result = get_next_sqrt_price_from_output(
        u256("79228162514264337593543950336"),
        1000000000000000000u128,
        u256("100000000000000000"),
        false,
    );
    assert_eq!(result.unwrap(), u256("88031291682515930659493278152"));

    //output amount of 0.1 token1
    let result = get_next_sqrt_price_from_output(
        u256("79228162514264337593543950336"),
        1000000000000000000u128,
        u256("100000000000000000"),
        true,
    );
    assert_eq!(result.unwrap(), u256("71305346262837903834189555302"));

    //reverts if amountOut is impossible in zero for one direction
    let result =
        get_next_sqrt_price_from_output(u256("79228162514264337593543950336"), 1, U256::max(), true);
    assert_eq!(
        result.unwrap_err().message(),
        "Denominator is less than or equal to prod_1"
    );

    //reverts if amountOut is impossible in one for zero direction
    let result = get_next_sqrt_price_from_output(
        u256("79228162514264337593543950336"),
        1,
        U256::max(),
        false,
    );
    assert_eq!(
        result.unwrap_err().message(),
        "require((product = amount * sqrtPX96) / amount == sqrtPX96 && numerator1 > product);"
    );
}

#[test]
fn test_get_amount_0_delta() {
    // returns 0 if liquidity is 0
    let amount_0 = _get_amount_0_delta(
        u256("79228162514264337593543950336"),
        u256("79228162514264337593543950336"),
        0,
        true,
    );
    assert_eq!(amount_0.unwrap(), U256::zero());

    // returns 0 if prices are equal
    let amount_0 = _get_amount_0_delta(
        u256("79228162514264337593543950336"),
        u256("87150978765690771352898345369"),
        0,
        true,
    );
    assert_eq!(amount_0.unwrap(), U256::zero());

    // returns 0.1 amount1 for price of 1 to 1.21
    let amount_0 = _get_amount_0_delta(
        u256("79228162514264337593543950336"),
        u256("87150978765690771352898345369"),
        1000000000000000000u128,
        true,
    )
    .unwrap();
    assert_eq!(amount_0, u256("90909090909090910"));

    let amount_0_rounded_down = _get_amount_0_delta(
        u256("79228162514264337593543950336"),
        u256("87150978765690771352898345369"),
        1000000000000000000u128,
        false,
    );
    assert_eq!(
        amount_0_rounded_down.unwrap(),
        amount_0.checked_sub(U256::one()).unwrap()
    );

    // works for prices that overflow
    let amount_0_up = _get_amount_0_delta(
        u256("2787593149816327892691964784081045188247552"),
        u256("22300745198530623141535718272648361505980416"),
        1000000000000000000u128,
        true,
    )
    .unwrap();
    let amount_0_down = _get_amount_0_delta(
        u256("2787593149816327892691964784081045188247552"),
        u256("22300745198530623141535718272648361505980416"),
        1000000000000000000u128,
        false,
    )
    .unwrap();
    assert_eq!(amount_0_up, amount_0_down.checked_add(U256::one()).unwrap());
}

#[test]
fn test_get_amount_1_delta() {
    // returns 0 if liquidity is 0
    let amount_1 = _get_amount_1_delta(
        u256("79228162514264337593543950336"),
        u256("79228162514264337593543950336"),
        0,
        true,
    );
    assert_eq!(amount_1.unwrap(), U256::zero());

    // returns 0 if prices are equal
    let amount_1 = _get_amount_1_delta(
        u256("79228162514264337593543950336"),
        u256("87150978765690771352898345369"),
        0,
        true,
    );
    assert_eq!(amount_1.unwrap(), U256::zero());

    // returns 0.1 amount1 for price of 1 to 1.21
    let amount_1 = _get_amount_1_delta(
        u256("79228162514264337593543950336"),
        u256("87150978765690771352898345369"),
        1000000000000000000u128,
        true,
    )
    .unwrap();
    assert_eq!(amount_1, u256("100000000000000000"));

    let amount_1_rounded_down = _get_amount_1_delta(
        u256("79228162514264337593543950336"),
        u256("87150978765690771352898345369"),
        1000000000000000000u128,
        false,
    );
    assert_eq!(
        amount_1_rounded_down.unwrap(),
        amount_1.checked_sub(U256::one()).unwrap()
    );
}

#[test]
fn test_swap_computation() {
    let sqrt_price = u256("1025574284609383690408304870162715216695788925244");
    let liquidity = 50015962439936049619261659728067971248u128;
    let zero_for_one = true;
    let amount_in = U256::from_u128(406);

    let sqrt_q =
        get_next_sqrt_price_from_input(sqrt_price, liquidity, amount_in, zero_for_one).unwrap();
    assert_eq!(sqrt_q, u256("1025574284609383582644711336373707553698163132913"));

    let amount_0_delta = _get_amount_0_delta(sqrt_q, sqrt_price, liquidity, true).unwrap();
    assert_eq!(amount_0_delta, U256::from_u128(406));
}

#[test]
fn huge_token0_inputs_floor_the_price() {
    // when the exact fallback denominator passes 2^256 the next price is
    // still the unbounded ceiling: one
    let p = U256::one();
    let d1 = U256::one().shl(200);
    let d2 = u256(
        "115792089237316195423570985008687907853269984665561335876943319670319585689605",
    );
    let r1 = get_next_sqrt_price_from_input(p, 1, d1, true).unwrap();
    let r2 = get_next_sqrt_price_from_input(p, 1, d2, true).unwrap();
    assert_eq!(r1, U256::one());
    assert_eq!(r2, U256::one());
    // and the price never rises with a larger token0 input
    assert!(r2.le(&r1));
}
