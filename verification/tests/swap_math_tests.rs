use uniswap_v3_math::i256::I256;
use uniswap_v3_math::sqrt_price_math::{
    get_next_sqrt_price_from_input, get_next_sqrt_price_from_output,
};
use uniswap_v3_math::swap_math::compute_swap_step;
use uniswap_v3_math::u256::U256;
use uniswap_v3_math::utils::{i256_to_u256, u256_to_i256};

fn u256(s: &str) -> U256 {
    let mut r = U256::zero();
    let ten = U256::from_u128(10);
    for c in s.bytes() {
        let d = (c - b'0') as u128;
        r = r.wrapping_mul(ten).wrapping_add(U256::from_u128(d));
    }
    r
}

fn i256(s: &str) -> I256 {
    if let Some(rest) = s.strip_prefix('-') {
        u256_to_i256(u256(rest)).neg()
    } else {
        u256_to_i256(u256(s))
    }
}

#[test]
fn test_compute_swap_step() {
    //------------------------------------------------------------

    //exact amount in that gets capped at price target in one for zero
    let price = u256("79228162514264337593543950336");
    let price_target = u256("79623317895830914510639640423");
    let liquidity = 2000000000000000000u128;
    let amount = i256("1000000000000000000");
    let fee = 600;
    let zero_for_one = false;

    let (sqrt_p, amount_in, amount_out, fee_amount) =
        compute_swap_step(price, price_target, liquidity, amount, fee).unwrap();

    assert_eq!(sqrt_p, u256("79623317895830914510639640423"));
    assert_eq!(amount_in, u256("9975124224178055"));
    assert_eq!(fee_amount, u256("5988667735148"));
    assert_eq!(amount_out, u256("9925619580021728"));

    assert!(amount_in
        .checked_add(fee_amount)
        .unwrap()
        .lt(&i256_to_u256(amount)));

    let price_after_whole_input_amount =
        get_next_sqrt_price_from_input(price, liquidity, amount_in, zero_for_one).unwrap();

    assert_eq!(sqrt_p, price_target);
    assert!(sqrt_p.lt(&price_after_whole_input_amount));

    //------------------------------------------------------------

    //exact amount out that gets capped at price target in one for zero
    let price = u256("79228162514264337593543950336");
    let price_target = u256("79623317895830914510639640423");
    let liquidity = 2000000000000000000u128;
    let amount = i256("-1000000000000000000");
    let fee = 600;
    let zero_for_one = false;

    let (sqrt_p, amount_in, amount_out, fee_amount) =
        compute_swap_step(price, price_target, liquidity, amount, fee).unwrap();

    assert_eq!(amount_in, u256("9975124224178055"));
    assert_eq!(fee_amount, u256("5988667735148"));
    assert_eq!(amount_out, u256("9925619580021728"));
    assert!(amount_out.lt(&i256_to_u256(amount.neg())));

    assert!(amount_in
        .checked_add(fee_amount)
        .unwrap()
        .lt(&i256_to_u256(amount.neg())));

    let price_after_whole_output_amount =
        get_next_sqrt_price_from_output(price, liquidity, i256_to_u256(amount.neg()), zero_for_one)
            .unwrap();

    assert_eq!(sqrt_p, price_target);
    assert!(sqrt_p.lt(&price_after_whole_output_amount));

    //------------------------------------------------------------

    //exact amount in that is fully spent in one for zero
    let price = u256("79228162514264337593543950336");
    let price_target = U256::from_u128(0xe6666666666666666666666666);
    let liquidity = 2000000000000000000u128;
    let amount = i256("1000000000000000000");
    let fee = 600;
    let zero_for_one = false;

    let (sqrt_p, amount_in, amount_out, fee_amount) =
        compute_swap_step(price, price_target, liquidity, amount, fee).unwrap();

    assert_eq!(amount_in, u256("999400000000000000"));
    assert_eq!(fee_amount, u256("600000000000000"));
    assert_eq!(amount_out, u256("666399946655997866"));
    assert_eq!(
        amount_in.checked_add(fee_amount).unwrap(),
        i256_to_u256(amount)
    );

    let price_after_whole_input_amount_less_fee = get_next_sqrt_price_from_input(
        price,
        liquidity,
        i256_to_u256(amount).checked_sub(fee_amount).unwrap(),
        zero_for_one,
    )
    .unwrap();

    assert!(sqrt_p.lt(&price_target));
    assert_eq!(sqrt_p, price_after_whole_input_amount_less_fee);

    //------------------------------------------------------------

    //exact amount out that is fully received in one for zero
    let price = u256("79228162514264337593543950336");
    let price_target = u256("792281625142643375935439503360");
    let liquidity = 2000000000000000000u128;
    let amount = i256("1000000000000000000").neg();
    let fee = 600;
    let zero_for_one = false;

    let (sqrt_p, amount_in, amount_out, fee_amount) =
        compute_swap_step(price, price_target, liquidity, amount, fee).unwrap();

    assert_eq!(amount_in, u256("2000000000000000000"));
    assert_eq!(fee_amount, u256("1200720432259356"));
    assert_eq!(amount_out, i256_to_u256(amount.neg()));

    let price_after_whole_output_amount =
        get_next_sqrt_price_from_output(price, liquidity, i256_to_u256(amount.neg()), zero_for_one)
            .unwrap();

    assert!(sqrt_p.lt(&price_target));
    assert_eq!(sqrt_p, price_after_whole_output_amount);

    //------------------------------------------------------------

    //amount out is capped at the desired amount out
    let (sqrt_p, amount_in, amount_out, fee_amount) = compute_swap_step(
        u256("417332158212080721273783715441582"),
        u256("1452870262520218020823638996"),
        159344665391607089467575320103u128,
        i256("-1"),
        1,
    )
    .unwrap();

    assert_eq!(amount_in, U256::one());
    assert_eq!(fee_amount, U256::one());
    assert_eq!(amount_out, U256::one());
    assert_eq!(sqrt_p, u256("417332158212080721273783715441581"));

    //------------------------------------------------------------

    //target price of 1 uses partial input amount
    let (sqrt_p, amount_in, amount_out, fee_amount) = compute_swap_step(
        U256::from_u128(2),
        U256::one(),
        1u128,
        i256("3915081100057732413702495386755767"),
        1,
    )
    .unwrap();

    assert_eq!(amount_in, u256("39614081257132168796771975168"));
    assert_eq!(fee_amount, u256("39614120871253040049813"));
    assert!(amount_in
        .checked_add(fee_amount)
        .unwrap()
        .lt(&u256("3915081100057732413702495386755767")));
    assert_eq!(amount_out, U256::zero());
    assert_eq!(sqrt_p, U256::one());

    //------------------------------------------------------------

    //entire input amount taken as fee
    let (sqrt_p, amount_in, amount_out, fee_amount) = compute_swap_step(
        U256::from_u128(2413),
        u256("79887613182836312"),
        1985041575832132834610021537970u128,
        i256("10"),
        1872,
    )
    .unwrap();

    assert_eq!(amount_in, U256::zero());
    assert_eq!(fee_amount, U256::from_u128(10));
    assert_eq!(amount_out, U256::zero());
    assert_eq!(sqrt_p, U256::from_u128(2413));

    //------------------------------------------------------------

    //handles intermediate insufficient liquidity in zero for one exact output case
    let price = u256("20282409603651670423947251286016");
    let (scaled, _) = price.wrapping_mul(U256::from_u128(11)).div_rem(U256::from_u128(10));
    let price_target = scaled;
    let liquidity = 1024;
    // virtual reserves of one are only 4
    let amount_remaining = i256("-4");
    let fee = 3000;

    let (sqrt_p, amount_in, amount_out, fee_amount) =
        compute_swap_step(price, price_target, liquidity, amount_remaining, fee).unwrap();

    assert_eq!(amount_out, U256::zero());
    assert_eq!(sqrt_p, price_target);
    assert_eq!(amount_in, U256::from_u128(26215));
    assert_eq!(fee_amount, U256::from_u128(79));

    //------------------------------------------------------------

    //handles intermediate insufficient liquidity in one for zero exact output case
    let price = u256("20282409603651670423947251286016");
    let (scaled, _) = price.wrapping_mul(U256::from_u128(9)).div_rem(U256::from_u128(10));
    let price_target = scaled;
    let liquidity = 1024;
    // virtual reserves of zero are only 262144
    let amount_remaining = i256("-263000");
    let fee = 3000;

    let (sqrt_p, amount_in, amount_out, fee_amount) =
        compute_swap_step(price, price_target, liquidity, amount_remaining, fee).unwrap();

    assert_eq!(amount_out, U256::from_u128(26214));
    assert_eq!(sqrt_p, price_target);
    assert_eq!(amount_in, U256::one());
    assert_eq!(fee_amount, U256::one());
}
