use uniswap_v3_math::error::UniswapV3MathError;
use uniswap_v3_math::tick_math::{
    get_sqrt_ratio_at_tick, get_tick_at_sqrt_ratio, max_sqrt_ratio, min_sqrt_ratio, MAX_TICK,
    MIN_TICK,
};
use uniswap_v3_math::u256::U256;

fn u256(s: &str) -> U256 {
    let mut r = U256::zero();
    let ten = U256::from_u128(10);
    for c in s.bytes() {
        let d = (c - b'0') as u128;
        r = r.wrapping_mul(ten).wrapping_add(U256::from_u128(d));
    }
    r
}

#[test]
fn get_sqrt_ratio_at_tick_bounds() {
    // the function should return an error if the tick is out of bounds
    if let Err(err) = get_sqrt_ratio_at_tick(MIN_TICK - 1) {
        assert!(matches!(err, UniswapV3MathError::T));
    } else {
        panic!("get_qrt_ratio_at_tick did not respect lower tick bound")
    }
    if let Err(err) = get_sqrt_ratio_at_tick(MAX_TICK + 1) {
        assert!(matches!(err, UniswapV3MathError::T));
    } else {
        panic!("get_qrt_ratio_at_tick did not respect upper tick bound")
    }
}

#[test]
fn get_sqrt_ratio_at_tick_values() {
    // test individual values for correct results
    assert_eq!(
        get_sqrt_ratio_at_tick(MIN_TICK).unwrap(),
        u256("4295128739"),
        "sqrt ratio at min incorrect"
    );
    assert_eq!(
        get_sqrt_ratio_at_tick(MIN_TICK + 1).unwrap(),
        u256("4295343490"),
        "sqrt ratio at min + 1 incorrect"
    );
    assert_eq!(
        get_sqrt_ratio_at_tick(MAX_TICK - 1).unwrap(),
        u256("1461373636630004318706518188784493106690254656249"),
        "sqrt ratio at max - 1 incorrect"
    );
    assert_eq!(
        get_sqrt_ratio_at_tick(MAX_TICK).unwrap(),
        u256("1461446703485210103287273052203988822378723970342"),
        "sqrt ratio at max incorrect"
    );
    // checking hard coded values against solidity results
    assert_eq!(
        get_sqrt_ratio_at_tick(50).unwrap(),
        u256("79426470787362580746886972461"),
        "sqrt ratio at 50 incorrect"
    );
    assert_eq!(
        get_sqrt_ratio_at_tick(100).unwrap(),
        u256("79625275426524748796330556128"),
        "sqrt ratio at 100 incorrect"
    );
    assert_eq!(
        get_sqrt_ratio_at_tick(250).unwrap(),
        u256("80224679980005306637834519095"),
        "sqrt ratio at 250 incorrect"
    );
    assert_eq!(
        get_sqrt_ratio_at_tick(500).unwrap(),
        u256("81233731461783161732293370115"),
        "sqrt ratio at 500 incorrect"
    );
    assert_eq!(
        get_sqrt_ratio_at_tick(1000).unwrap(),
        u256("83290069058676223003182343270"),
        "sqrt ratio at 1000 incorrect"
    );
    assert_eq!(
        get_sqrt_ratio_at_tick(2500).unwrap(),
        u256("89776708723587163891445672585"),
        "sqrt ratio at 2500 incorrect"
    );
    assert_eq!(
        get_sqrt_ratio_at_tick(3000).unwrap(),
        u256("92049301871182272007977902845"),
        "sqrt ratio at 3000 incorrect"
    );
    assert_eq!(
        get_sqrt_ratio_at_tick(4000).unwrap(),
        u256("96768528593268422080558758223"),
        "sqrt ratio at 4000 incorrect"
    );
    assert_eq!(
        get_sqrt_ratio_at_tick(5000).unwrap(),
        u256("101729702841318637793976746270"),
        "sqrt ratio at 5000 incorrect"
    );
    assert_eq!(
        get_sqrt_ratio_at_tick(50000).unwrap(),
        u256("965075977353221155028623082916"),
        "sqrt ratio at 50000 incorrect"
    );
    assert_eq!(
        get_sqrt_ratio_at_tick(150000).unwrap(),
        u256("143194173941309278083010301478497"),
        "sqrt ratio at 150000 incorrect"
    );
    assert_eq!(
        get_sqrt_ratio_at_tick(250000).unwrap(),
        u256("21246587762933397357449903968194344"),
        "sqrt ratio at 250000 incorrect"
    );
    assert_eq!(
        get_sqrt_ratio_at_tick(500000).unwrap(),
        u256("5697689776495288729098254600827762987878"),
        "sqrt ratio at 500000 incorrect"
    );
    assert_eq!(
        get_sqrt_ratio_at_tick(738203).unwrap(),
        u256("847134979253254120489401328389043031315994541"),
        "sqrt ratio at 738203 incorrect"
    );
}

#[test]
pub fn test_get_tick_at_sqrt_ratio() {
    //throws for too low
    let result = get_tick_at_sqrt_ratio(min_sqrt_ratio().checked_sub(U256::one()).unwrap());
    assert_eq!(
        result.unwrap_err().message(),
        "Second inequality must be < because the price can never reach the price at the max tick"
    );

    //throws for too high
    let result = get_tick_at_sqrt_ratio(max_sqrt_ratio());
    assert_eq!(
        result.unwrap_err().message(),
        "Second inequality must be < because the price can never reach the price at the max tick"
    );

    //ratio of min tick
    let result = get_tick_at_sqrt_ratio(min_sqrt_ratio()).unwrap();
    assert_eq!(result, MIN_TICK);

    //ratio of min tick + 1
    let result = get_tick_at_sqrt_ratio(u256("4295343490")).unwrap();
    assert_eq!(result, MIN_TICK + 1);
}

#[test]
fn tick_to_price_round_trips() {
    // price -> tick -> price bracketing at sample ticks across the range
    let ticks: [i32; 9] = [MIN_TICK, -500000, -887271, -1, 0, 1, 50, 500000, MAX_TICK - 1];
    for t in ticks {
        let p = get_sqrt_ratio_at_tick(t).unwrap();
        assert_eq!(get_tick_at_sqrt_ratio(p).unwrap(), t);
    }
}

#[test]
fn price_to_tick_brackets() {
    // an arbitrary price maps to the tick whose bracket contains it
    let samples = [
        u256("79228162514264337593556295336"),
        u256("4295128740"),
        u256("1461446703485210103287273052203988822378723970341"),
        u256("22300745198530623141535718272648361505980416"),
    ];
    for p in samples {
        let t = get_tick_at_sqrt_ratio(p).unwrap();
        let lower = get_sqrt_ratio_at_tick(t).unwrap();
        let upper = get_sqrt_ratio_at_tick(t + 1).unwrap();
        assert!(lower.le(&p));
        assert!(p.lt(&upper));
    }
}

#[test]
fn sqrt_ratio_monotone_in_tick() {
    // the price is strictly increasing across consecutive sample ticks
    let ticks: [i32; 8] = [MIN_TICK, -250000, -50, -1, 0, 49, 250000, MAX_TICK - 1];
    for t in ticks {
        let lo = get_sqrt_ratio_at_tick(t).unwrap();
        let hi = get_sqrt_ratio_at_tick(t + 1).unwrap();
        assert!(lo.lt(&hi));
    }
}
