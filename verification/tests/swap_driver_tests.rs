use uniswap_v3_math::error::UniswapV3MathError;
use uniswap_v3_math::i256::I256;
use uniswap_v3_math::sqrt_price_math::get_next_sqrt_price_from_input;
use uniswap_v3_math::tick_bitmap::next_initialized_tick_within_one_word_from_provider;
use uniswap_v3_math::tick_math::get_sqrt_ratio_at_tick;
use uniswap_v3_math::u256::U256;
use uniswap_v3_math::{Math, TicksProvider};

fn u256(s: &str) -> U256 {
    let mut r = U256::zero();
    let ten = U256::from_u128(10);
    for c in s.bytes() {
        let d = (c - b'0') as u128;
        r = r.wrapping_mul(ten).wrapping_add(U256::from_u128(d));
    }
    r
}

/// A bitmap with single words at positions 0 and -1 and one liquidity-net
/// entry, standing in for chain storage.
struct TableProvider {
    word0: U256,
    word_neg1: U256,
    net_tick: i32,
    net: i128,
}

impl TicksProvider for TableProvider {
    fn get_word_at_position(&self, position: i16) -> Result<U256, UniswapV3MathError> {
        match position {
            0 => Ok(self.word0),
            -1 => Ok(self.word_neg1),
            _ => Ok(U256::zero()),
        }
    }

    fn get_liquidity_net_at_tick(&self, tick: i32) -> Result<i128, UniswapV3MathError> {
        if tick == self.net_tick {
            Ok(self.net)
        } else {
            Ok(0)
        }
    }
}

/// A provider whose reads always fail.
struct FailingProvider;

impl TicksProvider for FailingProvider {
    fn get_word_at_position(&self, _position: i16) -> Result<U256, UniswapV3MathError> {
        Err(UniswapV3MathError::ProviderError)
    }

    fn get_liquidity_net_at_tick(&self, _tick: i32) -> Result<i128, UniswapV3MathError> {
        Err(UniswapV3MathError::ProviderError)
    }
}

fn pool(provider: TableProvider) -> Math<TableProvider> {
    Math {
        fee: 3000,
        liquidity: 1000000000000000000,
        sqrt_price_x96: get_sqrt_ratio_at_tick(0).unwrap(),
        tick: 0,
        tick_spacing: 1,
        provider,
    }
}

#[test]
fn simulate_swap_zero_input_returns_zero() {
    let p = pool(TableProvider {
        word0: U256::one(),
        word_neg1: U256::zero(),
        net_tick: 0,
        net: 0,
    });
    let out = p.simulate_swap(true, U256::zero()).unwrap();
    assert_eq!(out, U256::zero());
}

#[test]
fn simulate_swap_crosses_an_initialized_tick() {
    // tick 0 is initialized; swapping token0 in crosses it downward and
    // removes part of the liquidity before the rest of the input is spent
    let p = pool(TableProvider {
        word0: U256::one(),
        word_neg1: U256::zero(),
        net_tick: 0,
        net: 400000000000000000,
    });
    let out = p.simulate_swap(true, u256("1000000000000000")).unwrap();
    assert_eq!(out, u256("995346066619300"));
}

#[test]
fn simulate_swap_one_for_zero() {
    // price rises toward an initialized tick at 64
    let p = pool(TableProvider {
        word0: U256::one().shl(64),
        word_neg1: U256::zero(),
        net_tick: 64,
        net: 300000000000000000,
    });
    let out = p.simulate_swap(false, u256("1000000000000000")).unwrap();
    assert_eq!(out, u256("996006981039903"));
}

#[test]
fn simulate_swap_surfaces_provider_errors() {
    let p = Math {
        fee: 3000,
        liquidity: 1000000000000000000,
        sqrt_price_x96: get_sqrt_ratio_at_tick(0).unwrap(),
        tick: 0,
        tick_spacing: 1,
        provider: FailingProvider,
    };
    let r = p.simulate_swap(true, U256::from_u128(1000));
    assert_eq!(r.unwrap_err().message(), "Ticks provider error");
}

#[test]
fn update_replaces_the_dynamic_state() {
    let mut p = pool(TableProvider {
        word0: U256::zero(),
        word_neg1: U256::zero(),
        net_tick: 0,
        net: 0,
    });
    p.update(77, U256::from_u128(12345), -42);
    assert_eq!(p.liquidity, 77);
    assert_eq!(p.sqrt_price_x96, U256::from_u128(12345));
    assert_eq!(p.tick, -42);
    assert_eq!(p.fee, 3000);
}

#[test]
fn provider_scan_finds_ticks_in_both_directions() {
    let provider = TableProvider {
        word0: U256::one().shl(70),
        word_neg1: U256::zero(),
        net_tick: 0,
        net: 0,
    };
    // scanning down from tick 128 finds bit 70 of word 0
    let (next, initialized) =
        next_initialized_tick_within_one_word_from_provider(128, 1, true, &provider).unwrap();
    assert_eq!(next, 70);
    assert!(initialized);
    // scanning up from tick 10 finds the same bit
    let (next, initialized) =
        next_initialized_tick_within_one_word_from_provider(10, 1, false, &provider).unwrap();
    assert_eq!(next, 70);
    assert!(initialized);
}

#[test]
fn input_price_moves_monotonically_with_amount() {
    // larger token0 inputs push the price at least as low
    let p = u256("79228162514264337593543950336");
    let l = 1000000000000000000u128;
    let mut prev = p;
    for k in 1..6u128 {
        let amt = U256::from_u128(k * 10000000000000);
        let next = get_next_sqrt_price_from_input(p, l, amt, true).unwrap();
        assert!(next.le(&prev));
        prev = next;
    }
    // larger token1 inputs push the price at least as high
    let mut prev = p;
    for k in 1..6u128 {
        let amt = U256::from_u128(k * 10000000000000);
        let next = get_next_sqrt_price_from_input(p, l, amt, false).unwrap();
        assert!(prev.le(&next));
        prev = next;
    }
}

#[test]
fn exact_in_step_consumes_input_plus_fee() {
    // a step that stops short of the target splits the amount into input
    // and fee exactly
    let price = u256("79228162514264337593543950336");
    let target = U256::from_u128(0xe6666666666666666666666666);
    let amount = uniswap_v3_math::utils::u256_to_i256(u256("1000000000000000000"));
    let (_, amount_in, _, fee_amount) = uniswap_v3_math::swap_math::compute_swap_step(
        price,
        target,
        2000000000000000000u128,
        amount,
        600,
    )
    .unwrap();
    assert_eq!(
        amount_in.checked_add(fee_amount).unwrap(),
        u256("1000000000000000000")
    );
}

#[test]
fn i256_reinterpretation_round_trips() {
    let v = u256("123456789012345678901234567890");
    let s: I256 = uniswap_v3_math::utils::u256_to_i256(v);
    assert!(!s.is_negative());
    let neg = s.neg();
    assert!(neg.is_negative());
    assert_eq!(neg.abs_u256(), v);
    assert_eq!(uniswap_v3_math::utils::i256_to_u256(neg.neg()), v);
}

#[test]
fn crossing_with_inconsistent_liquidity_is_reported() {
    // the provider claims a withdrawal larger than the running liquidity
    let p = Math {
        fee: 3000,
        liquidity: 10,
        sqrt_price_x96: get_sqrt_ratio_at_tick(0).unwrap(),
        tick: 0,
        tick_spacing: 1,
        provider: TableProvider {
            word0: U256::one(),
            word_neg1: U256::zero(),
            net_tick: 0,
            net: 100,
        },
    };
    let r = p.simulate_swap(true, U256::from_u128(1000));
    assert_eq!(r.unwrap_err().message(), "Liquidity sub delta underflows");
}

#[test]
fn crossing_with_overflowing_liquidity_is_reported() {
    // the provider claims a deposit that overflows the running liquidity
    let p = Math {
        fee: 3000,
        liquidity: u128::MAX - 5,
        sqrt_price_x96: get_sqrt_ratio_at_tick(0).unwrap(),
        tick: 0,
        tick_spacing: 1,
        provider: TableProvider {
            word0: U256::one(),
            word_neg1: U256::zero(),
            net_tick: 0,
            net: -100,
        },
    };
    let r = p.simulate_swap(true, U256::from_u128(1000));
    assert_eq!(r.unwrap_err().message(), "Liquidity add delta overflows");
}
