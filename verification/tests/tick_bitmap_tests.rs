use uniswap_v3_math::tick_bitmap::{next_initialized_tick_within_one_word, position};
use uniswap_v3_math::u256::U256;

#[test]
fn finds_initialized_bit_at_or_below() {
    // bit 70 set, scanning down from bit 128
    let word = U256::one().shl(70);
    let (next, initialized) =
        next_initialized_tick_within_one_word(128, word, 1, true, 128).unwrap();
    assert_eq!(next, 70);
    assert!(initialized);

    // an empty word lands on the start of the word
    let (next, initialized) =
        next_initialized_tick_within_one_word(128, U256::zero(), 1, true, 128).unwrap();
    assert_eq!(next, 0);
    assert!(!initialized);
}

#[test]
fn finds_initialized_bit_above() {
    // bit 200 set, scanning up from bit 128
    let word = U256::one().shl(200);
    let (next, initialized) =
        next_initialized_tick_within_one_word(128, word, 1, false, 128).unwrap();
    assert_eq!(next, 128 + 1 + (200 - 128));
    assert!(initialized);

    // an empty word skips to the end of the word
    let (next, initialized) =
        next_initialized_tick_within_one_word(128, U256::zero(), 1, false, 128).unwrap();
    assert_eq!(next, 128 + 1 + (255 - 128));
    assert!(!initialized);
}

#[test]
fn respects_tick_spacing() {
    // with spacing 60 the returned tick is the bit index scaled by 60
    let word = U256::one().shl(4);
    let (next, initialized) = next_initialized_tick_within_one_word(9, word, 60, true, 9).unwrap();
    assert_eq!(next, (9 - (9 - 4)) * 60);
    assert!(initialized);
}

#[test]
fn position_splits_word_and_bit() {
    assert_eq!(position(0), (0, 0));
    assert_eq!(position(255), (0, 255));
    assert_eq!(position(256), (1, 0));
    assert_eq!(position(-1), (-1, 255));
    assert_eq!(position(-256), (-1, 0));
    assert_eq!(position(-257), (-2, 255));
    assert_eq!(position(887272), (3465, 232));
}
