use vstd::prelude::*;

/// The error kinds every layer of the engine reports.
pub mod error;
/// Unsigned 256-bit integers with proved arithmetic.
pub mod u256;
/// Signed 256-bit integers as two's-complement bit patterns.
pub mod i256;
/// Reinterpreting casts between the two 256-bit forms.
pub mod utils;
/// Unsigned division that rounds up.
pub mod unsafe_math;
/// `floor` and `ceil` of `a * b / d` over a 512-bit intermediate.
pub mod full_math;
/// Most- and least-significant-bit scans.
pub mod bit_math;
/// The tick <-> square-root-price bijection.
pub mod tick_math;
/// Next-price and amount-delta formulas in Q64.96.
pub mod sqrt_price_math;
/// The single-step swap kernel.
pub mod swap_math;
/// Locating the next initialized tick within a bitmap word.
pub mod tick_bitmap;

use error::UniswapV3MathError;
use i256::I256;
use u256::U256;
use swap_math::compute_swap_step;
use tick_bitmap::{next_initialized_tick_within_one_word, position};
use tick_math::{
    calculate_compressed, get_sqrt_ratio_at_tick, get_tick_at_sqrt_ratio, MAX_TICK, MIN_TICK,
};
use utils::{i256_to_u256, u256_to_i256};

verus! {

/// Supplies tick metadata from outside the engine: bitmap words by word
/// position and per-tick liquidity-net values. Implementations usually read a
/// database or a node; any failure they report is surfaced unchanged.
pub trait TicksProvider {
    fn get_word_at_position(&self, position: i16) -> Result<U256, UniswapV3MathError>;

    fn get_liquidity_net_at_tick(&self, tick: i32) -> Result<i128, UniswapV3MathError>;
}

/// The mathematical image of the swap loop's mutable state. The two signed
/// accumulators are carried as 256-bit two's-complement patterns, exactly as
/// `I256` holds them.
pub struct SwapStateG {
    pub sqrt_price: nat,
    pub amount_remaining_rep: nat,
    pub amount_calculated_rep: nat,
    pub tick: int,
    pub liquidity: nat,
    pub word_pos: int,
    pub word: nat,
}

/// One iteration's provider answers: a bitmap word, consulted only when the
/// word position moves, and a liquidity net, consulted only when an
/// initialized tick is crossed. Unconsulted fields carry no meaning.
pub struct SwapOracle {
    pub word: Result<nat, UniswapV3MathError>,
    pub net: Result<int, UniswapV3MathError>,
}

/// The signed reading of a 256-bit two's-complement pattern.
pub open spec fn rep_iv(rep: nat) -> int {
    if rep >= i256::p255() {
        rep - u256::p256()
    } else {
        rep as int
    }
}

/// The price limit the walk is clamped to: one past the minimum ratio going
/// down, one short of the maximum going up.
pub open spec fn swap_limit(zero_for_one: bool) -> nat {
    if zero_for_one {
        4295128740nat
    } else {
        1461446703485210103287273052203988822378723970341nat
    }
}

/// What crossing an initialized tick does to the running liquidity: the
/// stored delta is negated when crossing downward, then applied; a total that
/// would leave `u128` is an error.
pub open spec fn cross_liquidity_spec(liquidity: nat, net: int, zero_for_one: bool) -> Result<
    nat,
    UniswapV3MathError,
> {
    let eff: int = if zero_for_one {
        -net
    } else {
        net
    };
    if eff >= 0 {
        if liquidity + eff <= u128::MAX {
            Ok((liquidity + eff) as nat)
        } else {
            Err(UniswapV3MathError::LiquidityAdd)
        }
    } else {
        if liquidity >= -eff {
            Ok((liquidity + eff) as nat)
        } else {
            Err(UniswapV3MathError::LiquiditySub)
        }
    }
}

/// One iteration of the swap walk as a function of the state and this
/// iteration's provider answers: scan the word, step the price, book the
/// amounts, cross or re-derive the tick.
#[verifier::opaque]
pub open spec fn swap_step_spec(
    zero_for_one: bool,
    fee_pips: nat,
    tick_spacing: int,
    limit: nat,
    s: SwapStateG,
    o: SwapOracle,
) -> Result<SwapStateG, UniswapV3MathError> {
    let c = s.tick / tick_spacing;
    let wp = c / 256;
    let bp = (c % 256) as nat;
    let wordr: Result<(nat, int), UniswapV3MathError> = if wp != s.word_pos {
        match o.word {
            Ok(w) => Ok((w, wp)),
            Err(e) => Err(e),
        }
    } else {
        Ok((s.word, s.word_pos))
    };
    match wordr {
        Err(e) => Err(e),
        Ok(wv) => {
            let word = wv.0;
            let word_pos2 = wv.1;
            let scan = if zero_for_one {
                tick_bitmap::next_tick_le_spec(bp, word, tick_spacing, c)
            } else {
                tick_bitmap::next_tick_gt_spec(bp, word, tick_spacing, c)
            };
            let tick_next: int = if scan.0 < MIN_TICK {
                MIN_TICK as int
            } else if scan.0 > MAX_TICK {
                MAX_TICK as int
            } else {
                scan.0
            };
            let initialized = scan.1;
            let pn = tick_math::sqrt_ratio_at_tick_spec(tick_next);
            let target: nat = if zero_for_one {
                if pn < limit {
                    limit
                } else {
                    pn
                }
            } else {
                if pn > limit {
                    limit
                } else {
                    pn
                }
            };
            match swap_math::compute_swap_step_spec(
                s.sqrt_price,
                target,
                s.liquidity,
                rep_iv(s.amount_remaining_rep),
                fee_pips,
            ) {
                Err(e) => Err(e),
                Ok(step) => {
                    let p2 = step.0;
                    let consumed = (step.1 + step.3) % u256::p256();
                    let rem2 = ((s.amount_remaining_rep - consumed) % (u256::p256() as int)) as nat;
                    let calc2 = ((s.amount_calculated_rep - step.2 % u256::p256()) % (
                    u256::p256() as int)) as nat;
                    if p2 == pn {
                        if initialized {
                            match o.net {
                                Err(e) => Err(e),
                                Ok(n) => match cross_liquidity_spec(s.liquidity, n, zero_for_one) {
                                    Err(e) => Err(e),
                                    Ok(l2) => Ok(
                                        SwapStateG {
                                            sqrt_price: p2,
                                            amount_remaining_rep: rem2,
                                            amount_calculated_rep: calc2,
                                            tick: if zero_for_one {
                                                tick_next - 1
                                            } else {
                                                tick_next
                                            },
                                            liquidity: l2,
                                            word_pos: word_pos2,
                                            word,
                                        },
                                    ),
                                },
                            }
                        } else {
                            Ok(
                                SwapStateG {
                                    sqrt_price: p2,
                                    amount_remaining_rep: rem2,
                                    amount_calculated_rep: calc2,
                                    tick: s.tick,
                                    liquidity: s.liquidity,
                                    word_pos: word_pos2,
                                    word,
                                },
                            )
                        }
                    } else if p2 != s.sqrt_price {
                        let tr: Result<int, UniswapV3MathError> = if 4295128739 <= p2
                            < 1461446703485210103287273052203988822378723970342nat {
                            tick_math::tick_at_sqrt_ratio_spec(p2)
                        } else {
                            Err(UniswapV3MathError::R)
                        };
                        match tr {
                            Err(e) => Err(e),
                            Ok(t2) => Ok(
                                SwapStateG {
                                    sqrt_price: p2,
                                    amount_remaining_rep: rem2,
                                    amount_calculated_rep: calc2,
                                    tick: t2,
                                    liquidity: s.liquidity,
                                    word_pos: word_pos2,
                                    word,
                                },
                            ),
                        }
                    } else {
                        Ok(
                            SwapStateG {
                                sqrt_price: p2,
                                amount_remaining_rep: rem2,
                                amount_calculated_rep: calc2,
                                tick: s.tick,
                                liquidity: s.liquidity,
                                word_pos: word_pos2,
                                word,
                            },
                        )
                    }
                },
            }
        },
    }
}

/// Whether the walk is over: input exhausted or the limit price reached.
pub open spec fn swap_done(s: SwapStateG, limit: nat) -> bool {
    s.amount_remaining_rep == 0 || s.sqrt_price == limit
}

/// The value the walk reports: the output accumulator, negated out of its
/// two's-complement pattern.
pub open spec fn swap_out(s: SwapStateG) -> nat {
    if s.amount_calculated_rep == 0 {
        0
    } else {
        (u256::p256() - s.amount_calculated_rep) as nat
    }
}

/// Replays the swap walk from `s` against recorded provider answers; running
/// out of records is the step allowance running out.
pub open spec fn swap_run_spec(
    zero_for_one: bool,
    fee_pips: nat,
    tick_spacing: int,
    limit: nat,
    s: SwapStateG,
    recs: Seq<SwapOracle>,
) -> Result<nat, UniswapV3MathError>
    decreases recs.len(),
{
    if swap_done(s, limit) {
        Ok(swap_out(s))
    } else if recs.len() == 0 {
        Err(UniswapV3MathError::SwapStepLimit)
    } else {
        match swap_step_spec(zero_for_one, fee_pips, tick_spacing, limit, s, recs[0]) {
            Err(e) => Err(e),
            Ok(s2) => swap_run_spec(zero_for_one, fee_pips, tick_spacing, limit, s2, recs.drop_first()),
        }
    }
}

/// The walk steps from `s` through every recorded answer and lands on `t`,
/// never finishing early.
pub open spec fn swap_reaches(
    zero_for_one: bool,
    fee_pips: nat,
    tick_spacing: int,
    limit: nat,
    s: SwapStateG,
    recs: Seq<SwapOracle>,
    t: SwapStateG,
) -> bool
    decreases recs.len(),
{
    if recs.len() == 0 {
        s == t
    } else {
        let step = swap_step_spec(zero_for_one, fee_pips, tick_spacing, limit, s, recs[0]);
        &&& !swap_done(s, limit)
        &&& step is Ok
        &&& swap_reaches(zero_for_one, fee_pips, tick_spacing, limit, step->Ok_0, recs.drop_first(), t)
    }
}

/// Replaying a reached prefix leaves the run of the remaining records.
pub proof fn lemma_swap_run_concat(
    zero_for_one: bool,
    fee_pips: nat,
    tick_spacing: int,
    limit: nat,
    s: SwapStateG,
    pre: Seq<SwapOracle>,
    tail: Seq<SwapOracle>,
    t: SwapStateG,
)
    requires
        swap_reaches(zero_for_one, fee_pips, tick_spacing, limit, s, pre, t),
    ensures
        swap_run_spec(zero_for_one, fee_pips, tick_spacing, limit, s, pre.add(tail))
            == swap_run_spec(zero_for_one, fee_pips, tick_spacing, limit, t, tail),
    decreases pre.len(),
{
    if pre.len() == 0 {
        assert(pre.add(tail) =~= tail);
    } else {
        let s2 = swap_step_spec(zero_for_one, fee_pips, tick_spacing, limit, s, pre[0])->Ok_0;
        assert(pre.add(tail)[0] == pre[0]);
        assert(pre.add(tail).drop_first() =~= pre.drop_first().add(tail));
        lemma_swap_run_concat(
            zero_for_one,
            fee_pips,
            tick_spacing,
            limit,
            s2,
            pre.drop_first(),
            tail,
            t,
        );
    }
}

/// A reached state extends by one more successful, unfinished step.
pub proof fn lemma_swap_reaches_push(
    zero_for_one: bool,
    fee_pips: nat,
    tick_spacing: int,
    limit: nat,
    s: SwapStateG,
    pre: Seq<SwapOracle>,
    t: SwapStateG,
    o: SwapOracle,
    t2: SwapStateG,
)
    requires
        swap_reaches(zero_for_one, fee_pips, tick_spacing, limit, s, pre, t),
        !swap_done(t, limit),
        swap_step_spec(zero_for_one, fee_pips, tick_spacing, limit, t, o) == Ok::<
            SwapStateG,
            UniswapV3MathError,
        >(t2),
    ensures
        swap_reaches(zero_for_one, fee_pips, tick_spacing, limit, s, pre.push(o), t2),
    decreases pre.len(),
{
    if pre.len() == 0 {
        assert(pre.push(o)[0] == o);
        assert(pre.push(o).drop_first() =~= Seq::<SwapOracle>::empty());
        assert(swap_reaches(
            zero_for_one,
            fee_pips,
            tick_spacing,
            limit,
            t2,
            Seq::<SwapOracle>::empty(),
            t2,
        ));
    } else {
        let s2 = swap_step_spec(zero_for_one, fee_pips, tick_spacing, limit, s, pre[0])->Ok_0;
        assert(pre.push(o)[0] == pre[0]);
        assert(pre.push(o).drop_first() =~= pre.drop_first().push(o));
        lemma_swap_reaches_push(
            zero_for_one,
            fee_pips,
            tick_spacing,
            limit,
            s2,
            pre.drop_first(),
            t,
            o,
            t2,
        );
    }
}

/// The full claim on a simulated swap: the outcome is what the walk of the
/// pool's own state produces under some sequence of provider answers, within
/// the step allowance.
pub open spec fn swap_result_matches(
    fee: nat,
    liquidity: nat,
    sqrt_price: nat,
    tick: int,
    tick_spacing: int,
    zero_for_one: bool,
    amount_in: nat,
    w0: Result<nat, UniswapV3MathError>,
    recs: Seq<SwapOracle>,
    out: Result<nat, UniswapV3MathError>,
) -> bool {
    if amount_in == 0 {
        out == Ok::<nat, UniswapV3MathError>(0)
    } else {
        match w0 {
            Err(e) => out == Err::<nat, UniswapV3MathError>(e),
            Ok(wv) => {
                let s0 = SwapStateG {
                    sqrt_price,
                    amount_remaining_rep: amount_in,
                    amount_calculated_rep: 0,
                    tick,
                    liquidity,
                    word_pos: (tick / tick_spacing) / 256,
                    word: wv,
                };
                &&& recs.len() <= 4000000
                &&& out == swap_run_spec(
                    zero_for_one,
                    fee,
                    tick_spacing,
                    swap_limit(zero_for_one),
                    s0,
                    recs,
                )
            },
        }
    }
}

/// A snapshot of one pool's swap-relevant state together with the provider
/// that serves its tick data.
#[derive(Debug, Default, Clone)]
pub struct Math<Provider> {
    pub fee: u32,
    pub liquidity: u128,
    pub sqrt_price_x96: U256,
    pub tick: i32,
    pub tick_spacing: i32,
    pub provider: Provider,
}

impl<Provider> Math<Provider> where Provider: TicksProvider {
    /// Replaces the pool's dynamic state with fresh chain data.
    pub fn update(&mut self, liquidity: u128, sqrt_price_x96: U256, tick: i32)
        ensures
            final(self).liquidity == liquidity,
            final(self).sqrt_price_x96 == sqrt_price_x96,
            final(self).tick == tick,
            final(self).fee == old(self).fee,
            final(self).tick_spacing == old(self).tick_spacing,
            final(self).provider == old(self).provider,
    {
        self.liquidity = liquidity;
        self.sqrt_price_x96 = sqrt_price_x96;
        self.tick = tick;
    }

}

/// Applies a crossed tick's liquidity net to the running liquidity; crossing
/// downward flips the sign of the stored delta first.
fn cross_liquidity(liquidity: u128, liquidity_net: i128, zero_for_one: bool) -> (r: Result<
    u128,
    UniswapV3MathError,
>)
    ensures
        match r {
            Ok(l) => cross_liquidity_spec(liquidity as nat, liquidity_net as int, zero_for_one)
                == Ok::<nat, UniswapV3MathError>(l as nat),
            Err(e) => cross_liquidity_spec(liquidity as nat, liquidity_net as int, zero_for_one)
                == Err::<nat, UniswapV3MathError>(e),
        },
{
    let mag: u128 = if liquidity_net == i128::MIN {
        0x80000000000000000000000000000000
    } else if liquidity_net < 0 {
        (-liquidity_net) as u128
    } else {
        liquidity_net as u128
    };
    let raise = if zero_for_one {
        liquidity_net <= 0
    } else {
        liquidity_net >= 0
    };
    if raise {
        if liquidity <= u128::MAX - mag {
            Ok(liquidity + mag)
        } else {
            Err(UniswapV3MathError::LiquidityAdd)
        }
    } else {
        if liquidity >= mag {
            Ok(liquidity - mag)
        } else {
            Err(UniswapV3MathError::LiquiditySub)
        }
    }
}

/// The swap loop's mutable state, one iteration at a time.
#[derive(Clone, Copy, PartialEq, Eq, Structural, Debug)]
struct SwapWalkState {
    sqrt_price: U256,
    amount_remaining: I256,
    amount_calculated: I256,
    tick: i32,
    liquidity: u128,
    word_pos: i16,
    word: U256,
}

impl SwapWalkState {
    /// The mathematical image of this state.
    spec fn view_g(self) -> SwapStateG {
        SwapStateG {
            sqrt_price: self.sqrt_price.v(),
            amount_remaining_rep: self.amount_remaining.rep.v(),
            amount_calculated_rep: self.amount_calculated.rep.v(),
            tick: self.tick as int,
            liquidity: self.liquidity as nat,
            word_pos: self.word_pos as int,
            word: self.word.v(),
        }
    }
}

/// One iteration of the swap walk: whatever it returns is `swap_step_spec`
/// of the entering state under the provider answers actually received.
#[verifier::rlimit(100)]
fn swap_walk_step<P: TicksProvider>(
    provider: &P,
    zero_for_one: bool,
    fee: u32,
    tick_spacing: i32,
    limit: U256,
    s: SwapWalkState,
) -> (r: Result<SwapWalkState, UniswapV3MathError>)
    requires
        1 <= tick_spacing <= 32767,
        fee <= 1000000,
        -950001 <= s.tick <= 950000,
    ensures
        match r {
            Ok(s2) => -950001 <= s2.tick <= 950000 && exists|o: SwapOracle|
                #[trigger] swap_step_spec(
                    zero_for_one,
                    fee as nat,
                    tick_spacing as int,
                    limit.v(),
                    s.view_g(),
                    o,
                ) == Ok::<SwapStateG, UniswapV3MathError>(s2.view_g()),
            Err(e) => exists|o: SwapOracle|
                #[trigger] swap_step_spec(
                    zero_for_one,
                    fee as nat,
                    tick_spacing as int,
                    limit.v(),
                    s.view_g(),
                    o,
                ) == Err::<SwapStateG, UniswapV3MathError>(e),
        },
{
    let ghost pre = s.view_g();
    let ghost feen: nat = fee as nat;
    let ghost spc: int = tick_spacing as int;
    let ghost limv: nat = limit.v();
    let ghost mut oword: Result<nat, UniswapV3MathError> = Ok(0);
    let ghost mut onet: Result<int, UniswapV3MathError> = Ok(0);
    proof {
        tick_bitmap::lemma_scan_products_fit(s.tick as int, spc);
    }
    let compressed = calculate_compressed(s.tick, tick_spacing);
    let (word_pos, bit_pos) = position(compressed);
    let ghost c: int = s.tick as int / spc;
    let word_cur: U256;
    let word_pos_cur: i16;
    if word_pos != s.word_pos {
        // on a word change this walk refreshes the cached word from the
        // position it is leaving, while the on-chain contract indexes the
        // bitmap by the current tick's position. Kept as-is: matching the
        // off-chain traversal step for step is the intent here, and the
        // trace contract records whatever word the provider supplied
        match provider.get_word_at_position(s.word_pos) {
            Ok(w) => {
                word_cur = w;
                word_pos_cur = word_pos;
                proof {
                    oword = Ok(w.v());
                }
            },
            Err(e) => {
                proof {
                    oword = Err(e);
                    let o = SwapOracle { word: oword, net: onet };
                    assert(swap_step_spec(zero_for_one, feen, spc, limv, pre, o) == Err::<
                        SwapStateG,
                        UniswapV3MathError,
                    >(e)) by {
                        reveal(swap_step_spec);
                    }
                }
                return Err(e);
            },
        }
    } else {
        word_cur = s.word;
        word_pos_cur = s.word_pos;
    }
    let (tick_next_raw, initialized) = match next_initialized_tick_within_one_word(
        bit_pos,
        word_cur,
        tick_spacing,
        zero_for_one,
        compressed,
    ) {
        Ok(v) => v,
        Err(e) => {
            proof {
                assert(false);
            }
            return Err(e);
        },
    };
    // the bitmap is unaware of the tick bounds; clamp before use
    let tick_next = if tick_next_raw < MIN_TICK {
        MIN_TICK
    } else if tick_next_raw > MAX_TICK {
        MAX_TICK
    } else {
        tick_next_raw
    };
    let sqrt_price_next_x96 = match get_sqrt_ratio_at_tick(tick_next) {
        Ok(v) => v,
        Err(e) => {
            proof {
                assert(false);
            }
            return Err(e);
        },
    };
    let swap_target_sqrt_ratio = if zero_for_one {
        if sqrt_price_next_x96.lt(&limit) {
            limit
        } else {
            sqrt_price_next_x96
        }
    } else if sqrt_price_next_x96.gt(&limit) {
        limit
    } else {
        sqrt_price_next_x96
    };
    let step = match compute_swap_step(
        s.sqrt_price,
        swap_target_sqrt_ratio,
        s.liquidity,
        s.amount_remaining,
        fee,
    ) {
        Ok(v) => v,
        Err(e) => {
            proof {
                let o = SwapOracle { word: oword, net: onet };
                assert(swap_step_spec(zero_for_one, feen, spc, limv, pre, o) == Err::<
                    SwapStateG,
                    UniswapV3MathError,
                >(e)) by {
                    reveal(swap_step_spec);
                }
            }
            return Err(e);
        },
    };
    let (new_price, step_amount_in, step_amount_out, step_fee_amount) = step;
    let consumed = step_amount_in.wrapping_add(step_fee_amount);
    let new_remaining = s.amount_remaining.wrapping_sub(u256_to_i256(consumed));
    let new_calculated = s.amount_calculated.wrapping_sub(u256_to_i256(step_amount_out));
    proof {
        step_amount_out.lemma_v_bound();
        vstd::arithmetic::div_mod::lemma_small_mod(step_amount_out.v(), u256::p256());
        U256::lemma_eq_v(new_price, sqrt_price_next_x96);
        U256::lemma_eq_v(new_price, s.sqrt_price);
    }
    let new_tick: i32;
    let new_liquidity: u128;
    if new_price == sqrt_price_next_x96 {
        if initialized {
            let liquidity_net = match provider.get_liquidity_net_at_tick(tick_next) {
                Ok(v) => v,
                Err(e) => {
                    proof {
                        onet = Err(e);
                        let o = SwapOracle { word: oword, net: onet };
                        assert(swap_step_spec(zero_for_one, feen, spc, limv, pre, o) == Err::<
                            SwapStateG,
                            UniswapV3MathError,
                        >(e)) by {
                            reveal(swap_step_spec);
                        }
                    }
                    return Err(e);
                },
            };
            proof {
                onet = Ok(liquidity_net as int);
            }
            match cross_liquidity(s.liquidity, liquidity_net, zero_for_one) {
                Ok(l2) => {
                    new_liquidity = l2;
                },
                Err(e) => {
                    proof {
                        let o = SwapOracle { word: oword, net: onet };
                        assert(swap_step_spec(zero_for_one, feen, spc, limv, pre, o) == Err::<
                            SwapStateG,
                            UniswapV3MathError,
                        >(e)) by {
                            reveal(swap_step_spec);
                        }
                    }
                    return Err(e);
                },
            }
            new_tick = if zero_for_one {
                tick_next - 1
            } else {
                tick_next
            };
        } else {
            new_tick = s.tick;
            new_liquidity = s.liquidity;
        }
    } else if !(new_price == s.sqrt_price) {
        new_liquidity = s.liquidity;
        new_tick = match get_tick_at_sqrt_ratio(new_price) {
            Ok(t) => t,
            Err(e) => {
                proof {
                    let o = SwapOracle { word: oword, net: onet };
                    reveal(swap_step_spec);
                    assert(swap_step_spec(zero_for_one, feen, spc, limv, pre, o) == Err::<
                        SwapStateG,
                        UniswapV3MathError,
                    >(e));
                }
                return Err(e);
            },
        };
    } else {
        new_tick = s.tick;
        new_liquidity = s.liquidity;
    }
    let ns = SwapWalkState {
        sqrt_price: new_price,
        amount_remaining: new_remaining,
        amount_calculated: new_calculated,
        tick: new_tick,
        liquidity: new_liquidity,
        word_pos: word_pos_cur,
        word: word_cur,
    };
    proof {
        let o = SwapOracle { word: oword, net: onet };
        assert(swap_step_spec(zero_for_one, feen, spc, limv, pre, o) == Ok::<
            SwapStateG,
            UniswapV3MathError,
        >(ns.view_g())) by {
            reveal(swap_step_spec);
        }
    }
    Ok(ns)
}

impl<Provider> Math<Provider> where Provider: TicksProvider {
    /// Simulates a full exact-input swap against the snapshot: walks the tick
    /// bitmap, consuming liquidity one `compute_swap_step` at a time until the
    /// input is spent or the price limit is hit, and returns the output
    /// amount. Whatever comes back, success or error, is the outcome of the
    /// walk of this pool's own state under the provider answers actually
    /// received, within the step allowance.
    pub fn simulate_swap(&self, zero_for_one: bool, amount_in: U256) -> (r: Result<
        U256,
        UniswapV3MathError,
    >)
        requires
            1 <= self.tick_spacing <= 32767,
            MIN_TICK <= self.tick <= MAX_TICK,
            self.fee <= 1000000,
        ensures
            amount_in.v() == 0 ==> (r matches Ok(v) && v.v() == 0),
            exists|w0: Result<nat, UniswapV3MathError>, recs: Seq<SwapOracle>|
                #[trigger] swap_result_matches(
                    self.fee as nat,
                    self.liquidity as nat,
                    self.sqrt_price_x96.v(),
                    self.tick as int,
                    self.tick_spacing as int,
                    zero_for_one,
                    amount_in.v(),
                    w0,
                    recs,
                    utils::res_v(r),
                ),
    {
        let ghost feen: nat = self.fee as nat;
        let ghost spc: int = self.tick_spacing as int;
        if amount_in.is_zero() {
            proof {
                let w0: Result<nat, UniswapV3MathError> = Ok(0);
                let recs: Seq<SwapOracle> = Seq::empty();
                assert(swap_result_matches(
                    feen,
                    self.liquidity as nat,
                    self.sqrt_price_x96.v(),
                    self.tick as int,
                    spc,
                    zero_for_one,
                    amount_in.v(),
                    w0,
                    recs,
                    Ok((U256 { lo: 0, hi: 0 }).v()),
                ));
            }
            return Ok(U256 { lo: 0, hi: 0 });
        }
        // clamp the walk to one step inside the representable price range
        let sqrt_price_limit_x96 = if zero_for_one {
            U256 { lo: 4295128740, hi: 0 }
        } else {
            U256 { lo: 318775800626314356294205765087544249637, hi: 4294805859 }
        };
        let ghost limv: nat = swap_limit(zero_for_one);
        proof {
            assert(4294805859int * u256::p128() as int
                == 1461446703485210103287273052203988822378723970341int
                    - 318775800626314356294205765087544249637int) by (nonlinear_arith);
            assert(sqrt_price_limit_x96.v() == limv);
        }
        proof {
            tick_bitmap::lemma_scan_products_fit(self.tick as int, spc);
        }
        let initial_word_pos = position(calculate_compressed(self.tick, self.tick_spacing)).0;
        let word0 = match self.provider.get_word_at_position(initial_word_pos) {
            Ok(w) => w,
            Err(e) => {
                proof {
                    let w0: Result<nat, UniswapV3MathError> = Err(e);
                    let recs: Seq<SwapOracle> = Seq::empty();
                    assert(swap_result_matches(
                        feen,
                        self.liquidity as nat,
                        self.sqrt_price_x96.v(),
                        self.tick as int,
                        spc,
                        zero_for_one,
                        amount_in.v(),
                        w0,
                        recs,
                        Err(e),
                    ));
                }
                return Err(e);
            },
        };
        let mut state = SwapWalkState {
            sqrt_price: self.sqrt_price_x96,
            amount_remaining: u256_to_i256(amount_in),
            amount_calculated: I256 { rep: U256 { lo: 0, hi: 0 } },
            tick: self.tick,
            liquidity: self.liquidity,
            word_pos: initial_word_pos,
            word: word0,
        };
        let ghost s0: SwapStateG = state.view_g();
        let ghost mut recs: Seq<SwapOracle> = Seq::empty();
        proof {
            assert(swap_reaches(zero_for_one, feen, spc, limv, s0, recs, state.view_g()));
        }
        // a step allowance bounds the walk: it exceeds any possible number of
        // tick crossings, so only a degenerate bitmap can exhaust it
        let mut steps_left: u32 = 4000000;
        while steps_left > 0 && !state.amount_remaining.is_zero() && !(state.sqrt_price
            == sqrt_price_limit_x96)
            invariant
                1 <= self.tick_spacing <= 32767,
                self.fee <= 1000000,
                -950001 <= state.tick <= 950000,
                feen == self.fee as nat,
                spc == self.tick_spacing as int,
                sqrt_price_limit_x96.v() == limv,
                limv == swap_limit(zero_for_one),
                amount_in.v() != 0,
                recs.len() + steps_left == 4000000,
                swap_reaches(zero_for_one, feen, spc, limv, s0, recs, state.view_g()),
                s0 == (SwapStateG {
                    sqrt_price: self.sqrt_price_x96.v(),
                    amount_remaining_rep: amount_in.v(),
                    amount_calculated_rep: 0,
                    tick: self.tick as int,
                    liquidity: self.liquidity as nat,
                    word_pos: (self.tick as int / self.tick_spacing as int) / 256,
                    word: word0.v(),
                }),
            decreases steps_left,
        {
            steps_left = steps_left - 1;
            let ghost pre_g = state.view_g();
            proof {
                U256::lemma_eq_v(state.sqrt_price, sqrt_price_limit_x96);
                state.amount_remaining.rep.lemma_v_bound();
                assert(!swap_done(pre_g, limv));
            }
            match swap_walk_step(
                &self.provider,
                zero_for_one,
                self.fee,
                self.tick_spacing,
                sqrt_price_limit_x96,
                state,
            ) {
                Ok(s2) => {
                    proof {
                        let o = choose|o: SwapOracle|
                            swap_step_spec(zero_for_one, feen, spc, limv, pre_g, o) == Ok::<
                                SwapStateG,
                                UniswapV3MathError,
                            >(s2.view_g());
                        lemma_swap_reaches_push(
                            zero_for_one,
                            feen,
                            spc,
                            limv,
                            s0,
                            recs,
                            pre_g,
                            o,
                            s2.view_g(),
                        );
                        recs = recs.push(o);
                    }
                    state = s2;
                },
                Err(e) => {
                    proof {
                        let o = choose|o: SwapOracle|
                            swap_step_spec(zero_for_one, feen, spc, limv, pre_g, o) == Err::<
                                SwapStateG,
                                UniswapV3MathError,
                            >(e);
                        lemma_swap_run_concat(
                            zero_for_one,
                            feen,
                            spc,
                            limv,
                            s0,
                            recs,
                            seq![o],
                            pre_g,
                        );
                        assert(recs.push(o) =~= recs.add(seq![o]));
                        assert(swap_run_spec(zero_for_one, feen, spc, limv, pre_g, seq![o])
                            == Err::<nat, UniswapV3MathError>(e)) by {
                            reveal_with_fuel(swap_run_spec, 2);
                            assert(!swap_done(pre_g, limv));
                            assert(seq![o].len() == 1);
                            assert(swap_step_spec(zero_for_one, feen, spc, limv, pre_g, seq![o][0])
                                == Err::<SwapStateG, UniswapV3MathError>(e));
                        }
                        let w0: Result<nat, UniswapV3MathError> = Ok(word0.v());
                        assert(swap_result_matches(
                            feen,
                            self.liquidity as nat,
                            self.sqrt_price_x96.v(),
                            self.tick as int,
                            spc,
                            zero_for_one,
                            amount_in.v(),
                            w0,
                            recs.push(o),
                            Err(e),
                        ));
                    }
                    return Err(e);
                },
            }
        }
        if !state.amount_remaining.is_zero() && !(state.sqrt_price == sqrt_price_limit_x96) {
            proof {
                U256::lemma_eq_v(state.sqrt_price, sqrt_price_limit_x96);
                state.amount_remaining.rep.lemma_v_bound();
                assert(!swap_done(state.view_g(), limv));
                lemma_swap_run_concat(
                    zero_for_one,
                    feen,
                    spc,
                    limv,
                    s0,
                    recs,
                    Seq::empty(),
                    state.view_g(),
                );
                assert(recs.add(Seq::empty()) =~= recs);
                assert(swap_run_spec(zero_for_one, feen, spc, limv, state.view_g(), Seq::empty())
                    == Err::<nat, UniswapV3MathError>(UniswapV3MathError::SwapStepLimit));
                let w0: Result<nat, UniswapV3MathError> = Ok(word0.v());
                assert(swap_result_matches(
                    feen,
                    self.liquidity as nat,
                    self.sqrt_price_x96.v(),
                    self.tick as int,
                    spc,
                    zero_for_one,
                    amount_in.v(),
                    w0,
                    recs,
                    Err(UniswapV3MathError::SwapStepLimit),
                ));
            }
            return Err(UniswapV3MathError::SwapStepLimit);
        }
        let out = i256_to_u256(state.amount_calculated.neg());
        proof {
            U256::lemma_eq_v(state.sqrt_price, sqrt_price_limit_x96);
            state.amount_remaining.rep.lemma_v_bound();
            state.amount_calculated.rep.lemma_v_bound();
            assert(swap_done(state.view_g(), limv));
            lemma_swap_run_concat(
                zero_for_one,
                feen,
                spc,
                limv,
                s0,
                recs,
                Seq::empty(),
                state.view_g(),
            );
            assert(recs.add(Seq::empty()) =~= recs);
            assert(swap_run_spec(zero_for_one, feen, spc, limv, state.view_g(), Seq::empty())
                == Ok::<nat, UniswapV3MathError>(swap_out(state.view_g())));
            assert(out.v() == swap_out(state.view_g()));
            let w0: Result<nat, UniswapV3MathError> = Ok(word0.v());
            assert(swap_result_matches(
                feen,
                self.liquidity as nat,
                self.sqrt_price_x96.v(),
                self.tick as int,
                spc,
                zero_for_one,
                amount_in.v(),
                w0,
                recs,
                Ok(out.v()),
            ));
        }
        Ok(out)
    }
}

} // verus!
