use vstd::prelude::*;

verus! {

/// Every failure the math engine can report. All errors bubble to the caller;
/// there is no in-engine recovery.
#[derive(Clone, Copy, PartialEq, Eq, Structural, Debug)]
pub enum UniswapV3MathError {
    /// MSB/LSB was asked of the value zero.
    ZeroValue,
    /// A square-root price operand was zero where a non-zero value is required.
    SqrtPriceIsZero,
    /// A liquidity operand was zero where a non-zero value is required.
    LiquidityIsZero,
    /// Token0 next-price subtract case where the high-precision invariant fails.
    ProductDivAmount,
    /// Token1 next-price subtract case where the resulting price would be zero or below.
    SqrtPriceIsLteQuotient,
    /// A next-price result exceeded 2^160 - 1.
    SafeCastToU160Overflow,
    /// Tick outside `[MIN_TICK, MAX_TICK]`.
    T,
    /// Square-root price outside `[MIN_SQRT_RATIO, MAX_SQRT_RATIO)`.
    R,
    /// `mul_div` with a zero denominator.
    DenominatorIsZero,
    /// `mul_div` whose exact quotient does not fit in 256 bits.
    DenominatorIsLteProdOne,
    /// `mul_div_rounding_up` result would exceed 2^256 - 1.
    ResultIsU256MAX,
    /// Crossing a tick would overflow the running liquidity.
    LiquidityAdd,
    /// Crossing a tick would underflow the running liquidity.
    LiquiditySub,
    /// Forwarded from the external ticks provider.
    ProviderError,
    /// The swap simulation ran past its step allowance without settling.
    SwapStepLimit,
}

impl UniswapV3MathError {
    /// The human-readable description of the error.
    pub fn message(&self) -> &'static str {
        match self {
            UniswapV3MathError::ZeroValue => {
                "Can not get most significant bit or least significant bit on zero value"
            },
            UniswapV3MathError::SqrtPriceIsZero => "Sqrt price is 0",
            UniswapV3MathError::LiquidityIsZero => "Liquidity is 0",
            UniswapV3MathError::ProductDivAmount => {
                "require((product = amount * sqrtPX96) / amount == sqrtPX96 && numerator1 > product);"
            },
            UniswapV3MathError::SqrtPriceIsLteQuotient => {
                "Sqrt price is less than or equal to quotient"
            },
            UniswapV3MathError::SafeCastToU160Overflow => "Overflow when casting to U160",
            UniswapV3MathError::T => {
                "The given tick must be less than, or equal to, the maximum tick"
            },
            UniswapV3MathError::R => {
                "Second inequality must be < because the price can never reach the price at the max tick"
            },
            UniswapV3MathError::DenominatorIsZero => "Denominator is 0",
            UniswapV3MathError::DenominatorIsLteProdOne => {
                "Denominator is less than or equal to prod_1"
            },
            UniswapV3MathError::ResultIsU256MAX => "Result is U256::MAX",
            UniswapV3MathError::LiquidityAdd => "Liquidity add delta overflows",
            UniswapV3MathError::LiquiditySub => "Liquidity sub delta underflows",
            UniswapV3MathError::ProviderError => "Ticks provider error",
            UniswapV3MathError::SwapStepLimit => "Swap simulation exceeded the step limit",
        }
    }
}

} // verus!
