//! Constant-product swap quotes.
//!
//! A quote takes the fee on the input leg, then solves the constant-product
//! rule `(x + dx) * (y - dy) == x * y` for `dy`:
//!
//! ```text
//! amount_in_after_fee = amount_in * (10000 - fee_rate) / 10000
//! amount_out = reserve_out * amount_in_after_fee / (reserve_in + amount_in_after_fee)
//! ```
//!
//! Both divisions truncate toward zero, which biases every quote downward, in
//! the taker's disfavor. Fee rates are in basis points.

use vstd::prelude::*;
use vstd::arithmetic::div_mod::{
    lemma_div_is_ordered, lemma_div_multiples_vanish, lemma_div_nonincreasing,
    lemma_div_of0, lemma_div_pos_is_pos, lemma_fundamental_div_mod,
};
use vstd::arithmetic::mul::{lemma_mul_inequality, lemma_mul_nonnegative};
use crate::Error;

verus! {

/// Whether a mathematical integer fits in `i128`.
pub open spec fn in_i128_range(x: int) -> bool {
    i128::MIN <= x <= i128::MAX
}

/// Division truncating toward zero, as the machine division of signed
/// integers behaves. For non-negative operands it agrees with `/` on `int`.
pub open spec fn trunc_div(x: int, d: int) -> int {
    if x == 0 {
        0
    } else if x > 0 && d > 0 {
        x / d
    } else if x < 0 && d < 0 {
        (x * -1) / (d * -1)
    } else if x < 0 {
        ((x * -1) / d) * -1
    } else {
        (x / (d * -1)) * -1
    }
}

/// The input amount with the fee taken off: `amount_in * (10000 - fee_rate) / 10000`.
pub open spec fn amount_after_fee(amount_in: int, fee_rate: int) -> int {
    trunc_div(amount_in * (10000 - fee_rate), 10000)
}

/// The swap output for the given reserves, input amount and fee rate.
/// Meaningful only when `reserve_in + amount_after_fee(..)` is not zero.
pub open spec fn quote(reserve_in: int, reserve_out: int, amount_in: int, fee_rate: int) -> int {
    let af = amount_after_fee(amount_in, fee_rate);
    trunc_div(reserve_out * af, reserve_in + af)
}

/// What computing a quote in 128-bit arithmetic yields: the quote itself, or
/// the error that stops the computation. Intermediate overflow is fatal and
/// never wraps; a zero denominator is reported as a division by zero.
pub open spec fn swap_amount_spec(
    amount_in: int,
    reserve_in: int,
    reserve_out: int,
    fee_rate: int,
) -> Result<int, Error> {
    let scaled = amount_in * (10000 - fee_rate);
    if !in_i128_range(scaled) {
        Err(Error::ArithmeticOverflow)
    } else {
        let af = trunc_div(scaled, 10000);
        if !in_i128_range(reserve_out * af) {
            Err(Error::ArithmeticOverflow)
        } else if !in_i128_range(reserve_in + af) {
            Err(Error::ArithmeticOverflow)
        } else if reserve_in + af == 0 {
            Err(Error::DivideByZero)
        } else if !in_i128_range(trunc_div(reserve_out * af, reserve_in + af)) {
            Err(Error::ArithmeticOverflow)
        } else {
            Ok(quote(reserve_in, reserve_out, amount_in, fee_rate))
        }
    }
}

/// For a non-negative dividend and positive divisor, truncating division is
/// the division on `int`, and the quotient is non-negative.
pub proof fn lemma_trunc_div_nonneg(x: int, d: int)
    requires
        x >= 0,
        d > 0,
    ensures
        trunc_div(x, d) == x / d,
        x / d >= 0,
{
    if x == 0 {
        lemma_div_of0(d);
    } else {
        lemma_div_pos_is_pos(x, d);
    }
}

/// A truncated quotient never exceeds the dividend in magnitude, so it fits
/// in `i128` whenever the dividend does.
pub proof fn lemma_trunc_div_in_range(x: int, d: int)
    requires
        d > 0,
        in_i128_range(x),
    ensures
        in_i128_range(trunc_div(x, d)),
{
    if x == 0 {
    } else if x > 0 {
        lemma_div_pos_is_pos(x, d);
        lemma_div_nonincreasing(x, d);
    } else {
        let y = x * -1;
        lemma_div_pos_is_pos(y, d);
        lemma_div_nonincreasing(y, d);
    }
}

/// Cross-multiplied comparison of two non-negative fractions carries over to
/// their floored quotients.
proof fn lemma_div_cross(a: int, b: int, c: int, d: int)
    requires
        0 <= a,
        0 < b,
        0 <= c,
        0 < d,
        a * d <= c * b,
    ensures
        a / b <= c / d,
{
    let q = a / b;
    lemma_fundamental_div_mod(a, b);
    lemma_div_pos_is_pos(a, b);
    assert(q * b <= a) by (nonlinear_arith)
        requires
            a == b * q + a % b,
            a % b >= 0,
    ;
    assert(q * d <= c) by (nonlinear_arith)
        requires
            q * b <= a,
            a * d <= c * b,
            b > 0,
            d > 0,
    ;
    lemma_div_multiples_vanish(q, d);
    lemma_div_is_ordered(q * d, c, d);
    assert(q * d == d * q) by (nonlinear_arith);
}

/// The output leg `reserve_out * af / (reserve_in + af)` is monotone
/// non-decreasing in the fee-adjusted input `af`.
proof fn lemma_output_monotone(reserve_in: int, reserve_out: int, af1: int, af2: int)
    requires
        reserve_in > 0,
        reserve_out >= 0,
        0 <= af1 <= af2,
    ensures
        trunc_div(reserve_out * af1, reserve_in + af1)
            <= trunc_div(reserve_out * af2, reserve_in + af2),
{
    lemma_mul_nonnegative(reserve_out, af1);
    lemma_mul_nonnegative(reserve_out, af2);
    assert((reserve_out * af1) * (reserve_in + af2) <= (reserve_out * af2) * (reserve_in + af1))
        by (nonlinear_arith)
        requires
            reserve_in > 0,
            reserve_out >= 0,
            0 <= af1 <= af2,
    ;
    lemma_div_cross(reserve_out * af1, reserve_in + af1, reserve_out * af2, reserve_in + af2);
    lemma_trunc_div_nonneg(reserve_out * af1, reserve_in + af1);
    lemma_trunc_div_nonneg(reserve_out * af2, reserve_in + af2);
}

/// A zero input quotes zero, whatever the reserves and the fee.
pub proof fn lemma_quote_zero_amount(reserve_in: int, reserve_out: int, fee_rate: int)
    requires
        reserve_in != 0,
    ensures
        quote(reserve_in, reserve_out, 0, fee_rate) == 0,
{
}

/// For fixed reserves and fee, the quote is monotone non-decreasing in the
/// input amount.
pub proof fn lemma_quote_monotone_in_amount(
    reserve_in: int,
    reserve_out: int,
    amount1: int,
    amount2: int,
    fee_rate: int,
)
    requires
        reserve_in > 0,
        reserve_out >= 0,
        0 <= amount1 <= amount2,
        0 <= fee_rate < 10000,
    ensures
        quote(reserve_in, reserve_out, amount1, fee_rate)
            <= quote(reserve_in, reserve_out, amount2, fee_rate),
{
    let k = 10000 - fee_rate;
    lemma_mul_nonnegative(amount1, k);
    lemma_mul_nonnegative(amount2, k);
    lemma_mul_inequality(amount1, amount2, k);
    lemma_trunc_div_nonneg(amount1 * k, 10000);
    lemma_trunc_div_nonneg(amount2 * k, 10000);
    lemma_div_is_ordered(amount1 * k, amount2 * k, 10000);
    lemma_output_monotone(
        reserve_in,
        reserve_out,
        amount_after_fee(amount1, fee_rate),
        amount_after_fee(amount2, fee_rate),
    );
}

/// For fixed reserves and input amount, the quote is monotone non-increasing
/// in the fee rate.
pub proof fn lemma_quote_antitone_in_fee(
    reserve_in: int,
    reserve_out: int,
    amount_in: int,
    fee1: int,
    fee2: int,
)
    requires
        reserve_in > 0,
        reserve_out >= 0,
        amount_in >= 0,
        0 <= fee1 <= fee2 < 10000,
    ensures
        quote(reserve_in, reserve_out, amount_in, fee2)
            <= quote(reserve_in, reserve_out, amount_in, fee1),
{
    let k1 = 10000 - fee1;
    let k2 = 10000 - fee2;
    lemma_mul_nonnegative(amount_in, k2);
    assert(amount_in * k2 <= amount_in * k1) by (nonlinear_arith)
        requires
            amount_in >= 0,
            k2 <= k1,
    ;
    lemma_trunc_div_nonneg(amount_in * k2, 10000);
    lemma_trunc_div_nonneg(amount_in * k1, 10000);
    lemma_div_is_ordered(amount_in * k2, amount_in * k1, 10000);
    lemma_output_monotone(
        reserve_in,
        reserve_out,
        amount_after_fee(amount_in, fee2),
        amount_after_fee(amount_in, fee1),
    );
}

/// On a pool that satisfies the data model — positive reserves, fee below
/// 10000 basis points — a quote for a positive input amount is computable
/// whenever its intermediates fit in `i128`, and then lies strictly below
/// `reserve_out`, so a swap can never drain the output reserve.
pub proof fn lemma_quote_bounded(reserve_in: int, reserve_out: int, amount_in: int, fee_rate: int)
    requires
        reserve_in > 0,
        reserve_out > 0,
        amount_in >= 0,
        0 <= fee_rate < 10000,
        in_i128_range(amount_in * (10000 - fee_rate)),
        in_i128_range(reserve_out * amount_after_fee(amount_in, fee_rate)),
        in_i128_range(reserve_in + amount_after_fee(amount_in, fee_rate)),
    ensures
        swap_amount_spec(amount_in, reserve_in, reserve_out, fee_rate)
            == Ok::<int, Error>(quote(reserve_in, reserve_out, amount_in, fee_rate)),
        0 <= quote(reserve_in, reserve_out, amount_in, fee_rate) < reserve_out,
{
    let k = 10000 - fee_rate;
    lemma_mul_nonnegative(amount_in, k);
    lemma_trunc_div_nonneg(amount_in * k, 10000);
    let af = amount_after_fee(amount_in, fee_rate);
    lemma_mul_nonnegative(reserve_out, af);
    lemma_trunc_div_nonneg(reserve_out * af, reserve_in + af);
    let q = (reserve_out * af) / (reserve_in + af);
    lemma_fundamental_div_mod(reserve_out * af, reserve_in + af);
    assert(q < reserve_out) by (nonlinear_arith)
        requires
            reserve_out * af == (reserve_in + af) * q + (reserve_out * af) % (reserve_in + af),
            (reserve_out * af) % (reserve_in + af) >= 0,
            reserve_in > 0,
            reserve_out > 0,
            af >= 0,
            q >= 0,
    ;
}

} // verus!
