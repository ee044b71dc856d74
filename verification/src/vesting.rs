use vstd::prelude::*;
use vstd::arithmetic::div_mod::{
    lemma_div_is_ordered, lemma_fundamental_div_mod, lemma_hoist_over_denominator,
};
use vstd::arithmetic::mul::lemma_mul_inequality;

verus! {

/// The share `numerator / denominator` of `amount`, rounded down.
pub open spec fn share_of(amount: u128, numerator: u32, denominator: u32) -> nat {
    ((amount as int) * (numerator as int) / (denominator as int)) as nat
}

/// The amount of `total` that has vested at `now`: nothing before the cliff
/// ends, everything once vesting has ended, and in between the share of the
/// elapsed time, rounded down.
pub open spec fn vested_amount(now: u32, cliff_end: u32, vesting_end: u32, total: u128) -> nat {
    if now < cliff_end {
        0
    } else if now >= vesting_end {
        total as nat
    } else {
        share_of(total, (now - cliff_end) as u32, (vesting_end - cliff_end) as u32)
    }
}

/// A share with a numerator that does not exceed the denominator never
/// exceeds the amount it is taken of.
pub proof fn lemma_share_is_bounded(amount: u128, numerator: u32, denominator: u32)
    requires
        numerator <= denominator,
        denominator > 0,
    ensures
        share_of(amount, numerator, denominator) <= amount,
{
    let a = amount as int;
    let n = numerator as int;
    let d = denominator as int;
    lemma_mul_inequality(n, d, a);
    assert(a * n == n * a && a * d == d * a) by (nonlinear_arith);
    lemma_div_is_ordered(a * n, a * d, d);
    assert((a * d) / d == a) by (nonlinear_arith)
        requires
            d > 0,
    ;
    assert(a * n >= 0) by (nonlinear_arith)
        requires
            a >= 0,
            n >= 0,
    ;
    assert((a * n) / d >= 0) by (nonlinear_arith)
        requires
            a * n >= 0,
            d > 0,
    ;
}

/// A share grows with its numerator.
pub proof fn lemma_share_is_monotonic(amount: u128, low: u32, high: u32, denominator: u32)
    requires
        low <= high,
        denominator > 0,
    ensures
        share_of(amount, low, denominator) <= share_of(amount, high, denominator),
{
    let a = amount as int;
    let d = denominator as int;
    lemma_mul_inequality(low as int, high as int, a);
    assert(a * (low as int) == (low as int) * a && a * (high as int) == (high as int) * a)
        by (nonlinear_arith);
    lemma_div_is_ordered(a * (low as int), a * (high as int), d);
    assert(a * (low as int) >= 0) by (nonlinear_arith)
        requires
            a >= 0,
            low >= 0,
    ;
    assert((a * (low as int)) / d >= 0) by (nonlinear_arith)
        requires
            a * (low as int) >= 0,
            d > 0,
    ;
}

/// Computes a share of a 128-bit amount without leaving 128 bits: the
/// quotient and the remainder of the amount by the denominator are scaled
/// apart.
pub fn share(amount: u128, numerator: u32, denominator: u32) -> (part: u128)
    requires
        numerator <= denominator,
        denominator > 0,
    ensures
        part == share_of(amount, numerator, denominator),
        part <= amount,
{
    let wide_numerator: u128 = numerator as u128;
    let wide_denominator: u128 = denominator as u128;
    let quotient: u128 = amount / wide_denominator;
    let remainder: u128 = amount % wide_denominator;
    proof {
        let a = amount as int;
        let n = numerator as int;
        let d = denominator as int;
        let q = quotient as int;
        let r = remainder as int;
        lemma_fundamental_div_mod(a, d);
        assert(a == d * q + r);
        assert(q * n <= q * d) by (nonlinear_arith)
            requires
                n <= d,
                q >= 0,
        ;
        assert(q * d == d * q) by (nonlinear_arith);
        assert(r * n <= (d - 1) * d) by (nonlinear_arith)
            requires
                0 <= r <= d - 1,
                0 <= n <= d,
        ;
        assert((d - 1) * d <= 0xffff_ffff * 0xffff_ffff) by (nonlinear_arith)
            requires
                0 < d <= 0xffff_ffff,
        ;
        assert(a * n == r * n + (q * n) * d) by (nonlinear_arith)
            requires
                a == d * q + r,
        ;
        lemma_hoist_over_denominator(r * n, q * n, d as nat);
        assert((r * n) / d + q * n == (a * n) / d);
        assert(r * n >= 0) by (nonlinear_arith)
            requires
                r >= 0,
                n >= 0,
        ;
        lemma_share_is_bounded(amount, numerator, denominator);
    }
    quotient * wide_numerator + (remainder * wide_numerator) / wide_denominator
}

/// The vested part of `amount` at `now`, for a cliff that ends at
/// `cliff_end` and a vesting that ends at `vesting_end`.
pub fn calculate_vested_amount(now: u32, cliff_end: u32, vesting_end: u32, amount: u128) -> (vested:
    u128)
    ensures
        vested == vested_amount(now, cliff_end, vesting_end, amount),
        vested <= amount,
{
    if now < cliff_end {
        return 0;
    }
    if now >= vesting_end {
        return amount;
    }
    share(amount, now - cliff_end, vesting_end - cliff_end)
}

/// Vesting never exceeds the amount granted.
pub proof fn lemma_vested_amount_is_bounded(now: u32, cliff_end: u32, vesting_end: u32, total: u128)
    ensures
        vested_amount(now, cliff_end, vesting_end, total) <= total,
{
    if cliff_end <= now && now < vesting_end {
        lemma_share_is_bounded(total, (now - cliff_end) as u32, (vesting_end - cliff_end) as u32);
    }
}

/// For fixed grant parameters the vested amount never decreases as time
/// passes: it is zero before the cliff ends, the rounded-down linear share
/// until vesting ends, and the whole amount from then on.
pub proof fn law_vested_amount_is_monotonic(
    earlier: u32,
    later: u32,
    cliff_end: u32,
    vesting_end: u32,
    total: u128,
)
    requires
        earlier <= later,
    ensures
        vested_amount(earlier, cliff_end, vesting_end, total) <= vested_amount(
            later,
            cliff_end,
            vesting_end,
            total,
        ),
        earlier < cliff_end ==> vested_amount(earlier, cliff_end, vesting_end, total) == 0,
        earlier >= vesting_end && earlier >= cliff_end ==> vested_amount(
            earlier,
            cliff_end,
            vesting_end,
            total,
        ) == total,
        cliff_end <= earlier < vesting_end ==> vested_amount(
            earlier,
            cliff_end,
            vesting_end,
            total,
        ) == (total as int) * (earlier - cliff_end) / (vesting_end - cliff_end),
{
    lemma_vested_amount_is_bounded(earlier, cliff_end, vesting_end, total);
    lemma_vested_amount_is_bounded(later, cliff_end, vesting_end, total);
    if cliff_end <= earlier && later < vesting_end {
        lemma_share_is_monotonic(
            total,
            (earlier - cliff_end) as u32,
            (later - cliff_end) as u32,
            (vesting_end - cliff_end) as u32,
        );
    }
    if cliff_end <= earlier && earlier < vesting_end {
        let a = total as int;
        let n = (earlier - cliff_end) as int;
        let d = (vesting_end - cliff_end) as int;
        assert(a * n >= 0) by (nonlinear_arith)
            requires
                a >= 0,
                n >= 0,
        ;
        assert((a * n) / d >= 0) by (nonlinear_arith)
            requires
                a * n >= 0,
                d > 0,
        ;
    }
}

} // verus!
