//! Fixed-point monetary arithmetic.
//!
//! Amounts are nonnegative integers counted in minor units, with eight
//! decimal places to the coin. Where sub-minor precision arises (percentage
//! splits, parsing of over-precise decimal text) the value is rounded
//! half-up to the nearest minor unit; this is the one rounding rule used
//! everywhere, so repeated rounding can never drift.

use vstd::prelude::*;

verus! {

use vstd::arithmetic::div_mod::lemma_div_is_ordered;
use vstd::arithmetic::div_mod::lemma_div_multiples_vanish_fancy;
use vstd::arithmetic::div_mod::lemma_div_pos_is_pos;
use vstd::arithmetic::div_mod::lemma_fundamental_div_mod;
use vstd::arithmetic::div_mod::lemma_fundamental_div_mod_converse;
use vstd::arithmetic::div_mod::lemma_mod_bound;

/// One coin expressed in minor units (eight decimal places).
pub const UNITS_PER_COIN: u64 = 100_000_000;

/// Flat transaction fee withheld from the balance before a payout is split:
/// 0.01 coin, in minor units.
pub const FEE_UNITS: u64 = 1_000_000;

/// Payout threshold: 0.02 coin, in minor units. Only a balance strictly
/// above it triggers a payout.
pub const PAYOUT_THRESHOLD_UNITS: u64 = 2_000_000;

/// Largest representable monetary amount, in minor units: twenty-one
/// million coins, far above any reachable wallet balance. Keeping every
/// amount under this cap keeps all intermediate products inside `u64`.
pub const MAX_AMOUNT_UNITS: u64 = 2_100_000_000_000_000;

/// An amount the library will do arithmetic on.
pub open spec fn valid_amount(units: u64) -> bool {
    units <= MAX_AMOUNT_UNITS
}

/// `n / d` rounded half-up to the nearest integer, for `n >= 0`, `d > 0`.
pub open spec fn round_half_up(n: int, d: int) -> int {
    (n + d / 2) / d
}

/// The `pct`-percent share of `amount`, rounded half-up to a minor unit.
pub open spec fn share(amount: int, pct: int) -> int {
    round_half_up(amount * pct, 100)
}

/// Rounds the ratio `n / d` half-up to the nearest integer: the numeric
/// precision helper behind every sub-minor-unit computation.
pub fn precise(n: u64, d: u64) -> (r: u64)
    requires
        0 < d,
    ensures
        r == round_half_up(n as int, d as int),
{
    proof {
        lemma_div_pos_is_pos(d as int, 2);
        assert(d as int / 2 < d as int) by {
            lemma_fundamental_div_mod(d as int, 2);
            lemma_mod_bound(d as int, 2);
        }
        lemma_div_pos_is_pos(n + d as int / 2, d as int);
        if d == 1 {
            vstd::arithmetic::div_mod::lemma_div_basics(n + d as int / 2);
        } else {
            vstd::arithmetic::div_mod::lemma_div_is_ordered_by_denominator(
                n + d as int / 2,
                2,
                d as int,
            );
            lemma_div_is_ordered(
                n + d as int / 2,
                u64::MAX + u64::MAX as int / 2,
                2,
            );
        }
    }
    let wide: u128 = n as u128 + (d as u128) / 2;
    (wide / (d as u128)) as u64
}

/// Rounding to minor units is idempotent: a value already on a minor-unit
/// boundary is returned unchanged, so amounts never drift under repeated
/// rounding.
pub proof fn lemma_precise_idempotent(n: int, d: int)
    requires
        0 < d,
        0 <= n,
    ensures
        round_half_up(round_half_up(n, d) * d, d) == round_half_up(n, d),
{
    let q = round_half_up(n, d);
    lemma_div_pos_is_pos(d, 2);
    assert(d / 2 < d) by {
        lemma_fundamental_div_mod(d, 2);
        lemma_mod_bound(d, 2);
    }
    lemma_div_multiples_vanish_fancy(q, d / 2, d);
    assert((d * q + d / 2) / d == q);
    assert(q * d + d / 2 == d * q + d / 2);
}

/// The `pct`-percent share of `amount`, rounded half-up to a minor unit.
/// Never exceeds `amount` itself.
pub fn pct_share(amount: u64, pct: u64) -> (r: u64)
    requires
        valid_amount(amount),
        pct <= 100,
    ensures
        r == share(amount as int, pct as int),
        r <= amount,
{
    proof {
        assert(amount as int * pct as int <= MAX_AMOUNT_UNITS as int * 100) by (nonlinear_arith)
            requires amount <= MAX_AMOUNT_UNITS, pct <= 100;
        assert(amount as int * pct as int >= 0) by (nonlinear_arith)
            requires 0 <= amount, 0 <= pct;
        lemma_share_le_amount(amount as int, pct as int);
    }
    precise(amount * pct, 100)
}

/// A percentage share of at most one hundred percent never exceeds the
/// amount it is taken from.
pub proof fn lemma_share_le_amount(amount: int, pct: int)
    requires
        0 <= amount,
        0 <= pct <= 100,
    ensures
        0 <= share(amount, pct) <= amount,
{
    assert(amount * pct <= amount * 100) by (nonlinear_arith)
        requires 0 <= amount, pct <= 100;
    assert(0 <= amount * pct) by (nonlinear_arith)
        requires 0 <= amount, 0 <= pct;
    lemma_div_pos_is_pos(amount * pct + 50, 100);
    lemma_div_is_ordered(amount * pct + 50, amount * 100 + 50, 100);
    assert((100 * amount + 50) / 100 == amount) by {
        lemma_div_multiples_vanish_fancy(amount, 50, 100);
    }
    assert(amount * 100 + 50 == 100 * amount + 50);
}

/// When the disbursable amount splits exactly — it is a multiple of
/// twenty minor units, so every share is whole — the four shares sum to
/// it exactly.
pub proof fn lemma_split_exact(a: int)
    requires
        0 <= a,
        a % 20 == 0,
    ensures
        share(a, 60) + share(a, 25) + share(a, 10) + share(a, 5) == a,
{
    let k = a / 20;
    lemma_fundamental_div_mod(a, 20);
    assert(a == 20 * k);
    assert(a * 60 + 50 == 100 * (12 * k) + 50);
    assert(a * 25 + 50 == 100 * (5 * k) + 50);
    assert(a * 10 + 50 == 100 * (2 * k) + 50);
    assert(a * 5 + 50 == 100 * k + 50);
    lemma_div_multiples_vanish_fancy(12 * k, 50, 100);
    lemma_div_multiples_vanish_fancy(5 * k, 50, 100);
    lemma_div_multiples_vanish_fancy(2 * k, 50, 100);
    lemma_div_multiples_vanish_fancy(k, 50, 100);
}

/// Split completeness: the four fixed shares (sixty, twenty-five, ten and
/// five percent) of a disbursable amount sum to the amount itself, within
/// one minor unit either way.
pub proof fn lemma_split_completeness(a: int)
    requires
        0 <= a,
    ensures
        a - 1 <= share(a, 60) + share(a, 25) + share(a, 10) + share(a, 5),
        share(a, 60) + share(a, 25) + share(a, 10) + share(a, 5) <= a + 1,
{
    let n1 = a * 60 + 50;
    let n2 = a * 25 + 50;
    let n3 = a * 10 + 50;
    let n4 = a * 5 + 50;
    lemma_fundamental_div_mod(n1, 100);
    lemma_fundamental_div_mod(n2, 100);
    lemma_fundamental_div_mod(n3, 100);
    lemma_fundamental_div_mod(n4, 100);
    lemma_mod_bound(n1, 100);
    lemma_mod_bound(n2, 100);
    lemma_mod_bound(n3, 100);
    lemma_mod_bound(n4, 100);
    // The sixty-percent numerator is never a multiple of one hundred:
    // it is 10 more than a multiple of 20, while multiples of 100 are
    // multiples of 20.
    lemma_fundamental_div_mod_converse(n1, 20, 3 * a + 2, 10);
    if n1 % 100 == 0 {
        let q = n1 / 100;
        assert(n1 == 100 * q);
        lemma_fundamental_div_mod_converse(n1, 20, 5 * q, 0);
        assert(false);
    }
    assert(n1 + n2 + n3 + n4 == 100 * a + 200);
    assert(share(a, 60) == n1 / 100 && share(a, 25) == n2 / 100 && share(a, 10) == n3 / 100
        && share(a, 5) == n4 / 100);
}

} // verus!
