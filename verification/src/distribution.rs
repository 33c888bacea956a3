//! Distribution policy: the proportional split of an expansion amount
//! between the stability fund and the market maker.
//!
//! Each share is `amount * ratio / 100`, rounding down. The two ratios come
//! from configuration and need not claim the whole amount; whatever the
//! rounding or the ratios leave over is retained undistributed.

use vstd::prelude::*;

verus! {

use vstd::arithmetic::mul::lemma_mul_upper_bound;
use vstd::arithmetic::mul::lemma_mul_inequality;
use vstd::arithmetic::mul::lemma_mul_is_distributive_add;
use vstd::arithmetic::div_mod::lemma_fundamental_div_mod;
use vstd::arithmetic::div_mod::lemma_fundamental_div_mod_converse;
use vstd::arithmetic::div_mod::lemma_mod_bound;

/// The share of `amount` that `ratio` percent selects, rounding down.
pub open spec fn spec_share(amount: u64, ratio: u64) -> int {
    amount * ratio / 100
}

/// Split `amount` between the stability fund and the market maker
/// according to their configured percentages.
pub fn split(amount: u64, stability_ratio: u64, market_ratio: u64) -> (r: (u64, u64))
    requires
        stability_ratio + market_ratio <= 100,
    ensures
        r.0 == spec_share(amount, stability_ratio),
        r.1 == spec_share(amount, market_ratio),
        r.0 + r.1 <= amount,
{
    proof {
        lemma_mul_upper_bound(amount as int, u64::MAX as int, stability_ratio as int, 100);
        lemma_mul_upper_bound(amount as int, u64::MAX as int, market_ratio as int, 100);
        lemma_share_le_amount(amount, stability_ratio);
        lemma_share_le_amount(amount, market_ratio);
        lemma_split_round_trip(amount, stability_ratio, market_ratio);
    }
    let to_stability: u64 = (((amount as u128) * (stability_ratio as u128)) / 100) as u64;
    let to_market: u64 = (((amount as u128) * (market_ratio as u128)) / 100) as u64;
    (to_stability, to_market)
}

/// A share selected by at most one hundred percent never exceeds the amount.
proof fn lemma_share_le_amount(amount: u64, ratio: u64)
    requires
        ratio <= 100,
    ensures
        0 <= spec_share(amount, ratio) <= amount,
{
    lemma_mul_inequality(ratio as int, 100, amount as int);
    lemma_fundamental_div_mod(amount as int * ratio as int, 100);
    lemma_mod_bound(amount as int * ratio as int, 100);
    lemma_fundamental_div_mod_converse(amount as int * 100, 100, amount as int, 0);
    assert(amount as int * ratio <= amount as int * 100) by (nonlinear_arith)
        requires
            ratio <= 100,
            0 <= amount as int,
    {
    }
    assert(spec_share(amount, ratio) <= amount as int * 100 / 100) by {
        vstd::arithmetic::div_mod::lemma_div_is_ordered(
            amount as int * ratio,
            amount as int * 100,
            100,
        );
    }
}

/// The two shares together never exceed the amount that was split; when the
/// ratios sum to one hundred percent and the stability share divides
/// evenly, they exhaust it exactly.
pub proof fn lemma_split_round_trip(amount: u64, stability_ratio: u64, market_ratio: u64)
    requires
        stability_ratio + market_ratio <= 100,
    ensures
        spec_share(amount, stability_ratio) + spec_share(amount, market_ratio) <= amount,
        stability_ratio + market_ratio == 100 && (amount * stability_ratio) % 100 == 0
            ==> spec_share(amount, stability_ratio) + spec_share(amount, market_ratio) == amount,
{
    let x = amount as int * stability_ratio as int;
    let y = amount as int * market_ratio as int;
    lemma_mul_is_distributive_add(
        amount as int,
        stability_ratio as int,
        market_ratio as int,
    );
    lemma_mul_inequality(
        stability_ratio as int + market_ratio as int,
        100,
        amount as int,
    );
    assert(x + y <= 100 * amount);
    lemma_fundamental_div_mod(x, 100);
    lemma_mod_bound(x, 100);
    lemma_fundamental_div_mod(y, 100);
    lemma_mod_bound(y, 100);
    assert(100 * (x / 100 + y / 100) <= 100 * amount);
    if stability_ratio + market_ratio == 100 && x % 100 == 0 {
        assert(x + y == 100 * amount);
        assert(y == (amount - x / 100) * 100 + 0) by {
            assert(x == 100 * (x / 100));
            assert((amount - x / 100) * 100 == amount as int * 100 - (x / 100) * 100)
                by (nonlinear_arith)
            {
            }
        }
        lemma_fundamental_div_mod_converse(y, 100, amount - x / 100, 0);
    }
}

} // verus!
