//! Percentages in fixed point, and the division of an amount by them.

use crate::types::ContributorView;
use vstd::arithmetic::div_mod::*;
use vstd::arithmetic::mul::*;
use vstd::prelude::*;

verus! {

/// The fixed-point value of 100%: ten to the power 23.
pub const PERCENTAGE_SCALE: u128 = 100_000_000_000_000_000_000_000;

/// A split has at most this many contributors.
pub const MAX_CONTRIBUTORS: usize = 200;

/// The share of `amount` that falls to a contributor weighted `percentage`:
/// the product divided by the scale, rounded down.
pub open spec fn share_of(amount: nat, percentage: nat) -> nat {
    amount * percentage / (PERCENTAGE_SCALE as nat)
}

/// The sum of the percentages of a contributor list.
pub open spec fn total_percentage(list: Seq<ContributorView>) -> nat
    decreases list.len(),
{
    if list.len() == 0 {
        0
    } else {
        total_percentage(list.drop_last()) + list.last().percentage
    }
}

/// The sum of the shares of `amount` over a contributor list.
pub open spec fn total_shares(list: Seq<ContributorView>, amount: nat) -> nat
    decreases list.len(),
{
    if list.len() == 0 {
        0
    } else {
        total_shares(list.drop_last(), amount) + share_of(amount, list.last().percentage)
    }
}

/// No share is larger than the amount, as long as the percentage is at most
/// 100%.
pub proof fn lemma_share_bounded(amount: nat, percentage: nat)
    requires
        percentage <= PERCENTAGE_SCALE,
    ensures
        share_of(amount, percentage) <= amount,
{
    let s = PERCENTAGE_SCALE as int;
    lemma_mul_inequality(percentage as int, s, amount as int);
    lemma_mul_is_commutative(amount as int, percentage as int);
    lemma_mul_is_commutative(amount as int, s);
    lemma_div_is_ordered((amount * percentage) as int, amount * s, s);
    lemma_div_multiples_vanish(amount as int, s);
}

/// The shares of a list never add up to more than the share of the list's
/// total percentage.
pub proof fn lemma_total_shares_bounded(list: Seq<ContributorView>, amount: nat)
    ensures
        total_shares(list, amount) <= share_of(amount, total_percentage(list)),
    decreases list.len(),
{
    if list.len() > 0 {
        let s = PERCENTAGE_SCALE as int;
        let front = list.drop_last();
        lemma_total_shares_bounded(front, amount);
        let x = (amount * total_percentage(front)) as int;
        let y = (amount * list.last().percentage) as int;
        lemma_mul_is_distributive_add(
            amount as int,
            total_percentage(front) as int,
            list.last().percentage as int,
        );
        assert(amount * total_percentage(list) == x + y);
        lemma_fundamental_div_mod(x, s);
        lemma_fundamental_div_mod(y, s);
        lemma_mul_is_distributive_add(s, x / s, y / s);
        assert(x + y == s * (x / s + y / s) + (x % s + y % s));
        lemma_mul_is_commutative(s, x / s + y / s);
        lemma_hoist_over_denominator(x % s + y % s, x / s + y / s, s as nat);
        lemma_div_pos_is_pos(x % s + y % s, s);
    }
}

/// The shares of a list whose percentages add up to 100% never add up to more
/// than the amount.
pub proof fn lemma_shares_within_amount(list: Seq<ContributorView>, amount: nat)
    requires
        total_percentage(list) == PERCENTAGE_SCALE,
    ensures
        total_shares(list, amount) <= amount,
{
    lemma_total_shares_bounded(list, amount);
    lemma_share_bounded(amount, PERCENTAGE_SCALE as nat);
}

/// Computes a contributor's share of an amount. The product is never formed
/// in 128 bits: the amount is divided first, and its remainder is taken in two
/// parts that are small enough to be multiplied.
pub fn compute_share(amount: u128, percentage: u128) -> (r: u128)
    requires
        percentage <= PERCENTAGE_SCALE,
    ensures
        r == share_of(amount as nat, percentage as nat),
{
    let high: u128 = 1_000_000_000_000;
    let low: u128 = 100_000_000_000;
    let whole: u128 = amount / PERCENTAGE_SCALE;
    let rest: u128 = amount % PERCENTAGE_SCALE;
    let rest_high: u128 = rest / high;
    let rest_low: u128 = rest % high;
    proof {
        let s = PERCENTAGE_SCALE as int;
        let p = percentage as int;
        let a = amount as int;
        assert(high * low == s);
        // Nothing below overflows.
        lemma_mul_inequality(p, s, whole as int);
        lemma_mul_is_commutative(whole as int, p);
        lemma_mul_is_commutative(whole as int, s);
        lemma_fundamental_div_mod(a, s);
        assert(whole * p <= a);
        assert(rest_high < low) by {
            lemma_div_is_ordered(rest as int, s - 1, high as int);
        }
        lemma_mul_upper_bound(rest_high as int, low as int, p, s);
        lemma_mul_upper_bound(rest_low as int, high as int, p, s);
        // The parts add up to the quotient.
        lemma_fundamental_div_mod(rest as int, high as int);
        lemma_mul_is_distributive_add_other_way(p, high * rest_high, rest_low as int);
        lemma_mul_is_associative(high as int, rest_high as int, p);
        assert(rest * p == high * (rest_high * p) + rest_low * p);
        lemma_mul_is_commutative(high as int, rest_high * p);
        lemma_hoist_over_denominator(rest_low * p, rest_high * p, high as nat);
        assert((rest * p) / (high as int) == rest_high * p + (rest_low * p) / (high as int));
        lemma_div_denominator(rest * p, high as int, low as int);
        assert((rest * p) / s == (rest_high * p + (rest_low * p) / (high as int)) / (low as int));
        lemma_mul_is_distributive_add_other_way(p, s * whole, rest as int);
        lemma_mul_is_associative(s, whole as int, p);
        assert(a * p == s * (whole * p) + rest * p);
        lemma_mul_is_commutative(s, whole * p);
        lemma_hoist_over_denominator(rest * p, whole * p, s as nat);
        assert((a * p) / s == whole * p + (rest * p) / s);
        lemma_share_bounded(amount as nat, percentage as nat);
    }
    whole * percentage + (rest_high * percentage + (rest_low * percentage) / high) / low
}

} // verus!
