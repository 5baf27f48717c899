//! The payout splitter: a pool divided by percentages, every amount rounded
//! down. What rounding leaves over is handed to nobody.

use vstd::prelude::*;
use vstd::arithmetic::div_mod::*;
use vstd::arithmetic::mul::*;

verus! {

/// `percent` hundredths of `amount`, rounded down.
pub open spec fn share(amount: int, percent: int) -> int {
    (amount * percent) / 100
}

/// A share splits into the share of the whole hundreds and the share of the
/// rest, so it can be computed without ever forming `amount * percent`.
pub proof fn lemma_share_by_parts(amount: int, percent: int)
    requires
        0 <= amount,
        0 <= percent,
    ensures
        share(amount, percent) == (amount / 100) * percent + ((amount % 100) * percent) / 100,
{
    let q = amount / 100;
    let r = amount % 100;
    lemma_fundamental_div_mod(amount, 100);
    assert(amount == 100 * q + r);
    assert(amount * percent == 100 * (q * percent) + r * percent) by (nonlinear_arith)
        requires
            amount == 100 * q + r,
    ;
    lemma_mul_nonnegative(r, percent);
    lemma_fundamental_div_mod(r * percent, 100);
    let q2 = (r * percent) / 100;
    let r2 = (r * percent) % 100;
    assert(amount * percent == 100 * (q * percent + q2) + r2);
    lemma_fundamental_div_mod_converse(amount * percent, 100, q * percent + q2, r2);
}

/// A share of at most a hundred percent lies between nothing and the whole.
pub proof fn lemma_share_bounds(amount: int, percent: int)
    requires
        0 <= amount,
        0 <= percent <= 100,
    ensures
        0 <= share(amount, percent) <= amount,
        100 * share(amount, percent) <= amount * percent,
{
    lemma_mul_nonnegative(amount, percent);
    lemma_fundamental_div_mod(amount * percent, 100);
    assert(amount * percent <= amount * 100) by (nonlinear_arith)
        requires
            0 <= amount,
            0 <= percent <= 100,
    ;
}

pub fn percent_of(amount: i128, percent: u32) -> (r: i128)
    requires
        0 <= amount,
        percent <= 100,
    ensures
        r == share(amount as int, percent as int),
{
    let whole: i128 = amount / 100;
    let rest: i128 = amount % 100;
    proof {
        lemma_share_by_parts(amount as int, percent as int);
        lemma_share_bounds(amount as int, percent as int);
        assert(0 <= whole * percent <= amount) by (nonlinear_arith)
            requires
                0 <= whole,
                whole * 100 <= amount,
                0 <= percent <= 100,
        ;
        assert(0 <= rest * percent <= 9900) by (nonlinear_arith)
            requires
                0 <= rest < 100,
                0 <= percent <= 100,
        ;
    }
    whole * (percent as i128) + (rest * (percent as i128)) / 100
}

/// What a pool is split into: the cut taken first, and one amount per tier
/// out of what the cut leaves.
pub struct Split {
    pub admin_fee: i128,
    pub shares: Vec<i128>,
}

/// What is left of the pool once the flat cut is taken.
pub open spec fn remainder(pool: int, admin_fee_percent: int) -> int {
    pool - share(pool, admin_fee_percent)
}

/// The sum of the first `n` numbers of `s`.
pub open spec fn sum_to(s: Seq<int>, n: int) -> int
    decreases n,
{
    if n <= 0 {
        0
    } else {
        sum_to(s, n - 1) + s[n - 1]
    }
}

/// The amounts that the tiers get out of `rest`.
pub open spec fn tier_shares(rest: int, tiers: Seq<u32>) -> Seq<int> {
    Seq::new(tiers.len(), |i: int| share(rest, tiers[i] as int))
}

/// The tiers' percentages as plain numbers.
pub open spec fn percents(tiers: Seq<u32>) -> Seq<int> {
    Seq::new(tiers.len(), |i: int| tiers[i] as int)
}

/// Everything a split hands out: the cut and all the tiers' amounts.
pub open spec fn distributed(pool: int, admin_fee_percent: int, tiers: Seq<u32>) -> int {
    let shares = tier_shares(remainder(pool, admin_fee_percent), tiers);
    share(pool, admin_fee_percent) + sum_to(shares, shares.len() as int)
}

proof fn lemma_shares_within(rest: int, tiers: Seq<u32>, n: int)
    requires
        0 <= rest,
        0 <= n <= tiers.len(),
        forall|i: int| 0 <= i < tiers.len() ==> tiers[i] <= 100,
    ensures
        0 <= sum_to(tier_shares(rest, tiers), n),
        100 * sum_to(tier_shares(rest, tiers), n) <= rest * sum_to(percents(tiers), n),
    decreases n,
{
    if n > 0 {
        lemma_shares_within(rest, tiers, n - 1);
        let t = tiers[n - 1] as int;
        lemma_share_bounds(rest, t);
        let a = sum_to(percents(tiers), n - 1);
        assert(rest * (a + t) == rest * a + rest * t) by (nonlinear_arith);
    } else {
        assert(rest * 0 == 0) by (nonlinear_arith);
    }
}

/// A split never hands out more than the pool: with a cut of at most a
/// hundred percent and tiers that add up to at most a hundred percent, the
/// cut and the tiers' amounts together stay within the pool. What rounding
/// down leaves over is not handed out.
pub proof fn lemma_split_within_pool(pool: int, admin_fee_percent: int, tiers: Seq<u32>)
    requires
        0 <= pool,
        0 <= admin_fee_percent <= 100,
        forall|i: int| 0 <= i < tiers.len() ==> tiers[i] <= 100,
        sum_to(percents(tiers), tiers.len() as int) <= 100,
    ensures
        0 <= share(pool, admin_fee_percent) <= pool,
        0 <= sum_to(
            tier_shares(remainder(pool, admin_fee_percent), tiers),
            tiers.len() as int,
        ) <= remainder(pool, admin_fee_percent),
        0 <= distributed(pool, admin_fee_percent, tiers) <= pool,
{
    lemma_share_bounds(pool, admin_fee_percent);
    let rest = remainder(pool, admin_fee_percent);
    let n = tiers.len() as int;
    lemma_shares_within(rest, tiers, n);
    let total = sum_to(percents(tiers), n);
    assert(rest * total <= rest * 100) by (nonlinear_arith)
        requires
            0 <= rest,
            total <= 100,
    ;
}

/// Splits `pool`: first the flat cut of `admin_fee_percent` hundredths, then
/// for each tier its percentage of what the cut left. Every amount is
/// rounded down, and nothing makes up for what rounding leaves over.
pub fn split(pool: i128, admin_fee_percent: u32, tier_percents: &Vec<u32>) -> (out: Split)
    requires
        0 <= pool,
        admin_fee_percent <= 100,
        forall|i: int| 0 <= i < tier_percents@.len() ==> tier_percents@[i] <= 100,
    ensures
        out.admin_fee == share(pool as int, admin_fee_percent as int),
        out.shares@.len() == tier_percents@.len(),
        forall|i: int|
            0 <= i < tier_percents@.len() ==> out.shares@[i] == #[trigger] tier_shares(
                remainder(pool as int, admin_fee_percent as int),
                tier_percents@,
            )[i],
{
    let admin_fee: i128 = percent_of(pool, admin_fee_percent);
    proof {
        lemma_share_bounds(pool as int, admin_fee_percent as int);
    }
    let rest: i128 = pool - admin_fee;
    let mut shares: Vec<i128> = Vec::new();
    let mut i: usize = 0;
    while i < tier_percents.len()
        invariant
            0 <= rest,
            rest == remainder(pool as int, admin_fee_percent as int),
            i <= tier_percents@.len(),
            shares@.len() == i,
            forall|j: int| 0 <= j < tier_percents@.len() ==> tier_percents@[j] <= 100,
            forall|j: int|
                0 <= j < i ==> shares@[j] == #[trigger] tier_shares(
                    rest as int,
                    tier_percents@,
                )[j],
        decreases tier_percents@.len() - i,
    {
        let amount: i128 = percent_of(rest, tier_percents[i]);
        shares.push(amount);
        i = i + 1;
    }
    Split { admin_fee, shares }
}

} // verus!
