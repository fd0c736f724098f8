//! Minimum-coin change: the fewest coins of the given denominations that
//! sum to an amount, or `None` when no combination reaches it exactly.

use vstd::prelude::*;

verus! {

use std::collections::HashMap;

broadcast use vstd::std_specs::hash::group_hash_axioms;

/// The best count over the first `k` coins at amount `m`: each affordable
/// coin `c` offers one plus the best count for `m - c` over all coins, and
/// the minimum of the offers wins. Coins below one are ignored, as is any
/// coin larger than the amount.
pub open spec fn min_coins_from(m: int, coins: Seq<int>, k: int) -> Option<nat>
    decreases m, k,
{
    if m < 1 || k <= 0 {
        None
    } else {
        let prev = min_coins_from(m, coins, k - 1);
        let c = coins[k - 1];
        let sub: Option<nat> = if 1 <= c <= m {
            min_coins_spec(m - c, coins)
        } else {
            None
        };
        match (prev, sub) {
            (Some(a), Some(b)) => Some(
                if a < b + 1 {
                    a
                } else {
                    (b + 1) as nat
                },
            ),
            (Some(a), None) => Some(a),
            (None, Some(b)) => Some((b + 1) as nat),
            (None, None) => None,
        }
    }
}

/// The fewest coins summing to `m`, or `None`.
pub open spec fn min_coins_spec(m: int, coins: Seq<int>) -> Option<nat>
    decreases m, coins.len() + 1,
{
    if m == 0 {
        Some(0)
    } else {
        min_coins_from(m, coins, coins.len() as int)
    }
}

/// A successful partial count never exceeds the amount: every coin is
/// worth at least one.
proof fn lemma_from_le(m: int, coins: Seq<int>, k: int)
    ensures
        min_coins_from(m, coins, k) matches Some(v) ==> v <= m,
    decreases m, k,
{
    if m >= 1 && k > 0 {
        lemma_from_le(m, coins, k - 1);
        let c = coins[k - 1];
        if 1 <= c <= m {
            lemma_count_le_amount(m - c, coins);
        }
    }
}

/// A successful count never exceeds the amount.
proof fn lemma_count_le_amount(m: int, coins: Seq<int>)
    ensures
        min_coins_spec(m, coins) matches Some(v) ==> v <= m,
    decreases m, coins.len() + 1,
{
    if m != 0 {
        lemma_from_le(m, coins, coins.len() as int);
    }
}

/// Two optional counts agree, one as machine words and one mathematical.
pub open spec fn opt_eq(a: Option<usize>, b: Option<nat>) -> bool {
    match (a, b) {
        (Some(x), Some(y)) => x as nat == y,
        (None, None) => true,
        _ => false,
    }
}

/// Every memoized entry holds the true count for its amount.
pub open spec fn memo_ok(m: Map<i32, Option<usize>>, coins: Seq<int>) -> bool {
    forall|k: i32|
        m.contains_key(k) ==> opt_eq(#[trigger] m[k], min_coins_spec(k as int, coins))
}

/// The coin values as mathematical integers.
pub open spec fn coin_values(coins: Seq<i32>) -> Seq<int> {
    coins.map_values(|c: i32| c as int)
}

/// The fewest coins from `coins` that sum exactly to `m`, memoized in
/// `memo` across calls.
pub fn min_coins_m(m: i32, coins: &[i32], memo: &mut HashMap<i32, Option<usize>>) -> (r: Option<
    usize,
>)
    requires
        m >= 0,
        forall|i: int| 0 <= i < coins@.len() ==> coins@[i] >= 1,
        memo_ok(old(memo)@, coin_values(coins@)),
    ensures
        memo_ok(final(memo)@, coin_values(coins@)),
        opt_eq(r, min_coins_spec(m as int, coin_values(coins@))),
    decreases m,
{
    let ghost cv = coin_values(coins@);
    if m == 0 {
        return Some(0);
    }
    if let Some(c) = memo.get(&m) {
        return *c;
    }
    let mut count: Option<usize> = None;
    let mut i: usize = 0;
    while i < coins.len()
        invariant
            m >= 1,
            i <= coins@.len(),
            cv == coin_values(coins@),
            forall|j: int| 0 <= j < coins@.len() ==> coins@[j] >= 1,
            memo_ok(memo@, cv),
            opt_eq(count, min_coins_from(m as int, cv, i as int)),
        decreases coins@.len() - i,
    {
        let coin = coins[i];
        if coin <= m {
            let next = m - coin;
            let sub = min_coins_m(next, coins, memo);
            proof {
                lemma_count_le_amount(next as int, cv);
            }
            count = match (count, sub) {
                (Some(a), Some(b)) => Some(
                    if a < b + 1 {
                        a
                    } else {
                        b + 1
                    },
                ),
                (Some(a), None) => Some(a),
                (None, Some(b)) => Some(b + 1),
                (None, None) => None,
            };
        }
        i = i + 1;
    }
    memo.insert(m, count);
    count
}

/// The fewest coins from `coins` that sum exactly to `m`, by plain
/// recursion.
pub fn min_coins(m: i32, coins: &[i32]) -> (r: Option<usize>)
    requires
        m >= 0,
        forall|i: int| 0 <= i < coins@.len() ==> coins@[i] >= 1,
    ensures
        opt_eq(r, min_coins_spec(m as int, coin_values(coins@))),
    decreases m,
{
    let ghost cv = coin_values(coins@);
    if m == 0 {
        return Some(0);
    }
    let mut count: Option<usize> = None;
    let mut i: usize = 0;
    while i < coins.len()
        invariant
            m >= 1,
            i <= coins@.len(),
            cv == coin_values(coins@),
            forall|j: int| 0 <= j < coins@.len() ==> coins@[j] >= 1,
            opt_eq(count, min_coins_from(m as int, cv, i as int)),
        decreases coins@.len() - i,
    {
        let coin = coins[i];
        if coin <= m {
            let next = m - coin;
            let sub = min_coins(next, coins);
            proof {
                lemma_count_le_amount(next as int, cv);
            }
            count = match (count, sub) {
                (Some(a), Some(b)) => Some(
                    if a < b + 1 {
                        a
                    } else {
                        b + 1
                    },
                ),
                (Some(a), None) => Some(a),
                (None, Some(b)) => Some(b + 1),
                (None, None) => None,
            };
        }
        i = i + 1;
    }
    count
}

} // verus!
