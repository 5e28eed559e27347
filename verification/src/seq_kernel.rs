//! The strictly sequential kernel: one denomination at a time, amounts in
//! ascending order, the coin-count axis innermost for cache locality.

use vstd::prelude::*;

use crate::model::{
    coin_values, coins_valid, idx, lemma_dims_fit, lemma_fold_noop_big_coin,
    lemma_fresh_table_inv, lemma_idx_bounds, lemma_idx_injective, lemma_wrap_add, solve_spec,
    table_inv, table_size_ok, ways, wrap64,
};
use crate::table::{alloc_table, reduce, AllocationError};

verus! {

/// Fold one denomination `c` into the table, sequentially.
///
/// Amounts are walked strictly ascending from `c` to `target`, so that the
/// cells at `v - c` already reflect this denomination's own updates when
/// they feed the cells at `v`; for each amount the coin-count axis is
/// walked contiguously.
#[verifier::loop_isolation(false)]
pub(crate) fn fold_coin_seq(
    dp: &mut Vec<u64>,
    target: usize,
    max_coins: usize,
    c: usize,
    Ghost(coins): Ghost<Seq<int>>,
    Ghost(n): Ghost<int>,
)
    requires
        0 <= n < coins.len(),
        coins[n] == c as int,
        1 <= c <= target,
        table_size_ok(target as int, max_coins as int),
        table_inv(old(dp)@, coins, n, target as int, max_coins as int),
    ensures
        table_inv(final(dp)@, coins, n + 1, target as int, max_coins as int),
{
    let ghost tg = target as int;
    let ghost mc = max_coins as int;
    proof {
        lemma_dims_fit(tg, mc);
        // Amounts below c keep their counts when this denomination folds in.
        assert forall|v2: int, k2: int| 0 <= v2 < c && 0 <= k2 <= mc implies ways(
            coins,
            n + 1,
            v2,
            k2,
        ) == ways(coins, n, v2, k2) by {}
    }
    let stride = max_coins + 1;
    let mut v: usize = c;
    while v <= target
        invariant
            c <= v,
            v <= target + 1,
            dp@.len() == (tg + 1) * (mc + 1),
            forall|v2: int, k2: int|
                0 <= v2 < v && 0 <= k2 <= mc ==> dp@[#[trigger] idx(v2, k2, mc + 1)] as nat
                    == wrap64(ways(coins, n + 1, v2, k2)),
            forall|v2: int, k2: int|
                v <= v2 <= tg && 0 <= k2 <= mc ==> dp@[#[trigger] idx(v2, k2, mc + 1)] as nat
                    == wrap64(ways(coins, n, v2, k2)),
        decreases tg + 1 - v,
    {
        proof {
            assert(ways(coins, n + 1, v as int, 0) == ways(coins, n, v as int, 0));
            assert(dp@[idx(v as int, 0, mc + 1)] as nat == wrap64(ways(coins, n + 1, v as int, 0)));
        }
        for k in 1..stride
            invariant
                dp@.len() == (tg + 1) * (mc + 1),
                forall|v2: int, k2: int|
                    0 <= v2 < v && 0 <= k2 <= mc ==> dp@[#[trigger] idx(v2, k2, mc + 1)] as nat
                        == wrap64(ways(coins, n + 1, v2, k2)),
                forall|v2: int, k2: int|
                    v < v2 <= tg && 0 <= k2 <= mc ==> dp@[#[trigger] idx(v2, k2, mc + 1)] as nat
                        == wrap64(ways(coins, n, v2, k2)),
                forall|k2: int|
                    0 <= k2 < k ==> dp@[#[trigger] idx(v as int, k2, mc + 1)] as nat == wrap64(
                        ways(coins, n + 1, v as int, k2),
                    ),
                forall|k2: int|
                    k <= k2 <= mc ==> dp@[#[trigger] idx(v as int, k2, mc + 1)] as nat == wrap64(
                        ways(coins, n, v as int, k2),
                    ),
        {
            proof {
                lemma_idx_bounds(v as int, k as int, tg, mc + 1);
                lemma_idx_bounds(v as int - c as int, k as int - 1, tg, mc + 1);
            }
            let i_prev = (v - c) * stride + (k - 1);
            let prev = dp[i_prev];
            let i_cur = v * stride + k;
            let cur = dp[i_cur];
            proof {
                assert(i_prev as int == idx(v as int - c as int, k as int - 1, mc + 1));
                assert(i_cur as int == idx(v as int, k as int, mc + 1));
                // v - c is below v, so it already holds this denomination's counts.
                assert(prev as nat == wrap64(ways(coins, n + 1, v as int - c as int, k as int - 1)));
                assert(cur as nat == wrap64(ways(coins, n, v as int, k as int)));
                assert(ways(coins, n + 1, v as int, k as int) == ways(coins, n, v as int, k as int)
                    + ways(coins, n + 1, v as int - c as int, k as int - 1));
                lemma_wrap_add(
                    ways(coins, n, v as int, k as int),
                    ways(coins, n + 1, v as int - c as int, k as int - 1),
                    cur,
                    prev,
                );
            }
            let sum = cur.wrapping_add(prev);
            dp[i_cur] = sum;
            proof {
                assert forall|v2: int, k2: int| 0 <= v2 < v as int && 0 <= k2 <= mc implies dp@[
                    #[trigger] idx(v2, k2, mc + 1)] as nat == wrap64(ways(coins, n + 1, v2, k2)) by {
                    lemma_idx_bounds(v2, k2, tg, mc + 1);
                    if idx(v2, k2, mc + 1) == i_cur as int {
                        lemma_idx_injective(v2, k2, v as int, k as int, mc + 1);
                    }
                }
                assert forall|v2: int, k2: int| (v as int) < v2 <= tg && 0 <= k2 <= mc implies dp@[
                    #[trigger] idx(v2, k2, mc + 1)] as nat == wrap64(ways(coins, n, v2, k2)) by {
                    lemma_idx_bounds(v2, k2, tg, mc + 1);
                    if idx(v2, k2, mc + 1) == i_cur as int {
                        lemma_idx_injective(v2, k2, v as int, k as int, mc + 1);
                    }
                }
                assert forall|k2: int| 0 <= k2 < k + 1 implies dp@[#[trigger] idx(
                    v as int,
                    k2,
                    mc + 1,
                )] as nat == wrap64(ways(coins, n + 1, v as int, k2)) by {
                    lemma_idx_bounds(v as int, k2, tg, mc + 1);
                    if idx(v as int, k2, mc + 1) == i_cur as int {
                        lemma_idx_injective(v as int, k2, v as int, k as int, mc + 1);
                    }
                }
                assert forall|k2: int| k + 1 <= k2 <= mc implies dp@[#[trigger] idx(
                    v as int,
                    k2,
                    mc + 1,
                )] as nat == wrap64(ways(coins, n, v as int, k2)) by {
                    lemma_idx_bounds(v as int, k2, tg, mc + 1);
                    if idx(v as int, k2, mc + 1) == i_cur as int {
                        lemma_idx_injective(v as int, k2, v as int, k as int, mc + 1);
                    }
                }
            }
        }
        v = v + 1;
    }
}

/// The sequential kernel: allocate and seed the table, fold each
/// denomination in input order, reduce the target row.
///
/// Returns the number of ways to assemble `target` from `coins` using at
/// most `max_coins` coins, reduced modulo 2^64; fails exactly when the
/// table size cannot be represented.
pub fn solve_transposed_seq_core(target: usize, max_coins: usize, coins: &[i64]) -> (r: Result<
    u64,
    AllocationError,
>)
    requires
        coins_valid(coins@),
    ensures
        r is Ok <==> table_size_ok(target as int, max_coins as int),
        r matches Ok(total) ==> total as nat == wrap64(
            solve_spec(target as int, max_coins as int, coin_values(coins@)),
        ),
{
    let mut dp = match alloc_table(target, max_coins) {
        Ok(t) => t,
        Err(e) => {
            return Err(e);
        },
    };
    let ghost cs = coin_values(coins@);
    proof {
        lemma_fresh_table_inv(dp@, cs, target as int, max_coins as int);
    }
    let n_coins = coins.len();
    for i in 0..n_coins
        invariant
            coins_valid(coins@),
            cs == coin_values(coins@),
            n_coins == coins@.len(),
            table_size_ok(target as int, max_coins as int),
            table_inv(dp@, cs, i as int, target as int, max_coins as int),
    {
        let coin = coins[i];
        let c = coin as usize;
        if c <= target {
            fold_coin_seq(&mut dp, target, max_coins, c, Ghost(cs), Ghost(i as int));
        } else {
            proof {
                lemma_fold_noop_big_coin(dp@, cs, i as int, target as int, max_coins as int);
            }
        }
    }
    let total = reduce(&dp, target, max_coins, Ghost(cs), Ghost(cs.len() as int));
    Ok(total)
}

} // verus!
