//! The DP table: allocation with its single failure mode, the seed cell,
//! and the final reduction of the target row into one scalar.

use vstd::prelude::*;

use crate::model::{
    idx, lemma_dims_fit, lemma_idx_bounds, lemma_wrap_add, lemma_wrap_id, table_inv,
    table_size_ok, ways, ways_up_to, wrap64,
};

verus! {

/// The table size cannot be satisfied by the host: either computing
/// `(target + 1) * (max_coins + 1)` overflows the address space, or the
/// allocation itself would.
#[derive(Clone, Copy, Debug, PartialEq, Eq, Structural)]
pub struct AllocationError;

/// Allocate the zero-initialized flat table of `(target + 1) * (max_coins + 1)`
/// cells and set the single seed cell (amount 0, coin count 0) to 1.
///
/// Fails exactly when the requested size cannot be represented in the
/// host's address space.
pub fn alloc_table(target: usize, max_coins: usize) -> (r: Result<Vec<u64>, AllocationError>)
    ensures
        r is Ok <==> table_size_ok(target as int, max_coins as int),
        r matches Ok(t) ==> t@.len() == (target + 1) * (max_coins + 1),
        r matches Ok(t) ==> t@[0] == 1u64,
        r matches Ok(t) ==> forall|i: int| 1 <= i < t@.len() ==> t@[i] == 0u64,
{
    let rows = match target.checked_add(1) {
        Some(r) => r,
        None => {
            proof {
                assert((target as int + 1) * (max_coins as int + 1) > usize::MAX as int)
                    by (nonlinear_arith)
                    requires
                        target as int + 1 > usize::MAX as int,
                        max_coins as int >= 0,
                ;
            }
            return Err(AllocationError);
        },
    };
    let stride = match max_coins.checked_add(1) {
        Some(s) => s,
        None => {
            proof {
                assert((target as int + 1) * (max_coins as int + 1) > usize::MAX as int)
                    by (nonlinear_arith)
                    requires
                        max_coins as int + 1 > usize::MAX as int,
                        target as int >= 0,
                ;
            }
            return Err(AllocationError);
        },
    };
    let size = match rows.checked_mul(stride) {
        Some(s) => s,
        None => {
            return Err(AllocationError);
        },
    };
    let mut t: Vec<u64> = vec![0u64; size];
    proof {
        assert(size >= 1) by (nonlinear_arith)
            requires
                size as int == rows as int * stride as int,
                rows as int >= 1,
                stride as int >= 1,
        ;
    }
    t[0] = 1u64;
    Ok(t)
}

/// Reduce the table: sum the target row over all coin counts, wrapping at
/// 64 bits, into the single scalar result.
#[verifier::loop_isolation(false)]
pub(crate) fn reduce(
    dp: &Vec<u64>,
    target: usize,
    max_coins: usize,
    Ghost(coins): Ghost<Seq<int>>,
    Ghost(n): Ghost<int>,
) -> (total: u64)
    requires
        table_size_ok(target as int, max_coins as int),
        table_inv(dp@, coins, n, target as int, max_coins as int),
    ensures
        total as nat == wrap64(ways_up_to(coins, n, target as int, max_coins as int)),
{
    let ghost tg = target as int;
    let ghost mc = max_coins as int;
    proof {
        lemma_dims_fit(tg, mc);
        lemma_idx_bounds(tg, 0, tg, mc + 1);
        lemma_wrap_id(0u64);
    }
    let stride = max_coins + 1;
    let base = target * stride;
    let mut total: u64 = 0;
    for k in 0..stride
        invariant
            total as nat == wrap64(ways_up_to(coins, n, tg, k as int - 1)),
    {
        proof {
            lemma_idx_bounds(tg, k as int, tg, mc + 1);
            assert(base + k == idx(tg, k as int, mc + 1));
        }
        let cell = dp[base + k];
        proof {
            lemma_wrap_add(
                ways_up_to(coins, n, tg, k as int - 1),
                ways(coins, n, tg, k as int),
                total,
                cell,
            );
        }
        total = total.wrapping_add(cell);
    }
    total
}

} // verus!
