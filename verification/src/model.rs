//! Mathematical model of the counting problem and of the DP table.
//!
//! `ways` is the reference count: the number of ways to reach an amount with
//! an exact number of coins, drawing (with unlimited repetition) from a
//! prefix of the denomination sequence.  The executable kernels store these
//! counts reduced modulo 2^64 in a flat table with the coin-count axis
//! contiguous, and their contracts are stated against `ways` through
//! `table_inv`.

use vstd::prelude::*;

verus! {

/// The modulus at which 64-bit counts silently wrap.
pub open spec fn wrap64(x: nat) -> nat {
    x % 0x1_0000_0000_0000_0000
}

/// Number of ways to reach amount `v` using exactly `k` coins drawn, with
/// unlimited repetition, from the first `n` denominations of `coins`.
///
/// Folding in denomination `c = coins[n - 1]` adds, for every `v >= c` and
/// `k >= 1`, the ways that spend one more `c` on top of a smaller amount
/// already counted for the same denomination prefix.
pub open spec fn ways(coins: Seq<int>, n: int, v: int, k: int) -> nat
    decreases n, k,
{
    if n <= 0 {
        if v == 0 && k == 0 {
            1
        } else {
            0
        }
    } else {
        let c = coins[n - 1];
        if k >= 1 && v >= c {
            ways(coins, n - 1, v, k) + ways(coins, n, v - c, k - 1)
        } else {
            ways(coins, n - 1, v, k)
        }
    }
}

/// Sum of `ways` over all coin counts `0 <= k <= k_max`.
pub open spec fn ways_up_to(coins: Seq<int>, n: int, v: int, k_max: int) -> nat
    decreases k_max,
{
    if k_max < 0 {
        0
    } else if k_max == 0 {
        ways(coins, n, v, 0)
    } else {
        ways_up_to(coins, n, v, k_max - 1) + ways(coins, n, v, k_max)
    }
}

/// The value `solve` computes, before reduction modulo 2^64: the number of
/// ways to assemble `target` from `coins` using at most `max_coins` coins.
pub open spec fn solve_spec(target: int, max_coins: int, coins: Seq<int>) -> nat {
    ways_up_to(coins, coins.len() as int, target, max_coins)
}

/// Denominations as mathematical integers.
pub open spec fn coin_values(coins: Seq<i64>) -> Seq<int> {
    coins.map(|i: int, c: i64| c as int)
}

/// The kernels' precondition on raw denominations: positive, and small
/// enough to index the table with.
pub open spec fn coins_valid(coins: Seq<i64>) -> bool {
    forall|i: int|
        0 <= i < coins.len() ==> 1 <= #[trigger] coins[i] && coins[i] as int <= usize::MAX as int
}

/// All denominations are positive.
pub open spec fn coins_positive(coins: Seq<int>) -> bool {
    forall|i: int| 0 <= i < coins.len() ==> #[trigger] coins[i] >= 1
}

/// Flat position of cell (amount `v`, coin count `k`) in the transposed
/// layout: the coin-count axis varies fastest.
pub open spec fn idx(v: int, k: int, stride: int) -> int {
    v * stride + k
}

/// The requested table size fits the host's address space.
pub open spec fn table_size_ok(target: int, max_coins: int) -> bool {
    (target + 1) * (max_coins + 1) <= usize::MAX as int
}

/// The flat table `t` holds, wrapped at 2^64, the counts for the first `n`
/// denominations, for every cell of the `(target + 1) x (max_coins + 1)`
/// grid.
pub open spec fn table_inv(
    t: Seq<u64>,
    coins: Seq<int>,
    n: int,
    target: int,
    max_coins: int,
) -> bool {
    &&& t.len() == (target + 1) * (max_coins + 1)
    &&& forall|v: int, k: int|
        0 <= v <= target && 0 <= k <= max_coins ==> t[#[trigger] idx(v, k, max_coins + 1)]
            as nat == wrap64(ways(coins, n, v, k))
}

/// A cell's flat position lies inside the table.
pub proof fn lemma_idx_bounds(v: int, k: int, target: int, stride: int)
    requires
        0 <= v <= target,
        0 <= k < stride,
    ensures
        0 <= v * stride,
        idx(v, k, stride) < (target + 1) * stride,
{
    assert(0 <= v * stride && v * stride + k < (target + 1) * stride) by (nonlinear_arith)
        requires
            0 <= v <= target,
            0 <= k < stride,
    ;
}

/// Distinct cells have distinct flat positions.
pub proof fn lemma_idx_injective(v1: int, k1: int, v2: int, k2: int, stride: int)
    requires
        0 <= k1 < stride,
        0 <= k2 < stride,
        v1 >= 0,
        v2 >= 0,
        idx(v1, k1, stride) == idx(v2, k2, stride),
    ensures
        v1 == v2 && k1 == k2,
{
    assert(v1 == v2 && k1 == k2) by (nonlinear_arith)
        requires
            0 <= k1 < stride,
            0 <= k2 < stride,
            v1 >= 0,
            v2 >= 0,
            v1 * stride + k1 == v2 * stride + k2,
    ;
}

/// Dividing a flat position by the stride recovers the cell's coordinates.
pub proof fn lemma_idx_div_mod(v: int, k: int, stride: int)
    requires
        0 <= k < stride,
        v >= 0,
    ensures
        idx(v, k, stride) / stride == v,
        idx(v, k, stride) % stride == k,
{
    vstd::arithmetic::div_mod::lemma_fundamental_div_mod_converse(
        v * stride + k,
        stride,
        v,
        k,
    );
}

/// A table whose size fits the address space has both dimensions fitting it
/// as well.
pub proof fn lemma_dims_fit(target: int, max_coins: int)
    requires
        table_size_ok(target, max_coins),
        0 <= target,
        0 <= max_coins,
    ensures
        target + 1 <= usize::MAX as int,
        max_coins + 1 <= usize::MAX as int,
{
    assert(target + 1 <= (target + 1) * (max_coins + 1) && max_coins + 1 <= (target + 1) * (
    max_coins + 1)) by (nonlinear_arith)
        requires
            0 <= target,
            0 <= max_coins,
    ;
}

/// Adding two wrapped counts with wrapping 64-bit addition wraps the sum of
/// the counts themselves.
pub proof fn lemma_wrap_add(x: nat, y: nat, a: u64, b: u64)
    requires
        a as nat == wrap64(x),
        b as nat == wrap64(y),
    ensures
        vstd::wrapping::u64_specs::wrapping_add(a, b) as nat == wrap64(x + y),
{
    let m: int = 0x1_0000_0000_0000_0000;
    vstd::arithmetic::div_mod::lemma_add_mod_noop(x as int, y as int, m);
    if a + b > u64::MAX {
        vstd::arithmetic::div_mod::lemma_mod_multiples_vanish(1, a + b - m, m);
        vstd::arithmetic::div_mod::lemma_small_mod((a + b - m) as nat, m as nat);
    } else {
        vstd::arithmetic::div_mod::lemma_small_mod((a + b) as nat, m as nat);
    }
}

/// A 64-bit value is already wrapped.
pub proof fn lemma_wrap_id(a: u64)
    ensures
        a as nat == wrap64(a as nat),
{
    vstd::arithmetic::div_mod::lemma_small_mod(a as nat, 0x1_0000_0000_0000_0000);
}

/// A freshly seeded table (single 1 at the origin, zeroes elsewhere) holds
/// the counts for the empty denomination prefix.
pub proof fn lemma_fresh_table_inv(t: Seq<u64>, coins: Seq<int>, target: int, max_coins: int)
    requires
        0 <= target,
        0 <= max_coins,
        t.len() == (target + 1) * (max_coins + 1),
        t[0] == 1u64,
        forall|i: int| 1 <= i < t.len() ==> t[i] == 0u64,
    ensures
        table_inv(t, coins, 0, target, max_coins),
{
    let stride = max_coins + 1;
    assert forall|v: int, k: int| 0 <= v <= target && 0 <= k <= max_coins implies t[#[trigger] idx(
        v,
        k,
        stride,
    )] as nat == wrap64(ways(coins, 0, v, k)) by {
        lemma_idx_bounds(v, k, target, stride);
        if idx(v, k, stride) == 0 {
            lemma_idx_injective(v, k, 0, 0, stride);
            assert(ways(coins, 0, 0, 0) == 1);
            lemma_wrap_id(1u64);
        } else {
            assert(!(v == 0 && k == 0));
            assert(ways(coins, 0, v, k) == 0);
            lemma_wrap_id(0u64);
        }
    }
}

/// Folding a denomination larger than every amount in the table changes no
/// count.
pub proof fn lemma_fold_noop_big_coin(
    t: Seq<u64>,
    coins: Seq<int>,
    n: int,
    target: int,
    max_coins: int,
)
    requires
        0 <= n < coins.len(),
        coins[n] > target,
        0 <= target,
        table_inv(t, coins, n, target, max_coins),
    ensures
        table_inv(t, coins, n + 1, target, max_coins),
{
    assert forall|v: int, k: int| 0 <= v <= target && 0 <= k <= max_coins implies t[#[trigger] idx(
        v,
        k,
        max_coins + 1,
    )] as nat == wrap64(ways(coins, n + 1, v, k)) by {
        assert(ways(coins, n + 1, v, k) == ways(coins, n, v, k));
    }
}

} // verus!
