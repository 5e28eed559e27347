//! The library's general laws, stated and proved over the model that the
//! kernels' contracts use.

use vstd::prelude::*;

use crate::model::{coins_positive, solve_spec, ways, wrap64};
use crate::par_kernel::{
    class_updated_amounts, lemma_class_row_amount, lemma_quotient_bound,
};
use vstd::arithmetic::div_mod::{
    lemma_div_by_self, lemma_div_is_ordered, lemma_fundamental_div_mod,
    lemma_mod_division_less_than_divisor, lemma_mod_multiples_vanish, lemma_small_mod,
};

verus! {

proof fn lemma_ways_zero_amount(coins: Seq<int>, n: int, k: int)
    requires
        coins_positive(coins),
        0 <= n <= coins.len(),
    ensures
        ways(coins, n, 0, k) == if k == 0 {
            1nat
        } else {
            0nat
        },
    decreases n,
{
    if n <= 0 {
    } else {
        // coins[n - 1] >= 1, so no update reaches amount 0.
        lemma_ways_zero_amount(coins, n - 1, k);
    }
}

proof fn lemma_ways_zero_cap(coins: Seq<int>, n: int, v: int)
    ensures
        ways(coins, n, v, 0) == if v == 0 {
            1nat
        } else {
            0nat
        },
    decreases n,
{
    if n <= 0 {
    } else {
        lemma_ways_zero_cap(coins, n - 1, v);
    }
}

/// There is exactly one way to assemble amount 0 — the empty selection —
/// whatever the coin set and whatever the coin cap.
pub proof fn lemma_solve_zero_target(coins: Seq<int>, max_coins: int)
    requires
        coins_positive(coins),
        max_coins >= 0,
    ensures
        solve_spec(0, max_coins, coins) == 1,
    decreases max_coins,
{
    lemma_ways_zero_amount(coins, coins.len() as int, max_coins);
    if max_coins == 0 {
    } else {
        lemma_solve_zero_target(coins, max_coins - 1);
    }
}

/// With a cap of zero coins only amount 0 is reachable: the count is 1 for
/// target 0 and 0 for every positive target, whatever the coin set.
pub proof fn lemma_solve_zero_cap(target: int, coins: Seq<int>)
    ensures
        solve_spec(target, 0, coins) == if target == 0 {
            1nat
        } else {
            0nat
        },
{
    lemma_ways_zero_cap(coins, coins.len() as int, target);
}

/// Monotonicity: raising the coin cap admits every selection the smaller
/// cap admitted, so the exact count never decreases.  (The kernels return
/// this count reduced modulo 2^64; the reduced value can decrease once the
/// exact count no longer fits 64 bits.)
pub proof fn lemma_solve_monotonic(target: int, cap1: int, cap2: int, coins: Seq<int>)
    requires
        0 <= cap1 <= cap2,
    ensures
        solve_spec(target, cap1, coins) <= solve_spec(target, cap2, coins),
    decreases cap2 - cap1,
{
    if cap1 == cap2 {
    } else {
        lemma_solve_monotonic(target, cap1, cap2 - 1, coins);
    }
}

/// With no denominations at all, only amount 0 is reachable (by the empty
/// selection), whatever the coin cap.
pub proof fn lemma_solve_empty_coins(target: int, max_coins: int)
    requires
        max_coins >= 0,
    ensures
        solve_spec(target, max_coins, Seq::<int>::empty()) == if target == 0 {
            1nat
        } else {
            0nat
        },
    decreases max_coins,
{
    if max_coins == 0 {
    } else {
        lemma_solve_empty_coins(target, max_coins - 1);
    }
}

/// The two kernels cannot diverge: both contracts pin the result to the
/// same function of the inputs, so any results satisfying them are equal.
/// Read with both results coming from the same kernel, this is purity:
/// two calls on identical inputs return identical outputs.
pub proof fn lemma_kernels_agree(target: int, max_coins: int, coins: Seq<int>, r1: u64, r2: u64)
    requires
        r1 as nat == wrap64(solve_spec(target, max_coins, coins)),
        r2 as nat == wrap64(solve_spec(target, max_coins, coins)),
    ensures
        r1 == r2,
{
}

/// Residue-class partition correctness: for a denomination `c`, the index
/// sets handed to the workers cover exactly the amounts `c..=target` — no
/// overlaps (a class's members all have its own residue, so distinct
/// classes are disjoint) and no gaps (every amount in range is in the
/// class of its residue).
pub proof fn lemma_residue_partition(target: int, c: int)
    requires
        1 <= c <= target,
    ensures
        forall|rem: int, v: int|
            0 <= rem < c && #[trigger] class_updated_amounts(target, c, rem).contains(v) ==> c <= v
                <= target && v % c == rem,
        forall|v: int|
            c <= v <= target ==> class_updated_amounts(target, c, #[trigger] (v % c)).contains(v),
{
    assert forall|rem: int, v: int|
        0 <= rem < c && #[trigger] class_updated_amounts(target, c, rem).contains(v) implies c <= v
        <= target && v % c == rem by {
        let s = class_updated_amounts(target, c, rem);
        let i = choose|i: int| 0 <= i < s.len() && s[i] == v;
        lemma_class_row_amount(target, c, rem, i + 1);
        assert(c * (i + 1) == (i + 1) * c) by (nonlinear_arith);
        lemma_mod_multiples_vanish(i + 1, rem, c);
        lemma_small_mod(rem as nat, c as nat);
    }
    assert forall|v: int| c <= v <= target implies class_updated_amounts(
        target,
        c,
        #[trigger] (v % c),
    ).contains(v) by {
        let rem = v % c;
        let j = v / c;
        lemma_mod_division_less_than_divisor(v, c);
        lemma_fundamental_div_mod(v, c);
        assert(c * j == j * c) by (nonlinear_arith);
        lemma_div_is_ordered(c, v, c);
        lemma_div_by_self(c);
        lemma_quotient_bound(target, c, rem, j);
        let s = class_updated_amounts(target, c, rem);
        assert(s[j - 1] == v);
        assert(s.contains(v));
    }
}

} // verus!
