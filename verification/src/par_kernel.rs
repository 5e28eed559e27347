//! The parallel kernel: for each denomination `c`, the update only ever
//! moves within one residue class of amounts modulo `c`, so the classes are
//! independent and are folded concurrently.
//!
//! Each worker receives a private copy of its class's rows (gathered up
//! front into provably disjoint index sets), folds it with the verified
//! `fold_class`, and the folded classes are joined back into a fresh table
//! before the next denomination starts.  The join before the reassembly is
//! the barrier the algorithm requires: no worker retains the buffer past
//! its fold step.

use vstd::prelude::*;

use rayon::iter::IndexedParallelIterator;
use rayon::iter::IntoParallelIterator;
use rayon::iter::ParallelIterator;

use crate::model::{
    coin_values, coins_valid, idx, lemma_dims_fit, lemma_fold_noop_big_coin,
    lemma_fresh_table_inv, lemma_idx_bounds, lemma_idx_div_mod, lemma_idx_injective,
    lemma_wrap_add, lemma_wrap_id, solve_spec, table_inv, table_size_ok, ways, wrap64,
};
use crate::table::{alloc_table, reduce, AllocationError};
use vstd::arithmetic::div_mod::{
    lemma_add_mod_noop, lemma_div_is_ordered, lemma_div_multiples_vanish, lemma_div_nonincreasing,
    lemma_div_pos_is_pos, lemma_fundamental_div_mod, lemma_mod_division_less_than_divisor,
    lemma_mod_multiples_basic, lemma_small_mod,
};
use vstd::arithmetic::mul::{lemma_mul_inequality, lemma_mul_nonnegative};

verus! {

/// Number of amounts in `[0, target]` congruent to `rem` modulo `c`: the
/// rows of residue class `rem`.  Row `j` is amount `rem + j * c`; row 0 lies
/// below `c` and is never updated.
pub open spec fn class_rows(target: int, c: int, rem: int) -> int {
    (target - rem) / c + 1
}

/// The index set one residue-class worker updates for denomination `c`:
/// the amounts in `[c, target]` congruent to `rem`, in ascending order.
pub open spec fn class_updated_amounts(target: int, c: int, rem: int) -> Seq<int> {
    Seq::new((class_rows(target, c, rem) - 1) as nat, |i: int| rem + (i + 1) * c)
}

/// `cls` is a copy of residue class `rem`'s rows of the flat table `t`.
pub open spec fn class_ok(
    cls: Seq<u64>,
    t: Seq<u64>,
    stride: int,
    target: int,
    c: int,
    rem: int,
) -> bool {
    &&& cls.len() == class_rows(target, c, rem) * stride
    &&& forall|j: int, k: int|
        0 <= j < class_rows(target, c, rem) && 0 <= k < stride ==> cls[#[trigger] idx(
            j,
            k,
            stride,
        )] == t[idx(rem + j * c, k, stride)]
}

/// The folded value of a class cell: each row `j >= 1` adds, at coin count
/// `k >= 1`, the folded cell one row down and one coin count back — the
/// same-class amount `c` smaller, already updated for this denomination.
pub open spec fn wcell(s: Seq<u64>, stride: int, j: int, k: int) -> nat
    decreases j,
{
    if j < 1 || k < 1 {
        s[j * stride + k] as nat
    } else {
        wrap64(s[j * stride + k] as nat + wcell(s, stride, j - 1, k - 1))
    }
}

/// What `fold_class` turns a class buffer into, cell by cell.
pub open spec fn fold_class_spec(s: Seq<u64>, stride: int) -> Seq<u64> {
    Seq::new(s.len(), |i: int| wcell(s, stride, i / stride, i % stride) as u64)
}

/// Folded cells are 64-bit values.
pub proof fn lemma_wcell_lt(s: Seq<u64>, stride: int, j: int, k: int)
    ensures
        wcell(s, stride, j, k) < 0x1_0000_0000_0000_0000,
    decreases j,
{
    if j < 1 || k < 1 {
    } else {
        lemma_mod_division_less_than_divisor(
            (s[j * stride + k] as nat + wcell(s, stride, j - 1, k - 1)) as int,
            0x1_0000_0000_0000_0000,
        );
    }
}

/// Row `j` of residue class `rem` is an amount within the table; from row 1
/// up it is at least `c`.
pub proof fn lemma_class_row_amount(target: int, c: int, rem: int, j: int)
    requires
        1 <= c,
        0 <= rem <= target,
        0 <= j < class_rows(target, c, rem),
    ensures
        0 <= j * c,
        rem + j * c <= target,
        j >= 1 ==> rem + j * c >= c,
{
    let q = (target - rem) / c;
    lemma_fundamental_div_mod(target - rem, c);
    lemma_mod_division_less_than_divisor(target - rem, c);
    lemma_mul_inequality(j, q, c);
    lemma_mul_nonnegative(j, c);
    if j >= 1 {
        lemma_mul_inequality(1, j, c);
    }
}

/// An amount `rem + j * c` inside the table lies within class `rem`'s rows.
pub proof fn lemma_quotient_bound(target: int, c: int, rem: int, j: int)
    requires
        1 <= c,
        0 <= rem < c,
        0 <= j,
        rem + j * c <= target,
    ensures
        j < class_rows(target, c, rem),
{
    lemma_div_is_ordered(j * c, target - rem, c);
    lemma_div_multiples_vanish(j, c);
    assert(j * c == c * j) by (nonlinear_arith);
}

/// The ascending amounts one residue-class worker updates for denomination
/// `c`: every `v` in `[c, target]` with `v % c == rem`.  Row 0 of the
/// class — the amount `rem` itself, below `c` — is read-only and is not
/// listed.
#[verifier::loop_isolation(false)]
pub fn class_amounts(target: usize, c: usize, rem: usize) -> (a: Vec<usize>)
    requires
        1 <= c <= target,
        target < usize::MAX,
        rem < c,
    ensures
        a@.len() == class_updated_amounts(target as int, c as int, rem as int).len(),
        forall|i: int|
            0 <= i < a@.len() ==> #[trigger] a@[i] as int == class_updated_amounts(
                target as int,
                c as int,
                rem as int,
            )[i],
{
    proof {
        lemma_div_pos_is_pos(target as int - rem as int, c as int);
        lemma_div_nonincreasing(target as int - rem as int, c as int);
    }
    let nr = (target - rem) / c + 1;
    let mut a: Vec<usize> = Vec::new();
    let mut j: usize = 1;
    while j < nr
        invariant
            1 <= j <= nr,
            a@.len() == j as int - 1,
            forall|i: int|
                0 <= i < a@.len() ==> #[trigger] a@[i] as int == rem as int + (i + 1) * (c as int),
        decreases nr as int - j as int,
    {
        proof {
            lemma_class_row_amount(target as int, c as int, rem as int, j as int);
        }
        a.push(rem + j * c);
        j = j + 1;
    }
    a
}

/// A gathered class holds wrapped counts for the prefix `n`; its folded
/// cells are the wrapped counts with denomination `coins[n]` folded in.
pub proof fn lemma_wcell_ways(
    cls: Seq<u64>,
    t: Seq<u64>,
    mc: int,
    target: int,
    c: int,
    rem: int,
    coins: Seq<int>,
    n: int,
    j: int,
    k: int,
)
    requires
        table_inv(t, coins, n, target, mc),
        0 <= n < coins.len(),
        coins[n] == c,
        1 <= c <= target,
        0 <= rem < c,
        class_ok(cls, t, mc + 1, target, c, rem),
        0 <= j < class_rows(target, c, rem),
        0 <= k <= mc,
    ensures
        wcell(cls, mc + 1, j, k) == wrap64(ways(coins, n + 1, rem + j * c, k)),
    decreases j,
{
    let st = mc + 1;
    lemma_class_row_amount(target, c, rem, j);
    vstd::arithmetic::mul::lemma_mul_basics(c);
    let v = rem + j * c;
    assert(cls[idx(j, k, st)] == t[idx(v, k, st)]);
    assert(t[idx(v, k, mc + 1)] as nat == wrap64(ways(coins, n, v, k)));
    if j == 0 || k == 0 {
        assert(wcell(cls, st, j, k) == cls[idx(j, k, st)] as nat);
        if j == 0 {
            // Row 0 is the amount rem itself, below c: untouched by this fold.
            assert(ways(coins, n + 1, v, k) == ways(coins, n, v, k));
        } else {
            // Coin count 0 never receives an update.
            assert(ways(coins, n + 1, v, k) == ways(coins, n, v, k));
        }
    } else {
        lemma_wcell_ways(cls, t, mc, target, c, rem, coins, n, j - 1, k - 1);
        assert((j - 1) * c == j * c - c) by (nonlinear_arith);
        assert(wcell(cls, st, j - 1, k - 1) == wrap64(ways(coins, n + 1, v - c, k - 1)));
        assert(v >= c);
        assert(ways(coins, n + 1, v, k) == ways(coins, n, v, k) + ways(coins, n + 1, v - c, k - 1));
        lemma_add_mod_noop(
            ways(coins, n, v, k) as int,
            ways(coins, n + 1, v - c, k - 1) as int,
            0x1_0000_0000_0000_0000,
        );
        assert(wcell(cls, st, j, k) == wrap64(
            cls[idx(j, k, st)] as nat + wcell(cls, st, j - 1, k - 1),
        ));
    }
}

/// The per-worker body: fold one residue class's private buffer, rows in
/// strictly ascending amount order, the coin-count axis innermost.
#[verifier::loop_isolation(false)]
pub(crate) fn fold_class(cls: Vec<u64>, stride: usize) -> (r: Vec<u64>)
    requires
        1 <= stride,
        cls@.len() as int % (stride as int) == 0,
    ensures
        r@ == fold_class_spec(cls@, stride as int),
{
    let ghost s0 = cls@;
    let ghost st = stride as int;
    let mut out = cls;
    let nrows = out.len() / stride;
    proof {
        lemma_fundamental_div_mod(s0.len() as int, st);
        assert(s0.len() == nrows as int * st) by (nonlinear_arith)
            requires
                s0.len() as int == st * (nrows as int) + s0.len() as int % st,
                s0.len() as int % st == 0,
        ;
    }
    let mut j: usize = 1;
    while j < nrows
        invariant
            1 <= j,
            out@.len() == s0.len(),
            forall|j2: int, k2: int|
                0 <= j2 < nrows as int && 0 <= k2 < st ==> out@[#[trigger] idx(j2, k2, st)] as nat
                    == (if j2 < j as int || (j2 == j as int && k2 < 1) {
                    wcell(s0, st, j2, k2)
                } else {
                    s0[idx(j2, k2, st)] as nat
                }),
        decreases nrows as int - j as int,
    {
        for k in 1..stride
            invariant
                out@.len() == s0.len(),
                forall|j2: int, k2: int|
                    0 <= j2 < nrows as int && 0 <= k2 < st ==> out@[#[trigger] idx(
                        j2,
                        k2,
                        st,
                    )] as nat == (if j2 < j as int || (j2 == j as int && k2 < k as int) {
                        wcell(s0, st, j2, k2)
                    } else {
                        s0[idx(j2, k2, st)] as nat
                    }),
        {
            proof {
                lemma_idx_bounds(j as int, k as int, nrows as int - 1, st);
                lemma_idx_bounds(j as int - 1, k as int - 1, nrows as int - 1, st);
            }
            let ip = (j - 1) * stride + (k - 1);
            let prev = out[ip];
            let ic = j * stride + k;
            let cur = out[ic];
            proof {
                assert(ip as int == idx(j as int - 1, k as int - 1, st));
                assert(ic as int == idx(j as int, k as int, st));
                assert(prev as nat == wcell(s0, st, j as int - 1, k as int - 1));
                assert(cur as nat == s0[idx(j as int, k as int, st)] as nat);
                lemma_wcell_lt(s0, st, j as int - 1, k as int - 1);
                lemma_small_mod(prev as nat, 0x1_0000_0000_0000_0000);
                lemma_wrap_id(cur);
                lemma_wrap_add(cur as nat, wcell(s0, st, j as int - 1, k as int - 1), cur, prev);
            }
            let sum = cur.wrapping_add(prev);
            out[ic] = sum;
            proof {
                assert(sum as nat == wcell(s0, st, j as int, k as int));
                assert forall|j2: int, k2: int| 0 <= j2 < nrows as int && 0 <= k2 < st implies out@[
                    #[trigger] idx(j2, k2, st)] as nat == (if j2 < j as int || (j2 == j as int && k2
                    < k as int + 1) {
                    wcell(s0, st, j2, k2)
                } else {
                    s0[idx(j2, k2, st)] as nat
                }) by {
                    lemma_idx_bounds(j2, k2, nrows as int - 1, st);
                    if idx(j2, k2, st) == ic as int {
                        lemma_idx_injective(j2, k2, j as int, k as int, st);
                    }
                }
            }
        }
        proof {
            // Advancing to the next row: its coin-count-0 cell is already
            // its folded value, since column 0 is never written.
            assert forall|j2: int, k2: int| 0 <= j2 < nrows as int && 0 <= k2 < st implies out@[
                #[trigger] idx(j2, k2, st)] as nat == (if j2 < j as int + 1 || (j2 == j as int + 1
                && k2 < 1) {
                wcell(s0, st, j2, k2)
            } else {
                s0[idx(j2, k2, st)] as nat
            }) by {
                if j2 == j as int + 1 && k2 == 0 {
                    assert(wcell(s0, st, j2, 0) == s0[idx(j2, 0, st)] as nat);
                }
            }
        }
        j = j + 1;
    }
    proof {
        assert forall|i: int| 0 <= i < s0.len() implies out@[i] == fold_class_spec(s0, st)[i] by {
            lemma_fundamental_div_mod(i, st);
            lemma_mod_division_less_than_divisor(i, st);
            lemma_div_pos_is_pos(i, st);
            let j2 = i / st;
            let k2 = i % st;
            assert(j2 < nrows as int) by (nonlinear_arith)
                requires
                    i == st * j2 + k2,
                    0 <= k2 < st,
                    i < nrows as int * st,
                    0 <= j2,
            ;
            assert(i == idx(j2, k2, st)) by (nonlinear_arith)
                requires
                    i == st * j2 + k2,
            ;
            lemma_wcell_lt(s0, st, j2, k2);
            if nrows == 0 {
            } else {
                assert(wcell(s0, st, j2, 0) == s0[idx(j2, 0, st)] as nat);
            }
        }
        assert(out@ =~= fold_class_spec(s0, st));
    }
    out
}

/// Fold every residue class concurrently, one worker per class.
///
/// Relies on rayon: `Vec::into_par_iter` over the class buffers, `map`
/// applying `fold_class` to each, and `collect_into_vec`, which rayon
/// documents to place each result at its input's index.  The closure only
/// calls the verified `fold_class`, whose contract gives each element of
/// the result; a worker panic propagates and aborts the whole fold, so no
/// partial result is ever returned.
#[verifier::external_body]
fn par_map_fold(classes: Vec<Vec<u64>>, stride: usize) -> (r: Vec<Vec<u64>>)
    requires
        1 <= stride,
        forall|i: int|
            0 <= i < classes@.len() ==> (#[trigger] classes@[i])@.len() as int % (stride as int) == 0,
    ensures
        r@.len() == classes@.len(),
        forall|i: int|
            0 <= i < r@.len() ==> (#[trigger] r@[i])@ == fold_class_spec(
                classes@[i]@,
                stride as int,
            ),
{
    let mut out: Vec<Vec<u64>> = Vec::new();
    classes.into_par_iter().map(|cls| fold_class(cls, stride)).collect_into_vec(&mut out);
    out
}

/// Fold one denomination `c` with one worker per residue class.
///
/// The amounts `0..=target` are partitioned by their residue modulo `c`;
/// each class's rows are copied out, folded in parallel, and joined back
/// into a fresh table.  The partition is re-derived here for every
/// denomination.
#[verifier::loop_isolation(false)]
#[verifier::rlimit(100)]
pub(crate) fn fold_coin_par(
    dp: &mut Vec<u64>,
    target: usize,
    max_coins: usize,
    c: usize,
    Ghost(coins): Ghost<Seq<int>>,
    Ghost(n): Ghost<int>,
)
    requires
        0 <= n < coins.len(),
        coins[n] == c as int,
        1 <= c <= target,
        table_size_ok(target as int, max_coins as int),
        table_inv(old(dp)@, coins, n, target as int, max_coins as int),
    ensures
        table_inv(final(dp)@, coins, n + 1, target as int, max_coins as int),
{
    let ghost tg = target as int;
    let ghost mc = max_coins as int;
    proof {
        lemma_dims_fit(tg, mc);
    }
    let stride = max_coins + 1;
    let ghost t0 = dp@;
    // Gather: one private buffer per residue class, rows in ascending
    // amount order.  The index sets are disjoint by construction: row j of
    // class rem is amount rem + j * c.
    let mut classes: Vec<Vec<u64>> = Vec::new();
    for rem in 0..c
        invariant
            classes@.len() == rem as int,
            forall|r2: int|
                0 <= r2 < rem as int ==> class_ok(
                    (#[trigger] classes@[r2])@,
                    t0,
                    mc + 1,
                    tg,
                    c as int,
                    r2,
                ),
            dp@ == t0,
    {
        proof {
            lemma_div_pos_is_pos(tg - rem as int, c as int);
            lemma_div_nonincreasing(tg - rem as int, c as int);
        }
        let nr = (target - rem) / c + 1;
        let mut cls: Vec<u64> = Vec::new();
        proof {
            vstd::arithmetic::mul::lemma_mul_basics(mc + 1);
        }
        for j in 0..nr
            invariant
                cls@.len() == j as int * (mc + 1),
                forall|j2: int, k2: int|
                    0 <= j2 < j as int && 0 <= k2 <= mc ==> cls@[#[trigger] idx(j2, k2, mc + 1)]
                        == t0[idx(rem as int + j2 * (c as int), k2, mc + 1)],
                dp@ == t0,
        {
            proof {
                lemma_class_row_amount(tg, c as int, rem as int, j as int);
                lemma_idx_bounds(rem as int + (j as int) * (c as int), 0, tg, mc + 1);
            }
            let v = rem + j * c;
            let base = v * stride;
            for k in 0..stride
                invariant
                    cls@.len() == j as int * (mc + 1) + k as int,
                    forall|j2: int, k2: int|
                        0 <= j2 < j as int && 0 <= k2 <= mc ==> cls@[#[trigger] idx(
                            j2,
                            k2,
                            mc + 1,
                        )] == t0[idx(rem as int + j2 * (c as int), k2, mc + 1)],
                    forall|k2: int|
                        0 <= k2 < k as int ==> cls@[#[trigger] idx(j as int, k2, mc + 1)] == t0[idx(
                            rem as int + (j as int) * (c as int),
                            k2,
                            mc + 1,
                        )],
                    dp@ == t0,
            {
                proof {
                    lemma_idx_bounds(v as int, k as int, tg, mc + 1);
                }
                let x = dp[base + k];
                cls.push(x);
                proof {
                    assert(cls@.len() - 1 == idx(j as int, k as int, mc + 1));
                    assert forall|j2: int, k2: int| 0 <= j2 < j as int && 0 <= k2 <= mc implies cls@[
                        #[trigger] idx(j2, k2, mc + 1)] == t0[idx(
                        rem as int + j2 * (c as int),
                        k2,
                        mc + 1,
                    )] by {
                        lemma_idx_bounds(j2, k2, j as int - 1, mc + 1);
                    }
                }
            }
            proof {
                assert((j as int + 1) * (mc + 1) == j as int * (mc + 1) + (mc + 1))
                    by (nonlinear_arith);
            }
        }
        classes.push(cls);
    }
    proof {
        assert forall|r2: int| 0 <= r2 < classes@.len() implies (#[trigger] classes@[r2])@.len()
            as int % (stride as int) == 0 by {
            lemma_mod_multiples_basic(class_rows(tg, c as int, r2), mc + 1);
        }
    }
    let ghost classes0 = classes@;
    // Fan out, one worker per class; the call returns only once every
    // worker has finished (the join/barrier).
    let folded = par_map_fold(classes, stride);
    // Join: reassemble the table row-major from the folded classes.
    let mut dp2: Vec<u64> = Vec::new();
    let rows_total = target + 1;
    proof {
        vstd::arithmetic::mul::lemma_mul_basics(mc + 1);
    }
    for v in 0..rows_total
        invariant
            dp2@.len() == v as int * (mc + 1),
            forall|v2: int, k2: int|
                0 <= v2 < v as int && 0 <= k2 <= mc ==> dp2@[#[trigger] idx(v2, k2, mc + 1)] as nat
                    == wrap64(ways(coins, n + 1, v2, k2)),
    {
        let rem = v % c;
        let j = v / c;
        proof {
            lemma_mod_division_less_than_divisor(v as int, c as int);
            lemma_div_pos_is_pos(v as int, c as int);
            lemma_fundamental_div_mod(v as int, c as int);
            assert(c as int * (j as int) == (j as int) * (c as int)) by (nonlinear_arith);
            lemma_quotient_bound(tg, c as int, rem as int, j as int);
            lemma_class_row_amount(tg, c as int, rem as int, j as int);
            assert(class_ok((classes0[rem as int])@, t0, mc + 1, tg, c as int, rem as int));
        }
        let cls = &folded[rem];
        proof {
            assert((folded@[rem as int])@ == fold_class_spec(
                classes0[rem as int]@,
                stride as int,
            ));
            assert(cls@.len() == class_rows(tg, c as int, rem as int) * (mc + 1));
            lemma_div_nonincreasing(tg - rem as int, c as int);
            lemma_mul_inequality(class_rows(tg, c as int, rem as int), tg + 1, mc + 1);
        }
        for k in 0..stride
            invariant
                dp2@.len() == v as int * (mc + 1) + k as int,
                forall|v2: int, k2: int|
                    0 <= v2 < v as int && 0 <= k2 <= mc ==> dp2@[#[trigger] idx(
                        v2,
                        k2,
                        mc + 1,
                    )] as nat == wrap64(ways(coins, n + 1, v2, k2)),
                forall|k2: int|
                    0 <= k2 < k as int ==> dp2@[#[trigger] idx(v as int, k2, mc + 1)] as nat
                        == wrap64(ways(coins, n + 1, v as int, k2)),
        {
            proof {
                lemma_idx_bounds(
                    j as int,
                    k as int,
                    class_rows(tg, c as int, rem as int) - 1,
                    mc + 1,
                );
                lemma_idx_div_mod(j as int, k as int, mc + 1);
                lemma_wcell_ways(
                    classes0[rem as int]@,
                    t0,
                    mc,
                    tg,
                    c as int,
                    rem as int,
                    coins,
                    n,
                    j as int,
                    k as int,
                );
                lemma_wcell_lt(classes0[rem as int]@, mc + 1, j as int, k as int);
            }
            let x = cls[j * stride + k];
            dp2.push(x);
            proof {
                assert(dp2@.len() - 1 == idx(v as int, k as int, mc + 1));
                assert(x as nat == wrap64(ways(coins, n + 1, v as int, k as int)));
                assert forall|v2: int, k2: int| 0 <= v2 < v as int && 0 <= k2 <= mc implies dp2@[
                    #[trigger] idx(v2, k2, mc + 1)] as nat == wrap64(ways(coins, n + 1, v2, k2)) by {
                    lemma_idx_bounds(v2, k2, v as int - 1, mc + 1);
                }
            }
        }
        proof {
            assert((v as int + 1) * (mc + 1) == v as int * (mc + 1) + (mc + 1))
                by (nonlinear_arith);
        }
    }
    *dp = dp2;
}

/// The parallel kernel: allocate and seed the table, fold each denomination
/// in input order — the outer sequence is never parallelized, each
/// denomination needs the previous one's fully committed table — then
/// reduce the target row.
///
/// Returns the number of ways to assemble `target` from `coins` using at
/// most `max_coins` coins, reduced modulo 2^64; fails exactly when the
/// table size cannot be represented.
pub fn solve_transposed_par_core(target: usize, max_coins: usize, coins: &[i64]) -> (r: Result<
    u64,
    AllocationError,
>)
    requires
        coins_valid(coins@),
    ensures
        r is Ok <==> table_size_ok(target as int, max_coins as int),
        r matches Ok(total) ==> total as nat == wrap64(
            solve_spec(target as int, max_coins as int, coin_values(coins@)),
        ),
{
    let mut dp = match alloc_table(target, max_coins) {
        Ok(t) => t,
        Err(e) => {
            return Err(e);
        },
    };
    let ghost cs = coin_values(coins@);
    proof {
        lemma_fresh_table_inv(dp@, cs, target as int, max_coins as int);
    }
    let n_coins = coins.len();
    for i in 0..n_coins
        invariant
            coins_valid(coins@),
            cs == coin_values(coins@),
            n_coins == coins@.len(),
            table_size_ok(target as int, max_coins as int),
            table_inv(dp@, cs, i as int, target as int, max_coins as int),
    {
        let coin = coins[i];
        let c = coin as usize;
        if c <= target {
            fold_coin_par(&mut dp, target, max_coins, c, Ghost(cs), Ghost(i as int));
        } else {
            proof {
                lemma_fold_noop_big_coin(dp@, cs, i as int, target as int, max_coins as int);
            }
        }
    }
    let total = reduce(&dp, target, max_coins, Ghost(cs), Ghost(cs.len() as int));
    Ok(total)
}

/// The kernel's single logical operation.  Selects the parallel fold;
/// `solve_transposed_seq_core` is the capability fallback for hosts without
/// threads, with the identical contract.
pub fn solve(target: usize, max_coins: usize, coins: &[i64]) -> (r: Result<u64, AllocationError>)
    requires
        coins_valid(coins@),
    ensures
        r is Ok <==> table_size_ok(target as int, max_coins as int),
        r matches Ok(total) ==> total as nat == wrap64(
            solve_spec(target as int, max_coins as int, coin_values(coins@)),
        ),
{
    solve_transposed_par_core(target, max_coins, coins)
}

} // verus!
