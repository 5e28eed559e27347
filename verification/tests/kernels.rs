use coin_problem::par_kernel::{class_amounts, solve, solve_transposed_par_core};
use coin_problem::seq_kernel::solve_transposed_seq_core;
use coin_problem::table::AllocationError;

/// Brute-force oracle: enumerate, per entry of the coin list, how many
/// copies of it are used, and count the assignments that hit the target
/// with at most `max_coins` coins in total.
fn brute_force(target: u64, max_coins: u64, coins: &[i64]) -> u64 {
    fn rec(coins: &[i64], i: usize, remaining: u64, left: u64) -> u64 {
        if i == coins.len() {
            return if remaining == 0 { 1 } else { 0 };
        }
        let c = coins[i] as u64;
        let mut total = 0u64;
        let mut m = 0u64;
        while m * c <= remaining && m <= left {
            total += rec(coins, i + 1, remaining - m * c, left - m);
            m += 1;
        }
        total
    }
    rec(coins, 0, target, max_coins)
}

fn lcg_next(state: &mut u64) -> u64 {
    *state = state.wrapping_mul(6364136223846793005).wrapping_add(1442695040888963407);
    *state >> 33
}

#[test]
fn concrete_scenario_target_four() {
    let coins = [1i64, 2];
    assert_eq!(solve(4, 4, &coins), Ok(3));
    assert_eq!(solve_transposed_seq_core(4, 4, &coins), Ok(3));
    assert_eq!(solve_transposed_par_core(4, 4, &coins), Ok(3));
    assert_eq!(brute_force(4, 4, &coins), 3);
}

#[test]
fn brute_force_oracle_small_cases() {
    let coin_sets: &[&[i64]] = &[&[1], &[2], &[1, 2], &[2, 3], &[1, 2, 3], &[3, 5], &[1, 2, 3, 5], &[5, 2]];
    for &coins in coin_sets {
        for target in 0..=12usize {
            for max_coins in 0..=6usize {
                let expected = brute_force(target as u64, max_coins as u64, coins);
                assert_eq!(
                    solve_transposed_seq_core(target, max_coins, coins),
                    Ok(expected),
                    "seq target={} max_coins={} coins={:?}",
                    target,
                    max_coins,
                    coins
                );
                assert_eq!(
                    solve_transposed_par_core(target, max_coins, coins),
                    Ok(expected),
                    "par target={} max_coins={} coins={:?}",
                    target,
                    max_coins,
                    coins
                );
            }
        }
    }
}

#[test]
fn seq_and_par_agree_on_randomized_inputs() {
    let mut state = 0x5eed_u64;
    for _ in 0..200 {
        let target = (lcg_next(&mut state) % 60) as usize;
        let max_coins = (lcg_next(&mut state) % 12) as usize;
        let n_coins = (lcg_next(&mut state) % 5) as usize;
        let mut coins = Vec::new();
        for _ in 0..n_coins {
            coins.push((lcg_next(&mut state) % 9 + 1) as i64);
        }
        let seq = solve_transposed_seq_core(target, max_coins, &coins);
        let par = solve_transposed_par_core(target, max_coins, &coins);
        assert_eq!(seq, par, "target={} max_coins={} coins={:?}", target, max_coins, coins);
    }
}

#[test]
fn zero_target_counts_the_empty_selection() {
    let coin_sets: &[&[i64]] = &[&[1], &[1, 2, 3], &[7, 7], &[]];
    for &coins in coin_sets {
        for max_coins in [0usize, 1, 4, 9] {
            assert_eq!(solve(0, max_coins, coins), Ok(1));
        }
    }
}

#[test]
fn zero_coin_cap_reaches_only_amount_zero() {
    assert_eq!(solve(0, 0, &[1, 2]), Ok(1));
    assert_eq!(solve(3, 0, &[1, 2]), Ok(0));
    assert_eq!(solve(1, 0, &[1]), Ok(0));
}

#[test]
fn result_is_monotonic_in_the_coin_cap() {
    let coins = [1i64, 2, 3];
    let mut previous = 0u64;
    for max_coins in 0..=10usize {
        let current = solve(9, max_coins, &coins).unwrap();
        assert!(current >= previous, "cap {} decreased the count", max_coins);
        previous = current;
    }
}

#[test]
fn empty_coin_set() {
    assert_eq!(solve(0, 0, &[]), Ok(1));
    assert_eq!(solve(0, 5, &[]), Ok(1));
    assert_eq!(solve(7, 3, &[]), Ok(0));
    assert_eq!(solve(1, 0, &[]), Ok(0));
}

#[test]
fn duplicate_denominations_are_legal() {
    // Two separate "1" entries in the list: each folds in on its own.
    assert_eq!(solve(6, 6, &[1, 1]), Ok(7));
    assert_eq!(brute_force(6, 6, &[1, 1]), 7);
}

#[test]
fn denomination_larger_than_target_is_a_no_op() {
    assert_eq!(solve(5, 2, &[5, 7]), Ok(1));
    assert_eq!(solve(9, 5, &[2, 4]), Ok(0));
}

#[test]
fn residue_classes_partition_the_updated_amounts() {
    for (target, c) in [(23usize, 5usize), (23, 1), (23, 23), (12, 4), (9, 2)] {
        let mut all = Vec::new();
        for rem in 0..c {
            let class = class_amounts(target, c, rem);
            // Each worker's own amounts are strictly ascending.
            for w in class.windows(2) {
                assert!(w[0] < w[1]);
            }
            all.extend(class);
        }
        all.sort();
        let expected: Vec<usize> = (c..=target).collect();
        assert_eq!(all, expected, "target={} c={}", target, c);
    }
}

#[test]
fn identical_inputs_give_identical_outputs() {
    let coins = [3i64, 1, 4, 1, 5];
    let first = solve(31, 9, &coins);
    let second = solve(31, 9, &coins);
    assert_eq!(first, second);
}

#[test]
fn unrepresentable_table_size_is_an_allocation_error() {
    assert_eq!(solve(usize::MAX, 1, &[1]), Err(AllocationError));
    assert_eq!(solve(1, usize::MAX, &[1]), Err(AllocationError));
    assert_eq!(solve_transposed_seq_core(usize::MAX, usize::MAX, &[1]), Err(AllocationError));
    assert_eq!(solve_transposed_par_core(1 << 40, 1 << 40, &[1]), Err(AllocationError));
}

#[test]
fn large_counts_wrap_at_sixty_four_bits() {
    // With denomination 1 and cap k, the count per (amount, coin-count)
    // pair is the number of ways to pick how many coins land on each
    // amount; for coins = [1] it is exactly 1 whenever target <= cap.
    assert_eq!(solve(30, 30, &[1]), Ok(1));
    // Many duplicate "1" entries blow the count up quickly; the kernels
    // must agree even when the 64-bit count wraps.
    let coins = [1i64; 40];
    let seq = solve_transposed_seq_core(64, 64, &coins);
    let par = solve_transposed_par_core(64, 64, &coins);
    assert_eq!(seq, par);
}
