//! The precomputed sum-reachability table against a brute-force enumeration.

use kakuro::sum_table::calculate_sum_table;

/// For one used-digit mask: every pair of count and sum that some subset of
/// the unused digits can form, found by walking all subsets of the nine
/// digits once.
fn brute_force_table(used_mask: u16) -> [[bool; 46]; 10] {
    let mut reachable = [[false; 46]; 10];
    for subset in 0u16..512 {
        if subset & used_mask != 0 {
            continue;
        }
        let k = subset.count_ones() as usize;
        let mut sum: usize = 0;
        for d in 0..9 {
            if subset & (1 << d) != 0 {
                sum += d + 1;
            }
        }
        reachable[k][sum] = true;
    }
    reachable
}

fn used_flags(mask: u16) -> Vec<bool> {
    (0..9).map(|d| mask & (1 << d) != 0).collect()
}

#[test]
fn table_matches_brute_force_everywhere() {
    let table = calculate_sum_table();
    for mask in 0u16..512 {
        let used = used_flags(mask);
        let expected = brute_force_table(mask);
        for k in 0..=9usize {
            for target in 0..=45usize {
                assert_eq!(
                    table.is_sum_reachable(&used, k, target as i32),
                    expected[k][target],
                    "mask {} k {} target {}",
                    mask,
                    k,
                    target
                );
            }
        }
    }
}

#[test]
fn out_of_range_targets_are_never_reachable() {
    let table = calculate_sum_table();
    let none_used = used_flags(0);
    assert!(!table.is_sum_reachable(&none_used, 0, -1));
    assert!(!table.is_sum_reachable(&none_used, 9, 46));
}

#[test]
fn single_queries_with_known_answers() {
    let table = calculate_sum_table();
    let none_used = used_flags(0);
    // two distinct digits forming 3: 1 + 2
    assert!(table.is_sum_reachable(&none_used, 2, 3));
    // two distinct digits cannot form 2
    assert!(!table.is_sum_reachable(&none_used, 2, 2));
    // all nine digits form exactly 45
    assert!(table.is_sum_reachable(&none_used, 9, 45));
    assert!(!table.is_sum_reachable(&none_used, 9, 44));
    // with digit 1 used, one more digit cannot contribute 1
    let one_used = used_flags(0b000_000_001);
    assert!(!table.is_sum_reachable(&one_used, 1, 1));
    assert!(table.is_sum_reachable(&one_used, 1, 2));
    // zero further digits contribute exactly zero
    assert!(table.is_sum_reachable(&none_used, 0, 0));
    assert!(!table.is_sum_reachable(&none_used, 0, 1));
}
