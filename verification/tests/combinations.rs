use jdr_rolls::maths::dice::get_combinations;

#[test]
fn computes_small_binomial_coefficients() {
    assert_eq!(get_combinations(5, 2), 10);
    assert_eq!(get_combinations(10, 0), 1);
    assert_eq!(get_combinations(10, 10), 1);
    assert_eq!(get_combinations(0, 0), 1);
    assert_eq!(get_combinations(6, 3), 20);
    assert_eq!(get_combinations(52, 5), 2_598_960);
}

#[test]
fn is_symmetric() {
    for n in 0..40u32 {
        for k in 0..=n {
            assert_eq!(get_combinations(n, k), get_combinations(n, n - k));
        }
    }
}

#[test]
fn follows_pascals_rule() {
    for n in 1..60u32 {
        for k in 1..n {
            assert_eq!(
                get_combinations(n, k),
                get_combinations(n - 1, k - 1) + get_combinations(n - 1, k)
            );
        }
    }
}

#[test]
fn is_exact_near_the_top_of_u64() {
    assert_eq!(get_combinations(67, 33), 14_226_520_737_620_288_370);
    assert_eq!(get_combinations(66, 33), 7_219_428_434_016_265_740);
}

#[test]
fn saturates_beyond_u64() {
    assert_eq!(get_combinations(100, 50), u64::MAX);
    assert_eq!(get_combinations(68, 34), u64::MAX);
}

#[test]
fn a_row_adds_up_to_a_power_of_two() {
    for n in 0..63u32 {
        let total: u64 = (0..=n).map(|k| get_combinations(n, k)).sum();
        assert_eq!(total, 1u64 << n);
    }
}
