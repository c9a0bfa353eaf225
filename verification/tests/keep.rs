use jdr_rolls::maths::dice::keep::{clamp_values, keep_best, keep_counts, sum_values, KeepCounts};
use jdr_rolls::maths::dice::ClampingModifier;

#[test]
fn keeps_the_highest() {
    assert_eq!(keep_best(&vec![6, 3], &vec![5], 2, true), vec![6, 5]);
    assert_eq!(keep_best(&vec![], &vec![2, 9, 4, 9, 1], 3, true), vec![9, 9, 4]);
}

#[test]
fn keeps_the_lowest() {
    assert_eq!(keep_best(&vec![1, 4], &vec![2], 2, false), vec![1, 2]);
    assert_eq!(keep_best(&vec![5, 5, 5], &vec![5], 2, false), vec![5, 5]);
}

#[test]
fn keeps_everything_when_k_is_large() {
    assert_eq!(keep_best(&vec![3, 1], &vec![2], 10, true), vec![3, 2, 1]);
    assert_eq!(keep_best(&vec![], &vec![], 3, true), Vec::<u32>::new());
    assert_eq!(keep_best(&vec![3], &vec![4], 0, true), Vec::<u32>::new());
}

#[test]
fn keeping_die_by_die_is_keeping_all_at_once() {
    let dice = vec![7, 2, 9, 4, 9, 1, 5];
    let mut kept: Vec<u32> = Vec::new();
    for d in &dice {
        kept = keep_best(&kept, &vec![*d], 3, true);
    }
    assert_eq!(kept, keep_best(&vec![], &dice, 3, true));
}

#[test]
fn clamps_values() {
    assert_eq!(clamp_values(&vec![1, 5, 12], &ClampingModifier::Minimum { number: 5 }), vec![5, 5, 12]);
    assert_eq!(clamp_values(&vec![1, 5, 12], &ClampingModifier::Maximum { number: 5 }), vec![1, 5, 5]);
}

#[test]
fn sums_values() {
    assert_eq!(sum_values(&vec![1, 5, 12]), 18);
    assert_eq!(sum_values(&vec![]), 0);
}

#[test]
fn a_scenario_keeps_at_most_its_dice() {
    assert_eq!(keep_counts(3, 2, 1, 1), KeepCounts { kept: 3, kept_bad: 1 });
    assert_eq!(keep_counts(5, 2, 1, 1), KeepCounts { kept: 4, kept_bad: 1 });
    assert_eq!(keep_counts(1, 0, 3, 0), KeepCounts { kept: 1, kept_bad: 1 });
    assert_eq!(keep_counts(0, 2, 2, 0), KeepCounts { kept: 0, kept_bad: 0 });
}
