use jdr_rolls::maths::dice::support::{ClampPlan, MergePlan, Support};
use jdr_rolls::maths::dice::ClampingModifier;

fn support(min_value: u32, len: usize) -> Support {
    Support { min_value, len }
}

#[test]
fn adding_three_d6_gives_3_to_18() {
    let d6 = support(1, 6);
    let two = d6.add(&d6);
    assert_eq!(two, support(2, 11));
    let three = two.add(&d6);
    assert_eq!(three, support(3, 16));
}

#[test]
fn adding_is_commutative_and_zero_is_neutral() {
    let a = support(2, 5);
    let b = support(7, 3);
    assert_eq!(a.add(&b), b.add(&a));
    assert_eq!(a.add(&Support::constant(0)), a);
}

#[test]
fn shifting_moves_the_minimum() {
    assert_eq!(support(1, 6).shift_by(10), support(11, 6));
}

#[test]
fn merging_covers_both_supports() {
    let plan = support(3, 4).merge(&support(1, 2));
    assert_eq!(plan, MergePlan { min_value: 1, self_offset: 2, other_offset: 0, len: 6 });
    let plan = support(1, 2).merge(&support(3, 4));
    assert_eq!(plan, MergePlan { min_value: 1, self_offset: 0, other_offset: 2, len: 6 });
    let plan = support(1, 10).merge(&support(3, 2));
    assert_eq!(plan, MergePlan { min_value: 1, self_offset: 0, other_offset: 2, len: 10 });
}

#[test]
fn clamping_to_a_minimum() {
    let d20 = support(1, 20);
    assert_eq!(d20.clamp_plan(&ClampingModifier::Minimum { number: 1 }), ClampPlan::Unchanged);
    assert_eq!(
        d20.clamp_plan(&ClampingModifier::Minimum { number: 10 }),
        ClampPlan::FoldBelow { count: 9, min_value: 10 }
    );
    assert_eq!(d20.clamp_plan(&ClampingModifier::Minimum { number: 21 }), ClampPlan::Constant { value: 21 });
}

#[test]
fn clamping_to_a_maximum() {
    let d20 = support(1, 20);
    assert_eq!(d20.clamp_plan(&ClampingModifier::Maximum { number: 20 }), ClampPlan::Unchanged);
    assert_eq!(d20.clamp_plan(&ClampingModifier::Maximum { number: 15 }), ClampPlan::FoldAbove { keep: 15 });
    assert_eq!(d20.clamp_plan(&ClampingModifier::Maximum { number: 1 }), ClampPlan::FoldAbove { keep: 1 });
    assert_eq!(d20.clamp_plan(&ClampingModifier::Maximum { number: 0 }), ClampPlan::Constant { value: 0 });
}

#[test]
fn mirroring_reverses_the_values() {
    let s = support(2, 5);
    let m = s.mirror(21);
    assert_eq!(m, support(15, 5));
    assert_eq!(m.mirror(21), s);
    assert_eq!(support(1, 20).mirror(21), support(1, 20));
}

#[test]
fn a_roll_of_all_kept_dice_runs_from_the_smallest_to_the_largest_total() {
    let d6 = Support { min_value: 1, len: 6 };
    let mut total = Support::constant(0);
    for _ in 0..3 {
        total = total.add(&d6);
    }
    assert_eq!(total, Support { min_value: 3, len: 16 });
    assert_eq!(total.min_value as usize + total.len - 1, 18);
}
