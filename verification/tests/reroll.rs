use jdr_rolls::maths::dice::reroll::{bad_rolls, face_layout, reroll_scenarios, FaceLayout, RerollScenario};
use jdr_rolls::maths::dice::RerollModifier;

#[test]
fn bad_rolls_below_a_number() {
    let m = RerollModifier::RerollIfLower { dice_to_reroll: 1, number: 6 };
    assert_eq!(bad_rolls(&m, 20), (1, vec![1, 2, 3, 4, 5]));
    let m = RerollModifier::RerollIfLower { dice_to_reroll: 3, number: 1 };
    assert_eq!(bad_rolls(&m, 20), (3, vec![]));
}

#[test]
fn bad_rolls_above_a_number() {
    let m = RerollModifier::RerollIfGreater { dice_to_reroll: 2, number: 17 };
    assert_eq!(bad_rolls(&m, 20), (2, vec![18, 19, 20]));
    let m = RerollModifier::RerollIfGreater { dice_to_reroll: 2, number: 20 };
    assert_eq!(bad_rolls(&m, 20), (2, vec![]));
}

#[test]
fn bad_rolls_listed() {
    let m = RerollModifier::RerollIfEqual { dice_to_reroll: 2, numbers: vec![4, 5, 6, 14, 15, 16] };
    assert_eq!(bad_rolls(&m, 20), (2, vec![4, 5, 6, 14, 15, 16]));
}

#[test]
fn layout_of_good_and_bad_faces() {
    let bad = vec![4, 5, 6, 14, 15, 16];
    let good = face_layout(&bad, 20, false);
    assert_eq!(good.min_value, 1);
    assert_eq!(good.slots.len(), 20);
    assert_eq!(good.slots[3], false);
    assert_eq!(good.slots[6], true);
    let bad_layout = face_layout(&bad, 20, true);
    assert_eq!(bad_layout.min_value, 4);
    assert_eq!(bad_layout.slots, vec![true, true, true, false, false, false, false, false, false, false, true, true, true]);
}

#[test]
fn layout_is_cut_after_the_last_face_of_its_kind() {
    let bad = vec![1, 2, 3, 4, 5];
    let good = face_layout(&bad, 20, false);
    assert_eq!(good.min_value, 6);
    assert_eq!(good.slots, vec![true; 15]);
    let bad_layout = face_layout(&bad, 20, true);
    assert_eq!(bad_layout, FaceLayout { min_value: 1, slots: vec![true; 5] });
}

#[test]
fn layout_without_a_face_of_its_kind_is_empty() {
    let bad: Vec<u32> = vec![30];
    assert_eq!(face_layout(&bad, 20, true), FaceLayout { min_value: 0, slots: vec![] });
}

#[test]
fn scenarios_of_three_dice_rerolling_two() {
    let s = reroll_scenarios(3, 2);
    assert_eq!(s.len(), 4);
    assert_eq!(s[0], RerollScenario { number_of_bad_dice: 0, number_of_good_dice: 3, number_of_rerolled_dice: 0, number_of_kept_bad_dice: 0, ways: 1 });
    assert_eq!(s[1], RerollScenario { number_of_bad_dice: 1, number_of_good_dice: 2, number_of_rerolled_dice: 1, number_of_kept_bad_dice: 0, ways: 3 });
    assert_eq!(s[2], RerollScenario { number_of_bad_dice: 2, number_of_good_dice: 1, number_of_rerolled_dice: 2, number_of_kept_bad_dice: 0, ways: 3 });
    assert_eq!(s[3], RerollScenario { number_of_bad_dice: 3, number_of_good_dice: 0, number_of_rerolled_dice: 2, number_of_kept_bad_dice: 1, ways: 1 });
}

#[test]
fn scenario_ways_add_up_to_every_assignment() {
    let s = reroll_scenarios(10, 1);
    let total: u64 = s.iter().map(|x| x.ways).sum();
    assert_eq!(total, 1024);
}

#[test]
fn every_die_is_good_rerolled_or_kept_bad() {
    for s in reroll_scenarios(6, 2) {
        assert_eq!(s.number_of_good_dice + s.number_of_rerolled_dice + s.number_of_kept_bad_dice, 6);
        assert!(s.number_of_rerolled_dice <= 2);
    }
}
