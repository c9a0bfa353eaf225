use jdr_rolls::maths::dice::notation::NotationError;
use jdr_rolls::maths::dice::{ClampingModifier, DiceRoll, KeepingResultModifier, RerollModifier};

fn roll(s: &str) -> DiceRoll {
    DiceRoll::parse(s).expect("a roll")
}

#[test]
fn parses_a_plain_roll() {
    let r = roll("2d20");
    assert_eq!(r.number_of_dice, 2);
    assert_eq!(r.dice_size, 20);
    assert_eq!(r.reroll_modifier, None);
    assert_eq!(r.clamping_modifier, None);
    assert_eq!(r.keeping_result_modifier, None);
}

#[test]
fn skips_leading_white_space() {
    assert_eq!(roll("   3d6").number_of_dice, 3);
    assert_eq!(roll("\t\n3d6").dice_size, 6);
    assert_eq!(roll("\u{3000}\u{a0}4d8").number_of_dice, 4);
}

#[test]
fn rejects_text_that_does_not_open_with_a_roll() {
    assert_eq!(DiceRoll::parse("d6"), None);
    assert_eq!(DiceRoll::parse("abc"), None);
    assert_eq!(DiceRoll::parse("2x6"), None);
    assert_eq!(DiceRoll::parse("2d"), None);
    assert_eq!(DiceRoll::parse("x2d6"), None);
    assert_eq!(DiceRoll::parse(""), None);
    assert_eq!(DiceRoll::try_parse("roll 2d6"), Ok(None));
}

#[test]
fn reads_leading_zeros() {
    let r = roll("007d010");
    assert_eq!(r.number_of_dice, 7);
    assert_eq!(r.dice_size, 10);
}

#[test]
fn parses_reroll_if_lower() {
    let r = roll("2d20r1<6");
    assert_eq!(r.reroll_modifier, Some(RerollModifier::RerollIfLower { dice_to_reroll: 1, number: 6 }));
}

#[test]
fn parses_reroll_if_greater() {
    let r = roll("3d6r2>5");
    assert_eq!(r.reroll_modifier, Some(RerollModifier::RerollIfGreater { dice_to_reroll: 2, number: 5 }));
}

#[test]
fn parses_reroll_if_equal_with_a_list() {
    let r = roll("3d20r2={4,5,6,14,15,16}");
    assert_eq!(
        r.reroll_modifier,
        Some(RerollModifier::RerollIfEqual { dice_to_reroll: 2, numbers: vec![4, 5, 6, 14, 15, 16] })
    );
    let r = roll("3d20r1=7");
    assert_eq!(r.reroll_modifier, Some(RerollModifier::RerollIfEqual { dice_to_reroll: 1, numbers: vec![7] }));
}

#[test]
fn a_list_with_lower_takes_its_largest_and_with_greater_its_smallest() {
    let r = roll("4d6r1<{2,5,3}");
    assert_eq!(r.reroll_modifier, Some(RerollModifier::RerollIfLower { dice_to_reroll: 1, number: 5 }));
    let r = roll("4d6r1>{4,2,6}");
    assert_eq!(r.reroll_modifier, Some(RerollModifier::RerollIfGreater { dice_to_reroll: 1, number: 2 }));
}

#[test]
fn a_list_with_two_commas_in_a_row_is_no_reroll() {
    let r = roll("2d6r1={1,,2}");
    assert_eq!(r.reroll_modifier, None);
}

#[test]
fn parses_keeping_modifiers() {
    assert_eq!(
        roll("4d6kh3").keeping_result_modifier,
        Some(KeepingResultModifier::KeepHighest { number_of_dice: 3 })
    );
    assert_eq!(
        roll("4d6kl1").keeping_result_modifier,
        Some(KeepingResultModifier::KeepLowest { number_of_dice: 1 })
    );
}

#[test]
fn parses_clamping_modifiers() {
    assert_eq!(roll("2d20min10").clamping_modifier, Some(ClampingModifier::Minimum { number: 10 }));
    assert_eq!(roll("2d20max15").clamping_modifier, Some(ClampingModifier::Maximum { number: 15 }));
}

#[test]
fn parses_every_modifier_at_once() {
    let r = roll("2d20r1<6kh1min3");
    assert_eq!(r.number_of_dice, 2);
    assert_eq!(r.dice_size, 20);
    assert_eq!(r.reroll_modifier, Some(RerollModifier::RerollIfLower { dice_to_reroll: 1, number: 6 }));
    assert_eq!(r.keeping_result_modifier, Some(KeepingResultModifier::KeepHighest { number_of_dice: 1 }));
    assert_eq!(r.clamping_modifier, Some(ClampingModifier::Minimum { number: 3 }));
}

#[test]
fn modifiers_may_come_in_any_order_and_the_leftmost_wins() {
    let r = roll("4d6 max5 kl2 kh3 r1=1");
    assert_eq!(r.keeping_result_modifier, Some(KeepingResultModifier::KeepLowest { number_of_dice: 2 }));
    assert_eq!(r.clamping_modifier, Some(ClampingModifier::Maximum { number: 5 }));
    assert_eq!(r.reroll_modifier, Some(RerollModifier::RerollIfEqual { dice_to_reroll: 1, numbers: vec![1] }));
}

#[test]
fn an_incomplete_modifier_is_skipped_for_a_later_complete_one() {
    let r = roll("2d6 k3 kh min max2 r1< r2<3");
    assert_eq!(r.keeping_result_modifier, None);
    assert_eq!(r.clamping_modifier, Some(ClampingModifier::Maximum { number: 2 }));
    assert_eq!(r.reroll_modifier, Some(RerollModifier::RerollIfLower { dice_to_reroll: 2, number: 3 }));
}

#[test]
fn numbers_beyond_u32_are_unreadable() {
    assert_eq!(DiceRoll::try_parse("4294967296d6"), Err(NotationError::UnreadableNumber));
    assert_eq!(DiceRoll::try_parse("2d6kh99999999999"), Err(NotationError::UnreadableNumber));
    assert!(DiceRoll::try_parse("4294967295d6").unwrap().is_some());
}

#[test]
fn a_reroll_list_ending_with_a_comma_is_unreadable() {
    assert_eq!(DiceRoll::try_parse("2d6r1={1,2,}"), Err(NotationError::UnreadableNumber));
}

#[test]
fn modifiers_are_not_read_without_a_roll() {
    assert_eq!(DiceRoll::try_parse("kh99999999999"), Ok(None));
}

#[test]
fn order_of_two_modifiers_does_not_matter() {
    let modifiers = ["r2<3", "r1>18", "r1=4", "r1={4,5,16}", "kh3", "kl2", "min2", "max15"];
    let kind = |m: &str| m.chars().next().unwrap();
    for m1 in modifiers {
        for m2 in modifiers {
            if kind(m1) == kind(m2) {
                continue;
            }
            let a = roll(&format!("4d20{}{}", m1, m2));
            let b = roll(&format!("4d20{}{}", m2, m1));
            assert_eq!(a, b, "{} and {}", m1, m2);
        }
    }
}

#[test]
fn modifiers_in_either_order_give_the_same_roll() {
    let a = roll("3d20r1={1,2}kh2");
    let b = roll("3d20kh2r1={1,2}");
    assert_eq!(a, b);
    assert_eq!(a.reroll_modifier, Some(RerollModifier::RerollIfEqual { dice_to_reroll: 1, numbers: vec![1, 2] }));
    assert_eq!(a.keeping_result_modifier, Some(KeepingResultModifier::KeepHighest { number_of_dice: 2 }));
}

#[test]
fn maximum_below_every_face_is_read() {
    assert_eq!(roll("3d20max0").clamping_modifier, Some(ClampingModifier::Maximum { number: 0 }));
}
