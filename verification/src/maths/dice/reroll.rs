//! The rules of rerolls: which faces are bad, where the faces of each kind sit, and
//! the scenarios of a roll, one per number of bad dice.
use vstd::prelude::*;
use crate::maths::dice::{RerollModifier, RerollView, get_combinations};
use crate::maths::dice::binomial::binomial;

verus! {

/// The values `lo, lo + 1, ..., hi - 1` (none when `hi <= lo`).
pub open spec fn value_range(lo: int, hi: int) -> Seq<u32> {
    Seq::new(if hi > lo { (hi - lo) as nat } else { 0 }, |i: int| (lo + i) as u32)
}

/// Number of dice that a reroll modifier rolls again.
pub open spec fn dice_to_reroll_of(m: RerollView) -> u32 {
    match m {
        RerollView::Lower { dice_to_reroll, .. } => dice_to_reroll,
        RerollView::Greater { dice_to_reroll, .. } => dice_to_reroll,
        RerollView::Equal { dice_to_reroll, .. } => dice_to_reroll,
    }
}

/// The bad results of a die with `dice_size` faces: those below `number`, those above
/// it, or the listed ones (as listed, repetitions and values off the die included).
pub open spec fn spec_bad_rolls(m: RerollView, dice_size: u32) -> Seq<u32> {
    match m {
        RerollView::Lower { number, .. } => value_range(1, number as int),
        RerollView::Greater { number, .. } => value_range(number + 1, dice_size + 1),
        RerollView::Equal { numbers, .. } => numbers,
    }
}

/// Number of dice to reroll and the list of bad results.
pub fn bad_rolls(modifier: &RerollModifier, dice_size: u32) -> (r: (u32, Vec<u32>))
    requires
        match modifier@ {
            RerollView::Greater { number, .. } => number < u32::MAX,
            _ => true,
        },
    ensures
        r.0 == dice_to_reroll_of(modifier@),
        r.1@ == spec_bad_rolls(modifier@, dice_size),
{
    match modifier {
        RerollModifier::RerollIfLower { dice_to_reroll, number } => {
            (*dice_to_reroll, values_between(1, *number))
        },
        RerollModifier::RerollIfGreater { dice_to_reroll, number } => {
            let lo = *number + 1;
            let v = if dice_size < u32::MAX {
                values_between(lo, dice_size + 1)
            } else {
                let mut v = values_between(lo, dice_size);
                v.push(dice_size);
                proof {
                    assert(v@ =~= value_range(lo as int, dice_size + 1));
                }
                v
            };
            (*dice_to_reroll, v)
        },
        RerollModifier::RerollIfEqual { dice_to_reroll, numbers } => {
            (*dice_to_reroll, numbers.clone())
        },
    }
}

fn values_between(lo: u32, hi: u32) -> (v: Vec<u32>)
    ensures
        v@ == value_range(lo as int, hi as int),
{
    let mut v: Vec<u32> = Vec::new();
    let mut x = lo;
    while x < hi
        invariant
            lo <= x,
            lo < hi ==> x <= hi,
            lo >= hi ==> x == lo,
            v@ == value_range(lo as int, x as int),
        decreases hi - x,
    {
        v.push(x);
        proof {
            assert(v@ =~= value_range(lo as int, x + 1));
        }
        x = x + 1;
    }
    proof {
        assert(v@ =~= value_range(lo as int, hi as int));
    }
    v
}

fn vec_contains(v: &Vec<u32>, x: u32) -> (b: bool)
    ensures
        b == v@.contains(x),
{
    let mut i: usize = 0;
    while i < v.len()
        invariant
            i <= v.len(),
            forall|j: int| 0 <= j < i ==> v@[j] != x,
        decreases v.len() - i,
    {
        if v[i] == x {
            assert(v@[i as int] == x);
            return true;
        }
        i = i + 1;
    }
    false
}

/// Where the faces of one kind (bad, or good) sit: from the first face of that kind to
/// the last, one slot per face, `true` for the faces of that kind. With no face of that
/// kind, the layout is empty and starts at `0`.
#[derive(Debug, Clone, PartialEq, Eq)]
pub struct FaceLayout {
    pub min_value: u32,
    pub slots: Vec<bool>,
}

/// `face` is bad (`bad`) or good (`!bad`).
pub open spec fn is_kind(bad_rolls: Seq<u32>, face: int, bad: bool) -> bool {
    bad_rolls.contains(face as u32) == bad
}

/// Some face of the die is of that kind.
pub open spec fn has_kind(bad_rolls: Seq<u32>, dice_size: u32, bad: bool) -> bool {
    exists|f: int| 1 <= f <= dice_size && #[trigger] is_kind(bad_rolls, f, bad)
}

/// The layout of the faces `1..=dice_size` that are bad (`bad`) or good (`!bad`).
pub fn face_layout(bad_rolls: &Vec<u32>, dice_size: u32, bad: bool) -> (r: FaceLayout)
    ensures
        !has_kind(bad_rolls@, dice_size, bad) ==> r.min_value == 0 && r.slots.len() == 0,
        has_kind(bad_rolls@, dice_size, bad) ==> {
            &&& 1 <= r.min_value
            &&& r.slots.len() >= 1
            &&& r.min_value + r.slots.len() - 1 <= dice_size
            &&& is_kind(bad_rolls@, r.min_value as int, bad)
            &&& is_kind(bad_rolls@, r.min_value + r.slots.len() - 1, bad)
            &&& forall|f: int| 1 <= f < r.min_value ==> !#[trigger] is_kind(bad_rolls@, f, bad)
            &&& forall|f: int|
                r.min_value + r.slots.len() - 1 < f <= dice_size ==> !#[trigger] is_kind(
                    bad_rolls@,
                    f,
                    bad,
                )
            &&& forall|i: int|
                0 <= i < r.slots.len() ==> #[trigger] r.slots@[i] == is_kind(
                    bad_rolls@,
                    r.min_value + i,
                    bad,
                )
        },
{
    let mut min_value: u32 = 0;
    let mut slots: Vec<bool> = Vec::new();
    let mut last: usize = 0;
    let mut face: u64 = 1;
    while face <= dice_size as u64
        invariant
            1 <= face <= dice_size as u64 + 1,
            min_value == 0 ==> slots.len() == 0,
            min_value == 0 ==> forall|f: int| 1 <= f < face ==> !#[trigger] is_kind(bad_rolls@, f, bad),
            min_value != 0 ==> {
                &&& 1 <= min_value < face
                &&& slots.len() == face - min_value
                &&& is_kind(bad_rolls@, min_value as int, bad)
                &&& forall|f: int| 1 <= f < min_value ==> !#[trigger] is_kind(bad_rolls@, f, bad)
                &&& forall|i: int|
                    0 <= i < slots.len() ==> #[trigger] slots@[i] == is_kind(
                        bad_rolls@,
                        min_value + i,
                        bad,
                    )
                &&& last < slots.len()
                &&& slots@[last as int]
                &&& forall|i: int| last < i < slots.len() ==> !#[trigger] slots@[i]
            },
        decreases dice_size as u64 + 1 - face,
    {
        let f = face as u32;
        let of_kind = vec_contains(bad_rolls, f) == bad;
        if of_kind {
            if min_value == 0 {
                min_value = f;
            }
            last = slots.len();
            slots.push(true);
        } else if min_value != 0 {
            slots.push(false);
        }
        face = face + 1;
    }
    if min_value != 0 {
        let ghost full = slots@;
        slots.truncate(last + 1);
        proof {
            assert forall|f: int|
                min_value + slots.len() - 1 < f <= dice_size implies !#[trigger] is_kind(
                bad_rolls@,
                f,
                bad,
            ) by {
                assert(full[f - min_value] == is_kind(bad_rolls@, min_value + (f - min_value), bad));
            }
            assert(slots@[last as int]);
            assert(is_kind(bad_rolls@, min_value + last, bad)) by {
                assert(full[last as int] == is_kind(bad_rolls@, min_value + last, bad));
            }
        }
    } else {
        proof {
            assert forall|f: int| 1 <= f <= dice_size implies !#[trigger] is_kind(bad_rolls@, f, bad) by {
            }
        }
    }
    FaceLayout { min_value, slots }
}

/// One way the bad dice of a roll can fall: `number_of_bad_dice` bad dice among the
/// `number_of_dice`, of which `number_of_rerolled_dice` are rolled again and
/// `number_of_kept_bad_dice` stay; `ways` is the number of ways to choose the bad dice
/// (saturated at `u64::MAX`).
#[derive(Debug, Clone, Copy, PartialEq, Eq, Structural)]
pub struct RerollScenario {
    pub number_of_bad_dice: u32,
    pub number_of_good_dice: u32,
    pub number_of_rerolled_dice: u32,
    pub number_of_kept_bad_dice: u32,
    pub ways: u64,
}

/// `v`, or `u64::MAX` when it does not fit.
pub open spec fn saturated(v: nat) -> u64 {
    if v <= u64::MAX { v as u64 } else { u64::MAX }
}

/// The scenario with `bad` bad dice.
pub open spec fn spec_scenario(number_of_dice: u32, dice_to_reroll: u32, bad: u32) -> RerollScenario {
    let rerolled = if dice_to_reroll <= bad { dice_to_reroll } else { bad };
    RerollScenario {
        number_of_bad_dice: bad,
        number_of_good_dice: (number_of_dice - bad) as u32,
        number_of_rerolled_dice: rerolled,
        number_of_kept_bad_dice: (bad - rerolled) as u32,
        ways: saturated(binomial(number_of_dice as nat, bad as nat)),
    }
}

/// In every scenario each die is accounted for once: it is good, rerolled, or a bad die
/// that stays.
pub proof fn lemma_scenario_dice_accounted(number_of_dice: u32, dice_to_reroll: u32, bad: u32)
    requires
        bad <= number_of_dice,
    ensures
        spec_scenario(number_of_dice, dice_to_reroll, bad).number_of_good_dice
            + spec_scenario(number_of_dice, dice_to_reroll, bad).number_of_rerolled_dice
            + spec_scenario(number_of_dice, dice_to_reroll, bad).number_of_kept_bad_dice
            == number_of_dice,
        spec_scenario(number_of_dice, dice_to_reroll, bad).number_of_rerolled_dice <= dice_to_reroll,
{
}

/// The scenarios of a roll of `number_of_dice` dice that rerolls up to `dice_to_reroll`
/// bad dice, from no bad die to all of them bad.
pub fn reroll_scenarios(number_of_dice: u32, dice_to_reroll: u32) -> (r: Vec<RerollScenario>)
    requires
        number_of_dice < usize::MAX,
    ensures
        r.len() == number_of_dice + 1,
        forall|i: int| 0 <= i <= number_of_dice ==> #[trigger] r@[i] == spec_scenario(number_of_dice, dice_to_reroll, i as u32),
{
    let mut r: Vec<RerollScenario> = Vec::new();
    let mut bad: u64 = 0;
    while bad <= number_of_dice as u64
        invariant
            bad <= number_of_dice as u64 + 1,
            r.len() == bad,
            forall|i: int| 0 <= i < bad ==> #[trigger] r@[i] == spec_scenario(number_of_dice, dice_to_reroll, i as u32),
        decreases number_of_dice as u64 + 1 - bad,
    {
        let b = bad as u32;
        let rerolled = if dice_to_reroll <= b { dice_to_reroll } else { b };
        let scenario = RerollScenario {
            number_of_bad_dice: b,
            number_of_good_dice: number_of_dice - b,
            number_of_rerolled_dice: rerolled,
            number_of_kept_bad_dice: b - rerolled,
            ways: get_combinations(number_of_dice, b),
        };
        r.push(scenario);
        bad = bad + 1;
    }
    r
}

} // verus!
