pub mod binomial;
pub mod notation;
pub mod support;
pub mod reroll;
pub mod keep;

use vstd::prelude::*;
use crate::maths::dice::binomial::{binomial, lemma_binomial_symmetric, lemma_binomial_step, lemma_binomial_grows};

verus! {

/// Rerolls the `dice_to_reroll` first bad dice, a bad die being one below `number`,
/// above `number`, or equal to one of `numbers`.
#[derive(Debug, Clone, PartialEq, Eq)]
pub enum RerollModifier {
    RerollIfLower { dice_to_reroll: u32, number: u32 },
    RerollIfGreater { dice_to_reroll: u32, number: u32 },
    RerollIfEqual { dice_to_reroll: u32, numbers: Vec<u32> },
}

/// Raises (`Minimum`) or lowers (`Maximum`) every kept die to a bound.
#[derive(Debug, Clone, Copy, PartialEq, Eq, Structural)]
pub enum ClampingModifier {
    Minimum { number: u32 },
    Maximum { number: u32 },
}

/// Keeps only the highest or the lowest dice of the roll.
#[derive(Debug, Clone, Copy, PartialEq, Eq, Structural)]
pub enum KeepingResultModifier {
    KeepHighest { number_of_dice: u32 },
    KeepLowest { number_of_dice: u32 },
}

/// A roll such as `4d6kh3r1<2min2`: `number_of_dice` dice of `dice_size` faces each.
#[derive(Debug, Clone, PartialEq, Eq)]
pub struct DiceRoll {
    pub number_of_dice: u32,
    pub dice_size: u32,
    pub reroll_modifier: Option<RerollModifier>,
    pub clamping_modifier: Option<ClampingModifier>,
    pub keeping_result_modifier: Option<KeepingResultModifier>,
}

/// Mathematical model of a reroll modifier.
pub ghost enum RerollView {
    Lower { dice_to_reroll: u32, number: u32 },
    Greater { dice_to_reroll: u32, number: u32 },
    Equal { dice_to_reroll: u32, numbers: Seq<u32> },
}

/// Mathematical model of a dice roll.
pub ghost struct DiceRollView {
    pub number_of_dice: u32,
    pub dice_size: u32,
    pub reroll_modifier: Option<RerollView>,
    pub clamping_modifier: Option<ClampingModifier>,
    pub keeping_result_modifier: Option<KeepingResultModifier>,
}

impl View for RerollModifier {
    type V = RerollView;

    open spec fn view(&self) -> RerollView {
        match self {
            RerollModifier::RerollIfLower { dice_to_reroll, number } => RerollView::Lower {
                dice_to_reroll: *dice_to_reroll,
                number: *number,
            },
            RerollModifier::RerollIfGreater { dice_to_reroll, number } => RerollView::Greater {
                dice_to_reroll: *dice_to_reroll,
                number: *number,
            },
            RerollModifier::RerollIfEqual { dice_to_reroll, numbers } => RerollView::Equal {
                dice_to_reroll: *dice_to_reroll,
                numbers: numbers@,
            },
        }
    }
}

impl View for DiceRoll {
    type V = DiceRollView;

    open spec fn view(&self) -> DiceRollView {
        DiceRollView {
            number_of_dice: self.number_of_dice,
            dice_size: self.dice_size,
            reroll_modifier: match self.reroll_modifier {
                Some(m) => Some(m@),
                None => None,
            },
            clamping_modifier: self.clamping_modifier,
            keeping_result_modifier: self.keeping_result_modifier,
        }
    }
}

/// Number of ways to choose `k` dice among `n`, saturated at `u64::MAX`.
pub fn get_combinations(n: u32, k: u32) -> (result: u64)
    requires
        k <= n,
    ensures
        result as nat == if binomial(n as nat, k as nat) <= u64::MAX as nat {
            binomial(n as nat, k as nat)
        } else {
            u64::MAX as nat
        },
{
    let k_small: u32 = if k < n - k { k } else { n - k };
    proof {
        if k_small != k {
            lemma_binomial_symmetric(n as nat, k as nat);
        }
    }
    let base: u32 = n - k_small;
    let mut result: u128 = 1;
    let mut i: u32 = 1;
    while i <= k_small
        invariant
            1 <= i <= k_small + 1,
            k_small <= n,
            k_small <= n - k_small,
            base == n - k_small,
            binomial(n as nat, k as nat) == binomial(n as nat, k_small as nat),
            result as nat == binomial((base + i - 1) as nat, (i - 1) as nat),
            result <= u64::MAX,
        decreases k_small + 1 - i,
    {
        let m: u32 = base + i;
        proof {
            lemma_binomial_step(m as nat, i as nat);
        }
        assert(result * (m as u128) <= 0xffff_ffff_ffff_ffff_u128 * 0xffff_ffff_u128) by (nonlinear_arith)
            requires
                result <= 0xffff_ffff_ffff_ffff_u128,
                m <= 0xffff_ffff_u32,
        ;
        let product: u128 = result * (m as u128);
        let next: u128 = product / (i as u128);
        proof {
            assert((base + i - 1) as nat == (m - 1) as nat);
            assert(result as nat == binomial((m - 1) as nat, (i - 1) as nat));
            assert(product as nat == (result as nat) * (m as nat));
            assert(product == i * binomial(m as nat, i as nat));
            assert(next == binomial(m as nat, i as nat)) by (nonlinear_arith)
                requires
                    product == i * binomial(m as nat, i as nat),
                    next == product / (i as u128),
                    i > 0,
            ;
        }
        if next > 0xffff_ffff_ffff_ffff_u128 {
            proof {
                lemma_binomial_grows(m as nat, i as nat, (k_small - i) as nat);
            }
            return u64::MAX;
        }
        result = next;
        i = i + 1;
    }
    result as u64
}

} // verus!
