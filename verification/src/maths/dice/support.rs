//! Where the probabilities of a distribution sit: slot `i` of a distribution holds the
//! probability of the value `min_value + i`, every integer from the smallest result on
//! having a slot. A `Support` is that layout without the probabilities; its functions
//! say where the probabilities of the result of each operation on distributions go.
use vstd::prelude::*;
use crate::maths::dice::ClampingModifier;

verus! {

/// The slots `0..len`, slot `i` standing for the value `min_value + i`.
#[derive(Debug, Clone, Copy, PartialEq, Eq, Structural)]
pub struct Support {
    pub min_value: u32,
    pub len: usize,
}

impl Support {
    /// Value that slot `i` stands for.
    pub open spec fn value(self, i: int) -> int {
        self.min_value + i
    }

    /// Largest value, for a nonempty support.
    pub open spec fn max_value(self) -> int {
        self.min_value + self.len - 1
    }

    /// The layout of a value known for sure.
    pub fn constant(c: u32) -> (s: Support)
        ensures
            s.min_value == c,
            s.len == 1,
    {
        Support { min_value: c, len: 1 }
    }

    /// Layout of the sum of two independent results: the smallest values add up, and so
    /// do the largest, slot `i` of `self` and slot `j` of `other` feeding slot `i + j`.
    pub fn add(&self, other: &Support) -> (s: Support)
        requires
            self.len + other.len >= 1,
            self.len + other.len <= usize::MAX,
            self.min_value + other.min_value <= u32::MAX,
        ensures
            s == spec_add(*self, *other),
    {
        Support { min_value: self.min_value + other.min_value, len: self.len + other.len - 1 }
    }

    /// Layout of the sum with a value known for sure.
    pub fn shift_by(&self, n: u32) -> (s: Support)
        requires
            self.min_value + n <= u32::MAX,
        ensures
            s.min_value == self.min_value + n,
            s.len == self.len,
    {
        Support { min_value: self.min_value + n, len: self.len }
    }

    /// Where the two distributions of a mixture go in the slots of the mixture.
    pub fn merge(&self, other: &Support) -> (plan: MergePlan)
        requires
            self.min_value + self.len <= usize::MAX,
            other.min_value + other.len <= usize::MAX,
        ensures
            plan == spec_merge(*self, *other),
    {
        let new_min = if self.min_value <= other.min_value {
            self.min_value
        } else {
            other.min_value
        };
        let self_offset = (self.min_value - new_min) as usize;
        let other_offset = (other.min_value - new_min) as usize;
        let a = self_offset + self.len;
        let b = other_offset + other.len;
        let new_len = if a >= b { a } else { b };
        MergePlan { min_value: new_min, self_offset, other_offset, len: new_len }
    }

    /// How a clamping modifier folds the slots of a distribution: every value is
    /// raised to the minimum, or lowered to the maximum (a maximum below every value
    /// leaves that maximum alone).
    pub fn clamp_plan(&self, modifier: &ClampingModifier) -> (plan: ClampPlan)
        requires
            match *modifier {
                ClampingModifier::Minimum { .. } => true,
                ClampingModifier::Maximum { .. } => {
                    &&& 1 <= self.len
                    &&& self.min_value + self.len <= u32::MAX
                },
            },
        ensures
            plan == spec_clamp_plan(*self, *modifier),
    {
        match modifier {
            ClampingModifier::Minimum { number } => {
                let n = *number;
                if n <= self.min_value {
                    return ClampPlan::Unchanged;
                }
                let idx = (n - self.min_value) as usize;
                if idx >= self.len {
                    return ClampPlan::Constant { value: n };
                }
                ClampPlan::FoldBelow { count: idx, min_value: n }
            },
            ClampingModifier::Maximum { number } => {
                let n = *number;
                let max_val = self.min_value + self.len as u32 - 1;
                if n >= max_val {
                    return ClampPlan::Unchanged;
                }
                if n < self.min_value {
                    return ClampPlan::Constant { value: n };
                }
                let idx = (n - self.min_value) as usize;
                ClampPlan::FoldAbove { keep: idx + 1 }
            },
        }
    }

    /// Layout after mirroring every value `v` to `total - v`: the slots come in
    /// reverse order.
    pub fn mirror(&self, total: u32) -> (s: Support)
        requires
            1 <= self.len,
            self.min_value + self.len <= u32::MAX,
            self.min_value + self.len - 1 <= total,
        ensures
            s == spec_mirror(*self, total),
    {
        let original_max = self.min_value + self.len as u32 - 1;
        Support { min_value: total - original_max, len: self.len }
    }
}

/// Support of the sum of two independent results.
pub open spec fn spec_add(a: Support, b: Support) -> Support {
    Support { min_value: (a.min_value + b.min_value) as u32, len: (a.len + b.len - 1) as usize }
}

/// Slots of the mixture of two distributions.
pub open spec fn spec_merge(a: Support, b: Support) -> MergePlan {
    let m = if a.min_value <= b.min_value { a.min_value } else { b.min_value };
    let oa = (a.min_value - m) as usize;
    let ob = (b.min_value - m) as usize;
    MergePlan {
        min_value: m,
        self_offset: oa,
        other_offset: ob,
        len: if oa + a.len >= ob + b.len { (oa + a.len) as usize } else { (ob + b.len) as usize },
    }
}

/// Support after mirroring every value `v` to `total - v`.
pub open spec fn spec_mirror(s: Support, total: u32) -> Support {
    Support { min_value: (total - s.max_value()) as u32, len: s.len }
}

/// Slots of a mixture: its smallest value and length, and the slot of the mixture where
/// the first slot of each distribution goes.
#[derive(Debug, Clone, Copy, PartialEq, Eq, Structural)]
pub struct MergePlan {
    pub min_value: u32,
    pub self_offset: usize,
    pub other_offset: usize,
    pub len: usize,
}

/// How clamping folds the slots.
#[derive(Debug, Clone, Copy, PartialEq, Eq, Structural)]
pub enum ClampPlan {
    /// Clamping changes no value.
    Unchanged,
    /// Every value becomes `value`.
    Constant { value: u32 },
    /// The first `count` slots fold into the slot after them, which becomes the first,
    /// standing for `min_value`.
    FoldBelow { count: usize, min_value: u32 },
    /// The slots after the first `keep` fold into slot `keep - 1`.
    FoldAbove { keep: usize },
}

/// How clamping with `modifier` folds the slots of `s`.
pub open spec fn spec_clamp_plan(s: Support, modifier: ClampingModifier) -> ClampPlan {
    match modifier {
        ClampingModifier::Minimum { number } => {
            if number <= s.min_value {
                ClampPlan::Unchanged
            } else if number - s.min_value >= s.len {
                ClampPlan::Constant { value: number }
            } else {
                ClampPlan::FoldBelow { count: (number - s.min_value) as usize, min_value: number }
            }
        },
        ClampingModifier::Maximum { number } => {
            if number >= s.max_value() {
                ClampPlan::Unchanged
            } else if number < s.min_value {
                ClampPlan::Constant { value: number }
            } else {
                ClampPlan::FoldAbove { keep: (number - s.min_value + 1) as usize }
            }
        },
    }
}

/// The support that clamping with `plan` leaves.
pub open spec fn clamped_support(s: Support, plan: ClampPlan) -> Support {
    match plan {
        ClampPlan::Unchanged => s,
        ClampPlan::Constant { value } => Support { min_value: value, len: 1 },
        ClampPlan::FoldBelow { count, min_value } => Support {
            min_value,
            len: (s.len - count) as usize,
        },
        ClampPlan::FoldAbove { keep } => Support { min_value: s.min_value, len: keep },
    }
}

/// A value once clamped.
pub open spec fn clamp_value(modifier: ClampingModifier, v: int) -> int {
    match modifier {
        ClampingModifier::Minimum { number } => if v < number { number as int } else { v },
        ClampingModifier::Maximum { number } => if v > number { number as int } else { v },
    }
}

// ---------------------------------------------------------------------------
// Laws
// ---------------------------------------------------------------------------

/// Supports that `add` accepts, its result representable.
pub open spec fn addable(a: Support, b: Support) -> bool {
    a.len + b.len >= 1 && a.len + b.len <= usize::MAX && a.min_value + b.min_value <= u32::MAX
}

/// Adding results does not depend on their order.
pub proof fn lemma_add_commutative(a: Support, b: Support)
    ensures
        spec_add(a, b) == spec_add(b, a),
{
}

/// Adding three results does not depend on their grouping.
pub proof fn lemma_add_associative(a: Support, b: Support, c: Support)
    requires
        a.len >= 1 && b.len >= 1 && c.len >= 1,
        addable(a, b),
        addable(spec_add(a, b), c),
    ensures
        addable(b, c),
        addable(a, spec_add(b, c)),
        spec_add(spec_add(a, b), c) == spec_add(a, spec_add(b, c)),
{
}

/// Adding a result known to be zero changes nothing.
pub proof fn lemma_add_zero(a: Support)
    requires
        a.len >= 1,
    ensures
        spec_add(a, Support { min_value: 0, len: 1 }) == a,
{
}

/// In a sum, slot `i` of the first result and slot `j` of the second feed slot `i + j`,
/// which stands for the sum of the two values.
pub proof fn lemma_add_slots(a: Support, b: Support, i: int, j: int)
    requires
        addable(a, b),
        0 <= i < a.len,
        0 <= j < b.len,
    ensures
        0 <= i + j < spec_add(a, b).len,
        spec_add(a, b).value(i + j) == a.value(i) + b.value(j),
{
}

/// Every slot of both distributions of a mixture lands on the slot of the mixture that
/// stands for the same value, and the mixture starts at the smaller of the two minima.
pub proof fn lemma_merge_slots(a: Support, b: Support, i: int, j: int)
    requires
        a.min_value + a.len <= usize::MAX,
        b.min_value + b.len <= usize::MAX,
        0 <= i < a.len,
        0 <= j < b.len,
    ensures
        spec_merge(a, b).self_offset + i < spec_merge(a, b).len,
        spec_merge(a, b).other_offset + j < spec_merge(a, b).len,
        spec_merge(a, b).min_value + spec_merge(a, b).self_offset + i == a.value(i),
        spec_merge(a, b).min_value + spec_merge(a, b).other_offset + j == b.value(j),
{
}

/// Mixing does not depend on the order of the two distributions.
pub proof fn lemma_merge_commutative(a: Support, b: Support)
    ensures
        spec_merge(a, b).min_value == spec_merge(b, a).min_value,
        spec_merge(a, b).len == spec_merge(b, a).len,
        spec_merge(a, b).self_offset == spec_merge(b, a).other_offset,
        spec_merge(a, b).other_offset == spec_merge(b, a).self_offset,
{
}

/// Mirroring twice around the same total gives the support back.
pub proof fn lemma_mirror_involution(s: Support, total: u32)
    requires
        1 <= s.len,
        s.max_value() <= total,
    ensures
        spec_mirror(spec_mirror(s, total), total) == s,
{
}

/// After mirroring, slot `i` stands for `total` minus the value of the slot `len - 1 - i`
/// of the original.
pub proof fn lemma_mirror_slots(s: Support, total: u32, i: int)
    requires
        1 <= s.len,
        s.max_value() <= total,
        0 <= i < s.len,
    ensures
        spec_mirror(s, total).value(i) == total - s.value(s.len - 1 - i),
{
}

/// Clamping leaves the values between the clamped smallest and the clamped largest
/// value: the support of the result runs from `clamp(min)` to `clamp(max)`.
pub proof fn lemma_clamp_support(s: Support, modifier: ClampingModifier)
    requires
        1 <= s.len,
        s.min_value + s.len <= u32::MAX,
    ensures
        clamped_support(s, spec_clamp_plan(s, modifier)).len >= 1,
        clamped_support(s, spec_clamp_plan(s, modifier)).min_value == clamp_value(modifier, s.min_value as int),
        clamped_support(s, spec_clamp_plan(s, modifier)).max_value() == clamp_value(modifier, s.max_value()),
{
}

/// Support of the sum of `n` independent results of support `s`, added one at a time to
/// the sure value zero.
pub open spec fn repeated_add(s: Support, n: nat) -> Support
    decreases n,
{
    if n == 0 {
        Support { min_value: 0, len: 1 }
    } else {
        spec_add(repeated_add(s, (n - 1) as nat), s)
    }
}

/// A roll of `n` dice that are all kept runs from `n` times the smallest face to `n`
/// times the largest, with a slot for every total in between.
pub proof fn lemma_repeated_add(s: Support, n: nat)
    requires
        s.len >= 1,
        n * s.min_value <= u32::MAX,
        n * (s.len - 1) + 1 <= usize::MAX,
    ensures
        repeated_add(s, n).min_value == n * s.min_value,
        repeated_add(s, n).len == n * (s.len - 1) + 1,
        repeated_add(s, n).max_value() == n * s.max_value(),
    decreases n,
{
    if n > 0 {
        let m = (n - 1) as nat;
        assert(m * s.min_value <= n * s.min_value) by (nonlinear_arith)
            requires
                m <= n,
        ;
        assert(m * (s.len - 1) <= n * (s.len - 1)) by (nonlinear_arith)
            requires
                m <= n,
                s.len >= 1,
        ;
        lemma_repeated_add(s, m);
        assert(n * s.min_value == m * s.min_value + s.min_value) by (nonlinear_arith)
            requires
                n == m + 1,
        ;
        assert(n * (s.len - 1) == m * (s.len - 1) + (s.len - 1)) by (nonlinear_arith)
            requires
                n == m + 1,
        ;
        let r = repeated_add(s, m);
        assert(repeated_add(s, n) == spec_add(r, s));
        assert(r.min_value + s.min_value == n * s.min_value);
        assert(r.len + s.len - 1 == n * (s.len - 1) + 1);
        assert(n * s.max_value() == n * s.min_value + n * (s.len - 1)) by (nonlinear_arith)
            requires
                s.max_value() == s.min_value + (s.len - 1),
        ;
    } else {
        assert(0 * s.max_value() == 0) by (nonlinear_arith);
        assert(0 * s.min_value == 0) by (nonlinear_arith);
        assert(0 * (s.len - 1) == 0) by (nonlinear_arith);
    }
}

} // verus!
