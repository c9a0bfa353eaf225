//! Pieces of the first version of the graph spline: the ledger of the columns that an
//! elimination has already used as pivots, and the number of coefficients of each
//! interval under a local-optimum rule that counts a plateau on one side as an optimum.
use std::collections::HashSet;
use vstd::prelude::*;
use crate::maths::splines::Trend;

verus! {

broadcast use vstd::std_specs::hash::group_hash_axioms;

/// Columns already used as pivots, and the column that the elimination looks at next.
#[derive(Debug)]
pub struct SolvedindexLedger {
    pub solved_indices: HashSet<usize>,
    pub cur_valid_index: usize,
}

impl SolvedindexLedger {
    /// Moves `cur_valid_index` up to the first column, from itself on, that is not solved.
    pub fn find_next_valid_index_increasing(&mut self)
        requires
            exists|j: usize|
                j >= old(self).cur_valid_index && !old(self).solved_indices@.contains(j),
        ensures
            final(self).solved_indices@ == old(self).solved_indices@,
            final(self).cur_valid_index >= old(self).cur_valid_index,
            !final(self).solved_indices@.contains(final(self).cur_valid_index),
            forall|j: usize|
                old(self).cur_valid_index <= j < final(self).cur_valid_index
                    ==> old(self).solved_indices@.contains(j),
    {
        let ghost start = self.cur_valid_index;
        let ghost solved = self.solved_indices@;
        let ghost target = choose|j: usize| j >= start && !self.solved_indices@.contains(j);
        while self.solved_indices.contains(&self.cur_valid_index)
            invariant
                self.solved_indices@ == solved,
                start <= self.cur_valid_index <= target,
                !self.solved_indices@.contains(target),
                forall|j: usize| start <= j < self.cur_valid_index ==> self.solved_indices@.contains(j),
            decreases target - self.cur_valid_index,
        {
            self.cur_valid_index += 1;
        }
    }

    /// Moves `cur_valid_index` down to the last column, from itself down, that is not
    /// solved.
    pub fn find_next_valid_index_decreasing(&mut self)
        requires
            exists|j: usize|
                j <= old(self).cur_valid_index && !old(self).solved_indices@.contains(j),
        ensures
            final(self).solved_indices@ == old(self).solved_indices@,
            final(self).cur_valid_index <= old(self).cur_valid_index,
            !final(self).solved_indices@.contains(final(self).cur_valid_index),
            forall|j: usize|
                final(self).cur_valid_index < j <= old(self).cur_valid_index
                    ==> old(self).solved_indices@.contains(j),
    {
        let ghost start = self.cur_valid_index;
        let ghost solved = self.solved_indices@;
        let ghost target = choose|j: usize| j <= start && !self.solved_indices@.contains(j);
        while self.solved_indices.contains(&self.cur_valid_index)
            invariant
                self.solved_indices@ == solved,
                target <= self.cur_valid_index <= start,
                !self.solved_indices@.contains(target),
                forall|j: usize| self.cur_valid_index < j <= start ==> self.solved_indices@.contains(j),
            decreases self.cur_valid_index - target,
        {
            self.cur_valid_index -= 1;
        }
    }
}

/// The middle of three points is a local optimum, a plateau on one side included: `y`
/// rises then falls or stays, or falls then rises or stays.
pub open spec fn is_optimum(before: Trend, after: Trend) -> bool {
    (before == Trend::Rising && (after == Trend::Falling || after == Trend::Level)) || (before
        == Trend::Falling && (after == Trend::Rising || after == Trend::Level))
}

/// Coefficients of the polynomial of interval `i` under the rule of `is_optimum`.
pub open spec fn count_for(trends: Seq<Trend>, i: int) -> usize {
    if i + 1 < trends.len() && is_optimum(trends[i], trends[i + 1]) {
        5
    } else {
        4
    }
}

/// Number of coefficients of each interval of the spline through points whose
/// successive trends are `trends`: a quartic for each interval that ends on a local
/// optimum, a cubic for the others and for the last one.
pub fn interval_coefficient_counts(trends: &Vec<Trend>) -> (counts: Vec<usize>)
    ensures
        counts.len() == trends.len(),
        forall|i: int| 0 <= i < trends.len() ==> #[trigger] counts@[i] == count_for(trends@, i),
        forall|i: int| 0 <= i < trends.len() ==> (#[trigger] counts@[i] == 4 || counts@[i] == 5),
        trends.len() >= 1 ==> counts@[trends.len() - 1] == 4,
        forall|i: int|
            0 <= i < trends.len() && (trends@[i] == Trend::Level || trends@[i] == Trend::Unordered)
                ==> #[trigger] counts@[i] == 4,
        forall|i: int|
            0 <= i < trends.len() - 1 && (trends@[i] == Trend::Rising || trends@[i] == Trend::Falling)
                ==> (#[trigger] counts@[i] == 5 <==> (trends@[i + 1] == Trend::Level || (
                trends@[i + 1] != trends@[i] && trends@[i + 1] != Trend::Unordered))),
{
    let mut counts: Vec<usize> = Vec::new();
    let mut i: usize = 0;
    while i < trends.len()
        invariant
            i <= trends.len(),
            counts.len() == i,
            forall|j: int| 0 <= j < i ==> #[trigger] counts@[j] == count_for(trends@, j),
        decreases trends.len() - i,
    {
        let mut degree: usize = 3;
        if i + 1 < trends.len() {
            let before = trends[i];
            let after = trends[i + 1];
            if (before == Trend::Rising && (after == Trend::Falling || after == Trend::Level)) || (
            before == Trend::Falling && (after == Trend::Rising || after == Trend::Level)) {
                degree += 1;
            }
        }
        counts.push(degree + 1);
        i = i + 1;
    }
    counts
}

/// Which intervals get a quartic: one whose points turn (rising then falling, or falling
/// then rising) or come to rest (rising or falling, then level) at its end. An interval
/// that is level, whose move is unknown, that goes on in the same direction, that is
/// followed by an unknown move, or that is the last one gets a cubic.
pub proof fn lemma_quartics_end_on_optima(trends: Seq<Trend>, i: int)
    requires
        0 <= i < trends.len(),
    ensures
        trends[i] == Trend::Level ==> count_for(trends, i) == 4,
        trends[i] == Trend::Unordered ==> count_for(trends, i) == 4,
        i + 1 == trends.len() ==> count_for(trends, i) == 4,
        i + 1 < trends.len() && trends[i + 1] == trends[i] ==> count_for(trends, i) == 4,
        i + 1 < trends.len() && trends[i + 1] == Trend::Unordered ==> count_for(trends, i) == 4,
        i + 1 < trends.len() && trends[i] == Trend::Rising && trends[i + 1] == Trend::Falling
            ==> count_for(trends, i) == 5,
        i + 1 < trends.len() && trends[i] == Trend::Falling && trends[i + 1] == Trend::Rising
            ==> count_for(trends, i) == 5,
        i + 1 < trends.len() && (trends[i] == Trend::Rising || trends[i] == Trend::Falling)
            && trends[i + 1] == Trend::Level ==> count_for(trends, i) == 5,
{
}

} // verus!
