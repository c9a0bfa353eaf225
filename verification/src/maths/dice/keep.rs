//! The dice that a keeping modifier keeps: the values of a roll ranked from the best
//! (the highest when keeping the highest, the lowest when keeping the lowest), cut
//! after the first `k`.
use vstd::prelude::*;
use vstd::relations::{total_ordering, sorted_by};
use vstd::seq_lib::{group_to_multiset_ensures, lemma_sorted_unique};
use crate::maths::dice::ClampingModifier;

verus! {

broadcast use group_to_multiset_ensures;

/// `a` ranks before `b`: it is at least as high (`descending`) or at least as low.
pub open spec fn ranks_before(descending: bool) -> spec_fn(u32, u32) -> bool {
    |a: u32, b: u32| if descending { a >= b } else { a <= b }
}

/// The `k` best of `values`, best first.
pub open spec fn spec_keep_best(values: Seq<u32>, k: nat, descending: bool) -> Seq<u32> {
    let sorted = values.sort_by(ranks_before(descending));
    if k < sorted.len() {
        sorted.take(k as int)
    } else {
        sorted
    }
}

/// Ranking is a total order.
pub proof fn lemma_ranks_before_total(descending: bool)
    ensures
        total_ordering(ranks_before(descending)),
{
    let r = ranks_before(descending);
    assert(forall|x: u32, y: u32, z: u32| #[trigger] r(x, y) && #[trigger] r(y, z) ==> r(x, z));
    assert(forall|x: u32, y: u32| #[trigger] r(x, y) && #[trigger] r(y, x) ==> x == y);
    assert(forall|x: u32, y: u32| #[trigger] r(x, y) || #[trigger] r(y, x));
    assert(forall|x: u32| #[trigger] r(x, x));
}

fn ranks_before_exec(a: u32, b: u32, descending: bool) -> (r: bool)
    ensures
        r == (ranks_before(descending))(a, b),
{
    if descending { a >= b } else { a <= b }
}

/// Inserts `x` into `v`, kept ranked.
fn insert_ranked(v: &mut Vec<u32>, x: u32, descending: bool)
    requires
        sorted_by(old(v)@, ranks_before(descending)),
    ensures
        sorted_by(final(v)@, ranks_before(descending)),
        final(v)@.to_multiset() == old(v)@.to_multiset().insert(x),
{
    let ghost leq = ranks_before(descending);
    proof {
        lemma_ranks_before_total(descending);
    }
    let mut pos: usize = 0;
    while pos < v.len() && ranks_before_exec(v[pos], x, descending)
        invariant
            pos <= v.len(),
            leq == ranks_before(descending),
            forall|i: int| 0 <= i < pos ==> leq(#[trigger] v@[i], x),
        decreases v.len() - pos,
    {
        pos = pos + 1;
    }
    let ghost before = v@;
    v.insert(pos, x);
    proof {
        vstd::seq_lib::to_multiset_insert(before, pos as int, x);
        if pos < before.len() {
            assert(!leq(before[pos as int], x));
            assert(leq(x, before[pos as int]));
        }
        assert forall|i: int, j: int| 0 <= i < j < v@.len() implies #[trigger] leq(v@[i], v@[j]) by {
            if j < pos {
                assert(v@[i] == before[i] && v@[j] == before[j]);
            } else if j == pos {
                assert(v@[i] == before[i]);
            } else if i < pos {
                assert(v@[i] == before[i] && v@[j] == before[j - 1]);
                assert(leq(before[i], x));
                assert(leq(x, before[pos as int]));
                if j - 1 > pos {
                    assert(leq(before[pos as int], before[j - 1]));
                }
            } else if i == pos {
                assert(v@[j] == before[j - 1]);
                if j - 1 > pos {
                    assert(leq(before[pos as int], before[j - 1]));
                }
            } else {
                assert(v@[i] == before[i - 1] && v@[j] == before[j - 1]);
            }
        }
    }
}

/// The `k` best values among `kept` and `extra` together, best first.
pub fn keep_best(kept: &Vec<u32>, extra: &Vec<u32>, k: usize, descending: bool) -> (r: Vec<u32>)
    ensures
        r@ == spec_keep_best(kept@ + extra@, k as nat, descending),
{
    let ghost leq = ranks_before(descending);
    let ghost all = kept@ + extra@;
    let mut v: Vec<u32> = Vec::new();
    let mut i: usize = 0;
    while i < kept.len()
        invariant
            i <= kept.len(),
            sorted_by(v@, leq),
            leq == ranks_before(descending),
            v@.to_multiset() == kept@.take(i as int).to_multiset(),
        decreases kept.len() - i,
    {
        insert_ranked(&mut v, kept[i], descending);
        assert(kept@.take(i + 1) =~= kept@.take(i as int).push(kept@[i as int]));
        i = i + 1;
    }
    assert(kept@.take(kept.len() as int) =~= kept@);
    let mut j: usize = 0;
    while j < extra.len()
        invariant
            j <= extra.len(),
            sorted_by(v@, leq),
            leq == ranks_before(descending),
            v@.to_multiset() == (kept@ + extra@.take(j as int)).to_multiset(),
        decreases extra.len() - j,
    {
        insert_ranked(&mut v, extra[j], descending);
        assert(kept@ + extra@.take(j + 1) =~= (kept@ + extra@.take(j as int)).push(extra@[j as int]));
        j = j + 1;
    }
    assert(kept@ + extra@.take(extra.len() as int) =~= all);
    proof {
        lemma_ranks_before_total(descending);
        all.lemma_sort_by_ensures(leq);
        lemma_sorted_unique(v@, all.sort_by(leq), leq);
    }
    if k < v.len() {
        v.truncate(k);
    }
    v
}

// ---------------------------------------------------------------------------
// Laws of keeping
// ---------------------------------------------------------------------------

/// The first `k` elements of `s`, or all of them.
pub open spec fn cut(s: Seq<u32>, k: nat) -> Seq<u32> {
    if k < s.len() {
        s.take(k as int)
    } else {
        s
    }
}

/// Number of leading elements of `s` that rank before `x`.
pub open spec fn insert_pos(s: Seq<u32>, x: u32, leq: spec_fn(u32, u32) -> bool) -> nat
    decreases s.len(),
{
    if s.len() == 0 {
        0
    } else if leq(s[0], x) {
        1 + insert_pos(s.drop_first(), x, leq)
    } else {
        0
    }
}

/// `x` inserted into the ranked `s`, after every element that ranks before it.
pub open spec fn insert_ranked_spec(s: Seq<u32>, x: u32, leq: spec_fn(u32, u32) -> bool) -> Seq<u32> {
    s.insert(insert_pos(s, x, leq) as int, x)
}

proof fn lemma_insert_pos(s: Seq<u32>, x: u32, leq: spec_fn(u32, u32) -> bool)
    ensures
        insert_pos(s, x, leq) <= s.len(),
        forall|i: int| 0 <= i < insert_pos(s, x, leq) ==> leq(#[trigger] s[i], x),
        insert_pos(s, x, leq) < s.len() ==> !leq(s[insert_pos(s, x, leq) as int], x),
    decreases s.len(),
{
    if s.len() > 0 && leq(s[0], x) {
        lemma_insert_pos(s.drop_first(), x, leq);
        assert forall|i: int| 0 <= i < insert_pos(s, x, leq) implies leq(#[trigger] s[i], x) by {
            if i > 0 {
                assert(s[i] == s.drop_first()[i - 1]);
            }
        }
    }
}

/// In a ranked sequence, the elements that rank before `x` come first.
proof fn lemma_insert_pos_prefix(s: Seq<u32>, x: u32, leq: spec_fn(u32, u32) -> bool, k: nat)
    requires
        total_ordering(leq),
        sorted_by(s, leq),
    ensures
        insert_pos(cut(s, k), x, leq) == if insert_pos(s, x, leq) <= k {
            insert_pos(s, x, leq)
        } else {
            k
        },
    decreases s.len(),
{
    if s.len() > 0 && k > 0 {
        let t = s.drop_first();
        assert(sorted_by(t, leq));
        lemma_insert_pos_prefix(t, x, leq, (k - 1) as nat);
        if k < s.len() {
            assert(cut(s, k).drop_first() =~= cut(t, (k - 1) as nat));
            assert(cut(s, k)[0] == s[0]);
        }
    }
    if k == 0 {
        assert(cut(s, k).len() == 0);
    }
}

proof fn lemma_insert_ranked_sorted(s: Seq<u32>, x: u32, leq: spec_fn(u32, u32) -> bool)
    requires
        total_ordering(leq),
        sorted_by(s, leq),
    ensures
        sorted_by(insert_ranked_spec(s, x, leq), leq),
        insert_ranked_spec(s, x, leq).to_multiset() == s.to_multiset().insert(x),
{
    lemma_insert_pos(s, x, leq);
    let pos = insert_pos(s, x, leq) as int;
    let v = insert_ranked_spec(s, x, leq);
    vstd::seq_lib::to_multiset_insert(s, pos, x);
    if pos < s.len() {
        assert(leq(x, s[pos]));
    }
    assert forall|i: int, j: int| 0 <= i < j < v.len() implies #[trigger] leq(v[i], v[j]) by {
        if j < pos {
            assert(v[i] == s[i] && v[j] == s[j]);
        } else if j == pos {
            assert(v[i] == s[i]);
        } else if i < pos {
            assert(v[i] == s[i] && v[j] == s[j - 1]);
            assert(leq(s[i], x));
            assert(leq(x, s[pos]));
            if j - 1 > pos {
                assert(leq(s[pos], s[j - 1]));
            }
        } else if i == pos {
            assert(v[j] == s[j - 1]);
            if j - 1 > pos {
                assert(leq(s[pos], s[j - 1]));
            }
        } else {
            assert(v[i] == s[i - 1] && v[j] == s[j - 1]);
        }
    }
}

/// Ranking a sequence with one more element inserts it into the ranked sequence.
proof fn lemma_sort_push(s: Seq<u32>, x: u32, leq: spec_fn(u32, u32) -> bool)
    requires
        total_ordering(leq),
    ensures
        s.push(x).sort_by(leq) == insert_ranked_spec(s.sort_by(leq), x, leq),
{
    s.lemma_sort_by_ensures(leq);
    s.push(x).lemma_sort_by_ensures(leq);
    lemma_insert_ranked_sorted(s.sort_by(leq), x, leq);
    lemma_sorted_unique(s.push(x).sort_by(leq), insert_ranked_spec(s.sort_by(leq), x, leq), leq);
}

/// Cutting before or after inserting gives the same first `k` elements.
proof fn lemma_cut_insert(s: Seq<u32>, x: u32, leq: spec_fn(u32, u32) -> bool, k: nat)
    requires
        total_ordering(leq),
        sorted_by(s, leq),
    ensures
        cut(insert_ranked_spec(s, x, leq), k) == cut(insert_ranked_spec(cut(s, k), x, leq), k),
{
    lemma_insert_pos_prefix(s, x, leq, k);
    lemma_insert_pos(s, x, leq);
    let p = insert_pos(s, x, leq) as int;
    let lhs = cut(insert_ranked_spec(s, x, leq), k);
    let rhs = cut(insert_ranked_spec(cut(s, k), x, leq), k);
    if k < s.len() {
        assert(lhs =~= rhs);
    } else {
        assert(cut(s, k) == s);
    }
}

/// A ranked sequence is its own ranking.
proof fn lemma_sort_sorted(s: Seq<u32>, leq: spec_fn(u32, u32) -> bool)
    requires
        total_ordering(leq),
        sorted_by(s, leq),
    ensures
        s.sort_by(leq) == s,
{
    s.lemma_sort_by_ensures(leq);
    lemma_sorted_unique(s.sort_by(leq), s, leq);
}

/// Keeping the best `k` dice one roll at a time, forgetting the others as it goes,
/// keeps the same dice as choosing among all the rolls at the end.
pub proof fn lemma_keep_best_incremental(a: Seq<u32>, b: Seq<u32>, k: nat, descending: bool)
    ensures
        spec_keep_best(spec_keep_best(a, k, descending) + b, k, descending) == spec_keep_best(
            a + b,
            k,
            descending,
        ),
    decreases b.len(),
{
    let leq = ranks_before(descending);
    lemma_ranks_before_total(descending);
    a.lemma_sort_by_ensures(leq);
    let t = spec_keep_best(a, k, descending);
    assert(t == cut(a.sort_by(leq), k));
    assert(sorted_by(t, leq)) by {
        assert forall|i: int, j: int| 0 <= i < j < t.len() implies #[trigger] leq(t[i], t[j]) by {
            assert(t[i] == a.sort_by(leq)[i] && t[j] == a.sort_by(leq)[j]);
        }
    }
    if b.len() == 0 {
        assert(t + b =~= t);
        assert(a + b =~= a);
        lemma_sort_sorted(t, leq);
        if k < a.sort_by(leq).len() {
            assert(cut(t, k) =~= t);
        }
    } else {
        let b0 = b.drop_last();
        let x = b.last();
        lemma_keep_best_incremental(a, b0, k, descending);
        assert(t + b =~= (t + b0).push(x));
        assert(a + b =~= (a + b0).push(x));
        lemma_sort_push(t + b0, x, leq);
        lemma_sort_push(a + b0, x, leq);
        (t + b0).lemma_sort_by_ensures(leq);
        (a + b0).lemma_sort_by_ensures(leq);
        lemma_cut_insert((t + b0).sort_by(leq), x, leq, k);
        lemma_cut_insert((a + b0).sort_by(leq), x, leq, k);
    }
}

/// The dice kept do not depend on the order in which the dice were rolled.
pub proof fn lemma_keep_best_order(a: Seq<u32>, b: Seq<u32>, k: nat, descending: bool)
    ensures
        spec_keep_best(a + b, k, descending) == spec_keep_best(b + a, k, descending),
{
    let leq = ranks_before(descending);
    lemma_ranks_before_total(descending);
    (a + b).lemma_sort_by_ensures(leq);
    (b + a).lemma_sort_by_ensures(leq);
    vstd::seq_lib::lemma_seq_union_to_multiset_commutative(a, b);
    lemma_sorted_unique((a + b).sort_by(leq), (b + a).sort_by(leq), leq);
}

/// A value once clamped.
pub open spec fn clamp_u32(modifier: ClampingModifier, v: u32) -> u32 {
    match modifier {
        ClampingModifier::Minimum { number } => if v < number { number } else { v },
        ClampingModifier::Maximum { number } => if v > number { number } else { v },
    }
}

/// Every value clamped: raised to the minimum or lowered to the maximum.
pub fn clamp_values(values: &Vec<u32>, modifier: &ClampingModifier) -> (r: Vec<u32>)
    ensures
        r.len() == values.len(),
        forall|i: int| 0 <= i < values.len() ==> #[trigger] r@[i] == clamp_u32(*modifier, values@[i]),
{
    let mut r: Vec<u32> = Vec::new();
    let mut i: usize = 0;
    while i < values.len()
        invariant
            i <= values.len(),
            r.len() == i,
            forall|j: int| 0 <= j < i ==> #[trigger] r@[j] == clamp_u32(*modifier, values@[j]),
        decreases values.len() - i,
    {
        let v = values[i];
        let c = match modifier {
            ClampingModifier::Minimum { number } => if v < *number { *number } else { v },
            ClampingModifier::Maximum { number } => if v > *number { *number } else { v },
        };
        r.push(c);
        i = i + 1;
    }
    r
}

/// Sum of the values.
pub open spec fn seq_sum(s: Seq<u32>) -> nat
    decreases s.len(),
{
    if s.len() == 0 {
        0
    } else {
        seq_sum(s.drop_last()) + s.last() as nat
    }
}

proof fn lemma_seq_sum_prefix(s: Seq<u32>, i: int)
    requires
        0 <= i <= s.len(),
    ensures
        seq_sum(s.take(i)) <= seq_sum(s),
    decreases s.len() - i,
{
    if i < s.len() {
        lemma_seq_sum_prefix(s, i + 1);
        assert(s.take(i + 1).drop_last() =~= s.take(i));
    } else {
        assert(s.take(i) =~= s);
    }
}

/// Sum of the values.
pub fn sum_values(values: &Vec<u32>) -> (r: u32)
    requires
        seq_sum(values@) <= u32::MAX,
    ensures
        r == seq_sum(values@),
{
    let mut total: u32 = 0;
    let mut i: usize = 0;
    while i < values.len()
        invariant
            i <= values.len(),
            total == seq_sum(values@.take(i as int)),
            seq_sum(values@) <= u32::MAX,
        decreases values.len() - i,
    {
        proof {
            assert(values@.take(i + 1).drop_last() =~= values@.take(i as int));
            lemma_seq_sum_prefix(values@, i + 1);
        }
        total = total + values[i];
        i = i + 1;
    }
    assert(values@.take(values.len() as int) =~= values@);
    total
}

/// How many dice a scenario keeps, and how many of the bad dice that stay can be among
/// them.
#[derive(Debug, Clone, Copy, PartialEq, Eq, Structural)]
pub struct KeepCounts {
    pub kept: u32,
    pub kept_bad: u32,
}

/// The dice kept in a scenario: `k`, or every die of the scenario when it has fewer
/// (its good dice, the bad dice that stay and the dice rolled again); and the bad dice
/// that stay, or as many as are kept when they are more.
pub fn keep_counts(
    k: u32,
    number_of_good_dice: u32,
    number_of_kept_bad_dice: u32,
    number_of_rerolled_dice: u32,
) -> (r: KeepCounts)
    requires
        number_of_good_dice + number_of_kept_bad_dice + number_of_rerolled_dice <= u32::MAX,
    ensures
        r.kept == if k <= number_of_good_dice + number_of_kept_bad_dice + number_of_rerolled_dice {
            k as int
        } else {
            number_of_good_dice + number_of_kept_bad_dice + number_of_rerolled_dice
        },
        r.kept_bad == if number_of_kept_bad_dice <= r.kept {
            number_of_kept_bad_dice
        } else {
            r.kept
        },
        r.kept_bad <= r.kept <= number_of_good_dice + number_of_kept_bad_dice + number_of_rerolled_dice,
{
    let total: u32 = number_of_good_dice + number_of_kept_bad_dice + number_of_rerolled_dice;
    let kept: u32 = if k <= total { k } else { total };
    let kept_bad: u32 = if number_of_kept_bad_dice <= kept { number_of_kept_bad_dice } else { kept };
    KeepCounts { kept, kept_bad }
}

} // verus!
