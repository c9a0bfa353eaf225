//! Structure of the linear system that fits a graph spline through a list of points.
//!
//! The spline has one polynomial per interval between consecutive points; interval `k`
//! goes from point `k` to point `k + 1` and owns `counts[k]` unknown coefficients, those of
//! interval `k` coming right after those of interval `k - 1`. Each row of the system is a
//! sum of factor blocks: the `derivative`-th derivative of the polynomial of an interval,
//! taken at the start (`x = 0`) or at the end (`x = width`) of the interval.
use vstd::prelude::*;

verus! {

/// The entries `first_column + i` for `i` in `derivative..nb_coefficients`, of value
/// `i! / (i - derivative)! * x^(i - derivative)`, negated when `negated`, where `x` is the
/// width of `interval` when `at_end` and `0` otherwise.
#[derive(Debug, Clone, Copy, PartialEq, Eq, Structural)]
pub struct FactorBlock {
    pub interval: usize,
    pub first_column: usize,
    pub derivative: usize,
    pub nb_coefficients: usize,
    pub at_end: bool,
    pub negated: bool,
}

/// Right-hand side of a row: zero, or the `y` of a point.
#[derive(Debug, Clone, Copy, PartialEq, Eq, Structural)]
pub enum RowRhs {
    Zero,
    PointY(usize),
}

/// One equation: the sum of its blocks equals its right-hand side.
#[derive(Debug, Clone, PartialEq, Eq)]
pub struct EquationRow {
    pub blocks: Vec<FactorBlock>,
    pub rhs: RowRhs,
}

/// Mathematical model of a row.
pub ghost struct RowView {
    pub blocks: Seq<FactorBlock>,
    pub rhs: RowRhs,
}

impl View for EquationRow {
    type V = RowView;

    open spec fn view(&self) -> RowView {
        RowView { blocks: self.blocks@, rhs: self.rhs }
    }
}

// ---------------------------------------------------------------------------
// Coefficients per interval
// ---------------------------------------------------------------------------

/// How `y` moves from one point to the next (`Unordered` when the two `y` cannot be
/// compared).
#[derive(Debug, Clone, Copy, PartialEq, Eq, Structural)]
pub enum Trend {
    Rising,
    Falling,
    Level,
    Unordered,
}

/// The middle of three points is a local optimum for the quartic rule: `y` rises then
/// falls (a strict maximum), or falls then rises or stays level (a minimum, a plateau
/// after it included).
pub open spec fn is_quartic_junction(before: Trend, after: Trend) -> bool {
    (before == Trend::Rising && after == Trend::Falling) || (before == Trend::Falling && (after
        == Trend::Rising || after == Trend::Level))
}

/// Coefficients of the polynomial of interval `i` among intervals whose successive
/// trends are `trends`: five (a quartic) for an interval that ends on a local optimum,
/// four (a cubic) otherwise and for the last interval.
pub open spec fn coefficient_count(trends: Seq<Trend>, i: int) -> usize {
    if i + 1 < trends.len() && is_quartic_junction(trends[i], trends[i + 1]) {
        5
    } else {
        4
    }
}

/// Number of coefficients of each interval of the spline through points whose
/// successive trends are `trends` (one trend per interval): a quartic for each interval
/// that ends on a local optimum (see `is_quartic_junction`), so that the slope can be
/// forced to zero there, and a cubic for the others and for the last one.
pub fn interval_coefficient_counts(trends: &Vec<Trend>) -> (counts: Vec<usize>)
    ensures
        counts.len() == trends.len(),
        forall|i: int| 0 <= i < trends.len() ==> #[trigger] counts@[i] == coefficient_count(trends@, i),
        forall|i: int| 0 <= i < trends.len() ==> (#[trigger] counts@[i] == 4 || counts@[i] == 5),
        trends.len() >= 1 ==> counts@[trends.len() - 1] == 4,
        forall|i: int|
            0 <= i < trends.len() && (trends@[i] == Trend::Level || trends@[i] == Trend::Unordered)
                ==> #[trigger] counts@[i] == 4,
        forall|i: int|
            0 <= i < trends.len() - 1 ==> (#[trigger] counts@[i] == 5 <==> ((trends@[i] == Trend::Rising
                && trends@[i + 1] == Trend::Falling) || (trends@[i] == Trend::Falling && (trends@[i + 1]
                == Trend::Rising || trends@[i + 1] == Trend::Level)))),
{
    let mut counts: Vec<usize> = Vec::new();
    let mut i: usize = 0;
    while i < trends.len()
        invariant
            i <= trends.len(),
            counts.len() == i,
            forall|j: int| 0 <= j < i ==> #[trigger] counts@[j] == coefficient_count(trends@, j),
        decreases trends.len() - i,
    {
        let mut degree: usize = 3;
        if i + 1 < trends.len() {
            let before = trends[i];
            let after = trends[i + 1];
            if (before == Trend::Rising && after == Trend::Falling) || (before == Trend::Falling
                && (after == Trend::Rising || after == Trend::Level)) {
                degree += 1;
            }
        }
        counts.push(degree + 1);
        i = i + 1;
    }
    counts
}

// ---------------------------------------------------------------------------
// The rows
// ---------------------------------------------------------------------------

/// Index of the first coefficient of interval `k`.
pub open spec fn offset(counts: Seq<usize>, k: int) -> int
    decreases k,
{
    if k <= 0 {
        0
    } else {
        offset(counts, k - 1) + counts[k - 1]
    }
}

/// Number of unknown coefficients of the spline.
pub open spec fn total_coefficients(counts: Seq<usize>) -> int {
    offset(counts, counts.len() as int)
}

/// A factor block, from mathematical integers.
pub open spec fn blk(
    interval: int,
    first_column: int,
    derivative: int,
    nb_coefficients: int,
    at_end: bool,
    negated: bool,
) -> FactorBlock {
    FactorBlock {
        interval: interval as usize,
        first_column: first_column as usize,
        derivative: derivative as usize,
        nb_coefficients: nb_coefficients as usize,
        at_end,
        negated,
    }
}

/// A row of one block.
pub open spec fn row1(b: FactorBlock, rhs: RowRhs) -> RowView {
    RowView { blocks: seq![b], rhs }
}

/// A row of two blocks, equal to zero.
pub open spec fn row2(b1: FactorBlock, b2: FactorBlock) -> RowView {
    RowView { blocks: seq![b1, b2], rhs: RowRhs::Zero }
}

/// The spline starts on the first point.
pub open spec fn first_row() -> RowView {
    row1(blk(0, 0, 0, 1, false, false), RowRhs::PointY(0))
}

/// Rows joining interval `k` to interval `k + 1`: the left polynomial ends on point
/// `k + 1`; a left polynomial of five coefficients (local optimum) has a zero slope
/// there; slopes and curvatures agree; the first junction also carries the natural
/// condition of zero curvature at the start; the right polynomial starts on point `k + 1`.
pub open spec fn pair_rows(counts: Seq<usize>, k: int) -> Seq<RowView> {
    let o = offset(counts, k);
    let o1 = offset(counts, k + 1);
    let left = counts[k] as int;
    let right = counts[k + 1] as int;
    let c0_left = seq![row1(blk(k, o, 0, left, true, false), RowRhs::PointY((k + 1) as usize))];
    let optimum = if left == 5 {
        seq![row1(blk(k, o, 1, left, true, false), RowRhs::Zero)]
    } else {
        Seq::<RowView>::empty()
    };
    let c1 = seq![row2(blk(k, o, 1, left, true, false), blk(k + 1, o1, 1, right, false, true))];
    let natural = if k == 0 {
        seq![row1(blk(0, 0, 2, 3, false, false), RowRhs::Zero)]
    } else {
        Seq::<RowView>::empty()
    };
    let c2 = seq![row2(blk(k, o, 2, left, true, false), blk(k + 1, o1, 2, right, false, true))];
    let c0_right = seq![row1(blk(k + 1, o1, 0, right, false, false), RowRhs::PointY((k + 1) as usize))];
    c0_left + optimum + c1 + natural + c2 + c0_right
}

/// The first row and the rows of the first `k` junctions.
pub open spec fn rows_upto(counts: Seq<usize>, k: int) -> Seq<RowView>
    decreases k,
{
    if k <= 0 {
        seq![first_row()]
    } else {
        rows_upto(counts, k - 1) + pair_rows(counts, k - 1)
    }
}

/// The spline ends on the last point, with zero curvature there.
pub open spec fn tail_rows(counts: Seq<usize>) -> Seq<RowView> {
    let last = counts.len() - 1;
    let o = offset(counts, last);
    let c = counts[last] as int;
    seq![
        row1(blk(last, o, 0, c, true, false), RowRhs::PointY(counts.len() as usize)),
        row1(blk(last, o, 2, c, true, false), RowRhs::Zero),
    ]
}

/// All the rows of the system, in order.
pub open spec fn spec_equation_rows(counts: Seq<usize>) -> Seq<RowView> {
    rows_upto(counts, counts.len() - 1) + tail_rows(counts)
}

/// Counts the equation system can be built from: at least one interval, each of at
/// least three and at most six coefficients, and a number of unknowns that fits.
pub open spec fn valid_counts(counts: Seq<usize>) -> bool {
    &&& counts.len() >= 1
    &&& forall|k: int| 0 <= k < counts.len() ==> 3 <= #[trigger] counts[k] <= 6
    &&& 6 * counts.len() + 8 <= usize::MAX
}

// ---------------------------------------------------------------------------
// Bandwidth
// ---------------------------------------------------------------------------

/// Distance between two integers.
pub open spec fn dist(a: int, b: int) -> nat {
    if a >= b {
        (a - b) as nat
    } else {
        (b - a) as nat
    }
}

/// First column that a block has an entry in.
pub open spec fn block_low(b: FactorBlock) -> int {
    b.first_column + b.derivative
}

/// Last column that a block has an entry in.
pub open spec fn block_high(b: FactorBlock) -> int {
    b.first_column + b.nb_coefficients - 1
}

/// Farthest distance, from the diagonal of row `r`, of the columns of block `b`.
pub open spec fn block_reach(r: int, b: FactorBlock) -> nat {
    let lo = dist(r, block_low(b));
    let hi = dist(r, block_high(b));
    if lo >= hi { lo } else { hi }
}

/// Farthest distance, from the diagonal of row `r`, of the columns of `blocks`.
pub open spec fn blocks_reach(r: int, blocks: Seq<FactorBlock>) -> nat
    decreases blocks.len(),
{
    if blocks.len() == 0 {
        0
    } else {
        let m = blocks_reach(r, blocks.drop_last());
        let b = block_reach(r, blocks.last());
        if m >= b { m } else { b }
    }
}

/// Farthest distance from the diagonal of any column of any row.
#[verifier::opaque]
pub open spec fn reach_max(rows: Seq<RowView>) -> nat
    decreases rows.len(),
{
    if rows.len() == 0 {
        0
    } else {
        let m = reach_max(rows.drop_last());
        let b = blocks_reach(rows.len() - 1, rows.last().blocks);
        if m >= b { m } else { b }
    }
}

// ---------------------------------------------------------------------------
// Building the rows
// ---------------------------------------------------------------------------

/// Models of a list of rows.
pub open spec fn rows_view(rows: Seq<EquationRow>) -> Seq<RowView> {
    rows.map_values(|r: EquationRow| r@)
}

/// Each interval owns three to six coefficients.
pub proof fn lemma_offset_bounds(counts: Seq<usize>, k: int)
    requires
        valid_counts(counts),
        0 <= k <= counts.len(),
    ensures
        3 * k <= offset(counts, k) <= 6 * k,
    decreases k,
{
    if k > 0 {
        lemma_offset_bounds(counts, k - 1);
        assert(3 <= counts[k - 1] <= 6);
    }
}

fn push_row(rows: &mut Vec<EquationRow>, blocks: Vec<FactorBlock>, rhs: RowRhs)
    ensures
        rows_view(final(rows)@) == rows_view(old(rows)@).push(RowView { blocks: blocks@, rhs }),
{
    let ghost before = rows@;
    rows.push(EquationRow { blocks, rhs });
    assert(rows_view(rows@) =~= rows_view(before).push(RowView { blocks: blocks@, rhs }));
}

fn push_row1(rows: &mut Vec<EquationRow>, b: FactorBlock, rhs: RowRhs)
    ensures
        rows_view(final(rows)@) == rows_view(old(rows)@).push(row1(b, rhs)),
{
    let mut blocks: Vec<FactorBlock> = Vec::new();
    blocks.push(b);
    assert(blocks@ =~= seq![b]);
    push_row(rows, blocks, rhs);
}

fn push_row2(rows: &mut Vec<EquationRow>, b1: FactorBlock, b2: FactorBlock)
    ensures
        rows_view(final(rows)@) == rows_view(old(rows)@).push(row2(b1, b2)),
{
    let mut blocks: Vec<FactorBlock> = Vec::new();
    blocks.push(b1);
    blocks.push(b2);
    assert(blocks@ =~= seq![b1, b2]);
    push_row(rows, blocks, RowRhs::Zero);
}

fn block(
    interval: usize,
    first_column: usize,
    derivative: usize,
    nb_coefficients: usize,
    at_end: bool,
    negated: bool,
) -> (b: FactorBlock)
    ensures
        b == blk(
            interval as int,
            first_column as int,
            derivative as int,
            nb_coefficients as int,
            at_end,
            negated,
        ),
{
    FactorBlock { interval, first_column, derivative, nb_coefficients, at_end, negated }
}

/// The rows of the equation system of a spline whose intervals have `counts`
/// coefficients.
pub fn equation_rows(counts: &Vec<usize>) -> (rows: Vec<EquationRow>)
    requires
        valid_counts(counts@),
    ensures
        rows_view(rows@) == spec_equation_rows(counts@),
{
    let mut rows: Vec<EquationRow> = Vec::new();
    push_row1(&mut rows, block(0, 0, 0, 1, false, false), RowRhs::PointY(0));
    assert(rows_view(rows@) =~= rows_upto(counts@, 0));
    let mut coefficient_idx: usize = 0;
    let mut k: usize = 0;
    while k + 1 < counts.len()
        invariant
            valid_counts(counts@),
            k + 1 <= counts.len(),
            coefficient_idx == offset(counts@, k as int),
            rows_view(rows@) == rows_upto(counts@, k as int),
        decreases counts.len() - k,
    {
        proof {
            lemma_offset_bounds(counts@, (k + 1) as int);
        }
        let ghost before = rows_view(rows@);
        let left = counts[k];
        let right = counts[k + 1];
        let o1 = coefficient_idx + left;
        push_row1(&mut rows, block(k, coefficient_idx, 0, left, true, false), RowRhs::PointY(k + 1));
        if left == 5 {
            push_row1(&mut rows, block(k, coefficient_idx, 1, left, true, false), RowRhs::Zero);
        }
        push_row2(
            &mut rows,
            block(k, coefficient_idx, 1, left, true, false),
            block(k + 1, o1, 1, right, false, true),
        );
        if k == 0 {
            push_row1(&mut rows, block(0, 0, 2, 3, false, false), RowRhs::Zero);
        }
        push_row2(
            &mut rows,
            block(k, coefficient_idx, 2, left, true, false),
            block(k + 1, o1, 2, right, false, true),
        );
        push_row1(&mut rows, block(k + 1, o1, 0, right, false, false), RowRhs::PointY(k + 1));
        assert(rows_view(rows@) =~= before + pair_rows(counts@, k as int));
        coefficient_idx = o1;
        k = k + 1;
    }
    proof {
        lemma_offset_bounds(counts@, k as int);
    }
    let ghost before = rows_view(rows@);
    let last = counts[k];
    push_row1(&mut rows, block(k, coefficient_idx, 0, last, true, false), RowRhs::PointY(k + 1));
    push_row1(&mut rows, block(k, coefficient_idx, 2, last, true, false), RowRhs::Zero);
    assert(rows_view(rows@) =~= before + tail_rows(counts@));
    rows
}

// ---------------------------------------------------------------------------
// Size and bandwidth of the system
// ---------------------------------------------------------------------------

/// Larger of two naturals.
pub open spec fn max_nat(a: nat, b: nat) -> nat {
    if a >= b { a } else { b }
}

proof fn lemma_reach_push1(rows: Seq<RowView>, b: FactorBlock, rhs: RowRhs)
    ensures
        reach_max(rows.push(row1(b, rhs))) == max_nat(reach_max(rows), block_reach(rows.len() as int, b)),
{
    reveal(reach_max);
    let r2 = rows.push(row1(b, rhs));
    assert(r2.drop_last() =~= rows);
    assert(seq![b].drop_last() =~= Seq::<FactorBlock>::empty());
    assert(blocks_reach(rows.len() as int, Seq::<FactorBlock>::empty()) == 0);
    assert(blocks_reach(rows.len() as int, seq![b]) == block_reach(rows.len() as int, b));
    assert(r2.last() == row1(b, rhs));
    assert(reach_max(r2) == max_nat(reach_max(r2.drop_last()), blocks_reach(r2.len() - 1, r2.last().blocks)));
}

proof fn lemma_reach_push2(rows: Seq<RowView>, b1: FactorBlock, b2: FactorBlock)
    requires
        block_low(b1) <= block_high(b1) <= block_high(b2),
        block_low(b1) <= block_low(b2) <= block_high(b2),
    ensures
        reach_max(rows.push(row2(b1, b2))) == max_nat(
            reach_max(rows),
            max_nat(dist(rows.len() as int, block_low(b1)), dist(rows.len() as int, block_high(b2))),
        ),
{
    reveal(reach_max);
    let r = rows.len() as int;
    let r2 = rows.push(row2(b1, b2));
    assert(r2.drop_last() =~= rows);
    assert(seq![b1, b2].drop_last() =~= seq![b1]);
    assert(seq![b1].drop_last() =~= Seq::<FactorBlock>::empty());
    assert(blocks_reach(r, Seq::<FactorBlock>::empty()) == 0);
    assert(blocks_reach(r, seq![b1]) == block_reach(r, b1));
    assert(seq![b1, b2].last() == b2);
    assert(blocks_reach(r, seq![b1, b2]) == max_nat(block_reach(r, b1), block_reach(r, b2)));
    assert(r2.last() == row2(b1, b2));
    assert(reach_max(r2) == max_nat(reach_max(r2.drop_last()), blocks_reach(r2.len() - 1, r2.last().blocks)));
}

proof fn lemma_reach_first_row()
    ensures
        reach_max(seq![first_row()]) == 0,
{
    reveal(reach_max);
    let rows = seq![first_row()];
    assert(rows.drop_last() =~= Seq::<RowView>::empty());
    assert(seq![blk(0, 0, 0, 1, false, false)].drop_last() =~= Seq::<FactorBlock>::empty());
    let b = blk(0, 0, 0, 1, false, false);
    assert(block_low(b) == 0);
    assert(block_high(b) == 0);
    assert(block_reach(0, b) == 0);
    assert(blocks_reach(0, seq![b].drop_last()) == 0);
    assert(blocks_reach(0, seq![b]) == 0);
    assert(reach_max(rows.drop_last()) == 0);
    assert(reach_max(rows) == 0);
}

fn abs_diff(a: usize, b: usize) -> (d: usize)
    ensures
        d == dist(a as int, b as int),
{
    if a >= b { a - b } else { b - a }
}

/// `bw` widened to reach the columns `lo` and `hi` from row `row`.
fn widen(bw: usize, row: usize, lo: usize, hi: usize) -> (r: usize)
    ensures
        r == max_nat(bw as nat, max_nat(dist(row as int, lo as int), dist(row as int, hi as int))),
{
    let a = abs_diff(row, lo);
    let b = abs_diff(row, hi);
    let m = if a >= b { a } else { b };
    if bw >= m { bw } else { m }
}

/// The rows of junction `k` appended one by one to `rows`.
pub open spec fn pair_pushes(rows: Seq<RowView>, counts: Seq<usize>, k: int) -> Seq<RowView> {
    let o = offset(counts, k);
    let o1 = offset(counts, k + 1);
    let left = counts[k] as int;
    let right = counts[k + 1] as int;
    let r1 = rows.push(row1(blk(k, o, 0, left, true, false), RowRhs::PointY((k + 1) as usize)));
    let r2 = if left == 5 {
        r1.push(row1(blk(k, o, 1, left, true, false), RowRhs::Zero))
    } else {
        r1
    };
    let r3 = r2.push(row2(blk(k, o, 1, left, true, false), blk(k + 1, o1, 1, right, false, true)));
    let r4 = if k == 0 {
        r3.push(row1(blk(0, 0, 2, 3, false, false), RowRhs::Zero))
    } else {
        r3
    };
    let r5 = r4.push(row2(blk(k, o, 2, left, true, false), blk(k + 1, o1, 2, right, false, true)));
    r5.push(row1(blk(k + 1, o1, 0, right, false, false), RowRhs::PointY((k + 1) as usize)))
}

proof fn lemma_pair_pushes(rows: Seq<RowView>, counts: Seq<usize>, k: int)
    requires
        0 <= k && k + 1 < counts.len(),
    ensures
        pair_pushes(rows, counts, k) == rows + pair_rows(counts, k),
{
    assert(pair_pushes(rows, counts, k) =~= rows + pair_rows(counts, k));
}

/// Rows and bandwidth after the rows of junction `k`.
#[verifier::rlimit(60)]
fn pair_metadata(
    counts: &Vec<usize>,
    k: usize,
    coeff_idx: usize,
    row_idx: usize,
    bw: usize,
) -> (r: (usize, usize))
    requires
        valid_counts(counts@),
        k + 1 < counts.len(),
        coeff_idx == offset(counts@, k as int),
        row_idx == rows_upto(counts@, k as int).len(),
        row_idx <= 1 + 6 * k,
        bw == reach_max(rows_upto(counts@, k as int)),
    ensures
        r.0 == rows_upto(counts@, k + 1).len(),
        r.0 <= 1 + 6 * (k + 1),
        r.1 == reach_max(rows_upto(counts@, k + 1)),
{
    proof {
        lemma_offset_bounds(counts@, (k + 1) as int);
        lemma_offset_bounds(counts@, k as int);
    }
    let mut bw = bw;
    let mut row_idx = row_idx;
    let mut n = row_idx;
    let ghost mut rows = rows_upto(counts@, k as int);
    let ghost before = rows;
    let ghost o = coeff_idx as int;
    let ghost o1 = o + counts@[k as int];
    let len_left = counts[k];
    let len_right = counts[k + 1];
    let c1 = coeff_idx + len_left;

    let min_c = coeff_idx;
    let max_c = coeff_idx + len_left - 1;
    proof {
        lemma_reach_push1(rows, blk(k as int, o, 0, len_left as int, true, false), RowRhs::PointY((k + 1) as usize));
        rows = rows.push(row1(blk(k as int, o, 0, len_left as int, true, false), RowRhs::PointY((k + 1) as usize)));
    }
    bw = widen(bw, row_idx, min_c, max_c);
    row_idx += 1;
    n += 1;

    if len_left == 5 {
        let min_c = coeff_idx + 1;
        let max_c = coeff_idx + len_left - 1;
        proof {
            lemma_reach_push1(rows, blk(k as int, o, 1, len_left as int, true, false), RowRhs::Zero);
            rows = rows.push(row1(blk(k as int, o, 1, len_left as int, true, false), RowRhs::Zero));
        }
        bw = widen(bw, row_idx, min_c, max_c);
        row_idx += 1;
        n += 1;
    }

    let min_c = coeff_idx + 1;
    let max_c = c1 + len_right - 1;
    proof {
        lemma_reach_push2(rows, blk(k as int, o, 1, len_left as int, true, false), blk(k + 1, o1, 1, len_right as int, false, true));
        rows = rows.push(row2(blk(k as int, o, 1, len_left as int, true, false), blk(k + 1, o1, 1, len_right as int, false, true)));
    }
    bw = widen(bw, row_idx, min_c, max_c);
    row_idx += 1;
    n += 1;

    if coeff_idx == 0 {
        let col = coeff_idx + 2;
        proof {
            lemma_reach_push1(rows, blk(0, 0, 2, 3, false, false), RowRhs::Zero);
            rows = rows.push(row1(blk(0, 0, 2, 3, false, false), RowRhs::Zero));
        }
        bw = widen(bw, row_idx, col, col);
        row_idx += 1;
        n += 1;
    }

    let min_c = coeff_idx + 2;
    let max_c = c1 + len_right - 1;
    proof {
        lemma_reach_push2(rows, blk(k as int, o, 2, len_left as int, true, false), blk(k + 1, o1, 2, len_right as int, false, true));
        rows = rows.push(row2(blk(k as int, o, 2, len_left as int, true, false), blk(k + 1, o1, 2, len_right as int, false, true)));
    }
    bw = widen(bw, row_idx, min_c, max_c);
    row_idx += 1;
    n += 1;

    let min_c = c1;
    let max_c = c1 + len_right - 1;
    proof {
        lemma_reach_push1(rows, blk(k + 1, o1, 0, len_right as int, false, false), RowRhs::PointY((k + 1) as usize));
        rows = rows.push(row1(blk(k + 1, o1, 0, len_right as int, false, false), RowRhs::PointY((k + 1) as usize)));
    }
    bw = widen(bw, row_idx, min_c, max_c);
    row_idx += 1;
    n += 1;

    proof {
        lemma_pair_pushes(before, counts@, k as int);
        assert(rows == pair_pushes(before, counts@, k as int));
    }
    assert(rows == rows_upto(counts@, k + 1));
    (row_idx, bw)
}

/// Number of rows and bandwidth (largest distance between a row and a column that it
/// has an entry in) of the equation system of a spline whose intervals have `counts`
/// coefficients, computed without building the rows.
pub fn compute_equation_metadata(counts: &Vec<usize>) -> (r: (usize, usize))
    requires
        valid_counts(counts@),
    ensures
        r.0 == spec_equation_rows(counts@).len(),
        r.1 == reach_max(spec_equation_rows(counts@)),
{
    let mut n: usize = 1;
    let mut bw: usize = 0;
    let mut coeff_idx: usize = 0;
    let mut row_idx: usize = 1;
    let ghost mut rows: Seq<RowView> = rows_upto(counts@, 0);
    proof {
        lemma_reach_first_row();
        assert(rows == seq![first_row()]);
    }
    let mut k: usize = 0;
    while k + 1 < counts.len()
        invariant
            valid_counts(counts@),
            k + 1 <= counts.len(),
            coeff_idx == offset(counts@, k as int),
            rows == rows_upto(counts@, k as int),
            n == row_idx,
            row_idx == rows.len(),
            row_idx <= 1 + 6 * k,
            bw == reach_max(rows),
        decreases counts.len() - k,
    {
        proof {
            lemma_offset_bounds(counts@, (k + 1) as int);
            lemma_offset_bounds(counts@, k as int);
        }
        let (next_row_idx, next_bw) = pair_metadata(counts, k, coeff_idx, row_idx, bw);
        proof {
            rows = rows_upto(counts@, k + 1);
            lemma_offset_bounds(counts@, (k + 1) as int);
        }
        n = next_row_idx;
        row_idx = next_row_idx;
        bw = next_bw;
        let len_left = counts[k];
        coeff_idx += len_left;
        k = k + 1;
    }
    proof {
        lemma_offset_bounds(counts@, k as int);
    }
    let ghost before = rows;
    let ghost o = coeff_idx as int;
    let len_last = counts[k];

    let min_c = coeff_idx;
    let max_c = coeff_idx + len_last - 1;
    proof {
        lemma_reach_push1(rows, blk(k as int, o, 0, len_last as int, true, false), RowRhs::PointY((k + 1) as usize));
        rows = rows.push(row1(blk(k as int, o, 0, len_last as int, true, false), RowRhs::PointY((k + 1) as usize)));
    }
    bw = widen(bw, row_idx, min_c, max_c);
    row_idx += 1;
    n += 1;

    let min_c = coeff_idx + 2;
    let max_c = coeff_idx + len_last - 1;
    proof {
        lemma_reach_push1(rows, blk(k as int, o, 2, len_last as int, true, false), RowRhs::Zero);
        rows = rows.push(row1(blk(k as int, o, 2, len_last as int, true, false), RowRhs::Zero));
    }
    bw = widen(bw, row_idx, min_c, max_c);
    row_idx += 1;
    n += 1;
    assert(rows =~= before + tail_rows(counts@));

    (n, bw)
}

// ---------------------------------------------------------------------------
// Banded storage
// ---------------------------------------------------------------------------

/// Slot of the entry in row `row` and column `col` of a banded system of bandwidth `bw`
/// stored row after row, each row on `2 * bw + 1` slots, the first of which stands for
/// column `row - bw`.
pub open spec fn spec_band_slot(bw: int, row: int, col: int) -> int {
    row * (2 * bw + 1) + (col - row + bw)
}

/// Slot of the entry in row `row` and column `col` of the banded storage of a system of
/// `n` rows and bandwidth `bw`; it lies among the slots of its row.
pub fn band_slot(n: usize, bw: usize, row: usize, col: usize) -> (slot: usize)
    requires
        row < n,
        dist(row as int, col as int) <= bw,
        n * (2 * bw + 1) <= usize::MAX,
    ensures
        slot == spec_band_slot(bw as int, row as int, col as int),
        row * (2 * bw + 1) <= slot < (row + 1) * (2 * bw + 1),
        slot < n * (2 * bw + 1),
{
    assert(2 * bw + 1 <= n * (2 * bw + 1)) by (nonlinear_arith)
        requires
            n >= 1,
    ;
    let width: usize = 2 * bw + 1;
    assert(row * width + width <= n * width) by (nonlinear_arith)
        requires
            row < n,
    ;
    assert((row + 1) * width == row * width + width) by (nonlinear_arith);
    let base: usize = row * width;
    if col >= row {
        base + (bw + (col - row))
    } else {
        base + (bw - (row - col))
    }
}

// ---------------------------------------------------------------------------
// Laws
// ---------------------------------------------------------------------------

proof fn lemma_blocks_reach_bound(r: int, blocks: Seq<FactorBlock>, j: int)
    requires
        0 <= j < blocks.len(),
    ensures
        block_reach(r, blocks[j]) <= blocks_reach(r, blocks),
    decreases blocks.len(),
{
    if j < blocks.len() - 1 {
        lemma_blocks_reach_bound(r, blocks.drop_last(), j);
        assert(blocks.drop_last()[j] == blocks[j]);
    }
}

proof fn lemma_reach_max_bound(rows: Seq<RowView>, r: int)
    requires
        0 <= r < rows.len(),
    ensures
        blocks_reach(r, rows[r].blocks) <= reach_max(rows),
    decreases rows.len(),
{
    reveal(reach_max);
    if r < rows.len() - 1 {
        lemma_reach_max_bound(rows.drop_last(), r);
        assert(rows.drop_last()[r] == rows[r]);
    }
}

/// Every entry of the equation system lies within the bandwidth that
/// `compute_equation_metadata` reports: a column `c` that row `r` has an entry in is at
/// most that far from `r`, so the banded storage of the system holds every entry.
pub proof fn lemma_bandwidth_covers_entries(counts: Seq<usize>, r: int, j: int, c: int)
    requires
        valid_counts(counts),
        0 <= r < spec_equation_rows(counts).len(),
        0 <= j < spec_equation_rows(counts)[r].blocks.len(),
        block_low(spec_equation_rows(counts)[r].blocks[j]) <= c <= block_high(
            spec_equation_rows(counts)[r].blocks[j],
        ),
    ensures
        dist(r, c) <= reach_max(spec_equation_rows(counts)),
{
    let rows = spec_equation_rows(counts);
    lemma_blocks_reach_bound(r, rows[r].blocks, j);
    lemma_reach_max_bound(rows, r);
}

proof fn lemma_rows_upto_len(counts: Seq<usize>, k: int)
    requires
        0 <= k < counts.len(),
        forall|i: int| 0 <= i < counts.len() ==> (#[trigger] counts[i] == 4 || counts[i] == 5),
    ensures
        rows_upto(counts, k).len() == 1 + offset(counts, k) + (if k >= 1 { 1int } else { 0int }),
    decreases k,
{
    if k > 0 {
        lemma_rows_upto_len(counts, k - 1);
        assert(counts[k - 1] == 4 || counts[k - 1] == 5);
    }
}

/// A spline through at least three points has as many equations as unknown
/// coefficients, when every interval is a cubic or a quartic and the last one a cubic
/// (as `interval_coefficient_counts` chooses).
pub proof fn lemma_square_system(counts: Seq<usize>)
    requires
        counts.len() >= 2,
        forall|i: int| 0 <= i < counts.len() ==> (#[trigger] counts[i] == 4 || counts[i] == 5),
        counts[counts.len() - 1] == 4,
    ensures
        spec_equation_rows(counts).len() == total_coefficients(counts),
{
    lemma_rows_upto_len(counts, counts.len() - 1);
}

/// Every block of every row reads at least one coefficient, and only coefficients of
/// the spline: its columns lie in `0..total_coefficients(counts)`.
pub proof fn lemma_columns_are_unknowns(counts: Seq<usize>, r: int, j: int)
    requires
        valid_counts(counts),
        0 <= r < spec_equation_rows(counts).len(),
        0 <= j < spec_equation_rows(counts)[r].blocks.len(),
    ensures
        0 <= block_low(spec_equation_rows(counts)[r].blocks[j]),
        block_low(spec_equation_rows(counts)[r].blocks[j]) <= block_high(spec_equation_rows(counts)[r].blocks[j]),
        block_high(spec_equation_rows(counts)[r].blocks[j]) < total_coefficients(counts),
{
    let m = counts.len() as int;
    let rows = spec_equation_rows(counts);
    lemma_offset_bounds(counts, m);
    lemma_offset_grows_all(counts);
    let b = rows[r].blocks[j];
    let head = rows_upto(counts, m - 1);
    if r < head.len() {
        lemma_rows_upto_blocks(counts, m - 1, r, j);
    } else {
        lemma_offset_bounds(counts, m - 1);
        assert(rows[r] == tail_rows(counts)[r - head.len()]);
    }
}

proof fn lemma_offset_grows_all(counts: Seq<usize>)
    requires
        valid_counts(counts),
    ensures
        forall|a: int, b: int| 0 <= a <= b <= counts.len() ==> offset(counts, a) + 3 * (b - a) <= #[trigger] offset(counts, b) && 0 <= #[trigger] offset(counts, a),
{
    assert forall|a: int, b: int| 0 <= a <= b <= counts.len() implies offset(counts, a) + 3 * (b - a) <= #[trigger] offset(counts, b) && 0 <= #[trigger] offset(counts, a) by {
        lemma_offset_grows(counts, a, b);
        lemma_offset_bounds(counts, a);
    }
}

proof fn lemma_offset_grows(counts: Seq<usize>, a: int, b: int)
    requires
        valid_counts(counts),
        0 <= a <= b <= counts.len(),
    ensures
        offset(counts, a) + 3 * (b - a) <= offset(counts, b),
    decreases b - a,
{
    if a < b {
        lemma_offset_grows(counts, a, b - 1);
        assert(counts[b - 1] >= 3);
    }
}

proof fn lemma_rows_upto_blocks(counts: Seq<usize>, k: int, r: int, j: int)
    requires
        valid_counts(counts),
        0 <= k < counts.len(),
        0 <= r < rows_upto(counts, k).len(),
        0 <= j < rows_upto(counts, k)[r].blocks.len(),
    ensures
        0 <= block_low(rows_upto(counts, k)[r].blocks[j]),
        block_low(rows_upto(counts, k)[r].blocks[j]) <= block_high(rows_upto(counts, k)[r].blocks[j]),
        block_high(rows_upto(counts, k)[r].blocks[j]) < offset(counts, k + 1),
    decreases k,
{
    lemma_offset_grows_all(counts);
    lemma_offset_bounds(counts, counts.len() as int);
    if k > 0 {
        let prev = rows_upto(counts, k - 1);
        if r < prev.len() {
            lemma_rows_upto_blocks(counts, k - 1, r, j);
            assert(rows_upto(counts, k)[r] == prev[r]);
        } else {
            assert(rows_upto(counts, k)[r] == pair_rows(counts, k - 1)[r - prev.len()]);
            assert(counts[k - 1] >= 3 && counts[k] >= 3);
        }
    }
}

/// Two entries of the band never share a slot of the banded storage: the slot of an
/// entry gives back its row and its column.
pub proof fn lemma_band_slot_injective(bw: nat, r1: int, c1: int, r2: int, c2: int)
    requires
        0 <= r1,
        0 <= r2,
        dist(r1, c1) <= bw,
        dist(r2, c2) <= bw,
        spec_band_slot(bw as int, r1, c1) == spec_band_slot(bw as int, r2, c2),
    ensures
        r1 == r2,
        c1 == c2,
{
    let w = 2 * bw + 1;
    let d1 = c1 - r1 + bw;
    let d2 = c2 - r2 + bw;
    assert(0 <= d1 < w && 0 <= d2 < w);
    assert(r1 * w + d1 == r2 * w + d2);
    if r1 < r2 {
        assert(r1 * w + w <= r2 * w) by (nonlinear_arith)
            requires
                r1 < r2,
                w > 0,
        ;
    } else if r2 < r1 {
        assert(r2 * w + w <= r1 * w) by (nonlinear_arith)
            requires
                r2 < r1,
                w > 0,
        ;
    }
}

/// Which intervals get a quartic: one at the end of which the points turn (rising then
/// falling, or falling then rising), or reach the bottom and stay there (falling then
/// level). An interval that is level, whose move is unknown, that goes on in the same
/// direction, that rises onto a plateau, that is followed by an unknown move, or that is
/// the last one gets a cubic.
pub proof fn lemma_quartics_end_on_junctions(trends: Seq<Trend>, i: int)
    requires
        0 <= i < trends.len(),
    ensures
        trends[i] == Trend::Level ==> coefficient_count(trends, i) == 4,
        trends[i] == Trend::Unordered ==> coefficient_count(trends, i) == 4,
        i + 1 == trends.len() ==> coefficient_count(trends, i) == 4,
        i + 1 < trends.len() && trends[i + 1] == trends[i] ==> coefficient_count(trends, i) == 4,
        i + 1 < trends.len() && trends[i + 1] == Trend::Unordered ==> coefficient_count(trends, i) == 4,
        i + 1 < trends.len() && trends[i] == Trend::Rising && trends[i + 1] == Trend::Level
            ==> coefficient_count(trends, i) == 4,
        i + 1 < trends.len() && trends[i] == Trend::Rising && trends[i + 1] == Trend::Falling
            ==> coefficient_count(trends, i) == 5,
        i + 1 < trends.len() && trends[i] == Trend::Falling && trends[i + 1] == Trend::Rising
            ==> coefficient_count(trends, i) == 5,
        i + 1 < trends.len() && trends[i] == Trend::Falling && trends[i + 1] == Trend::Level
            ==> coefficient_count(trends, i) == 5,
{
}

} // verus!
