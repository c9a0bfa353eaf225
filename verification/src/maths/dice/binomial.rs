use vstd::prelude::*;

verus! {

/// Binomial coefficient, by Pascal's rule.
pub open spec fn binomial(n: nat, k: nat) -> nat
    decreases n,
{
    if k == 0 {
        1
    } else if n == 0 {
        0
    } else {
        binomial((n - 1) as nat, (k - 1) as nat) + binomial((n - 1) as nat, k)
    }
}

/// No way to choose more dice than there are.
pub proof fn lemma_binomial_above(n: nat, k: nat)
    requires
        k > n,
    ensures
        binomial(n, k) == 0,
    decreases n,
{
    if n > 0 {
        lemma_binomial_above((n - 1) as nat, (k - 1) as nat);
        lemma_binomial_above((n - 1) as nat, k);
    }
}

/// One way to choose every die.
pub proof fn lemma_binomial_all(n: nat)
    ensures
        binomial(n, n) == 1,
    decreases n,
{
    if n > 0 {
        lemma_binomial_all((n - 1) as nat);
        lemma_binomial_above((n - 1) as nat, n);
    }
}

/// `n` ways to choose one die among `n`.
pub proof fn lemma_binomial_one(n: nat)
    ensures
        binomial(n, 1) == n,
    decreases n,
{
    if n > 0 {
        lemma_binomial_one((n - 1) as nat);
        assert(binomial((n - 1) as nat, 0) == 1);
        assert(binomial(n, 1) == binomial((n - 1) as nat, 0) + binomial((n - 1) as nat, 1));
    }
}

/// C(n, k) == C(n, n - k)
pub proof fn lemma_binomial_symmetric(n: nat, k: nat)
    requires
        k <= n,
    ensures
        binomial(n, k) == binomial(n, (n - k) as nat),
    decreases n,
{
    if k == 0 {
        lemma_binomial_all(n);
    } else if k == n {
        lemma_binomial_all(n);
    } else {
        lemma_binomial_symmetric((n - 1) as nat, (k - 1) as nat);
        lemma_binomial_symmetric((n - 1) as nat, k);
        assert(((n - 1) - (k - 1)) as nat == (n - k) as nat);
        assert(binomial(n, (n - k) as nat) == binomial((n - 1) as nat, (n - k - 1) as nat)
            + binomial((n - 1) as nat, (n - k) as nat));
    }
}

/// Absorption: i * C(m, i) == m * C(m - 1, i - 1)
pub proof fn lemma_binomial_step(m: nat, i: nat)
    requires
        i >= 1,
        m >= 1,
    ensures
        i * binomial(m, i) == m * binomial((m - 1) as nat, (i - 1) as nat),
    decreases m,
{
    if i == 1 {
        lemma_binomial_one(m);
        assert(binomial((m - 1) as nat, 0) == 1);
        assert(m * 1 == m) by (nonlinear_arith);
    } else if m == 1 {
        lemma_binomial_above(0, (i - 1) as nat);
        assert(binomial(1, i) == binomial(0, (i - 1) as nat) + binomial(0, i));
        lemma_binomial_above(0, i);
    } else {
        let a = binomial((m - 1) as nat, (i - 1) as nat);
        let b = binomial((m - 1) as nat, i);
        let c = binomial((m - 2) as nat, (i - 2) as nat);
        let d = binomial((m - 2) as nat, (i - 1) as nat);
        lemma_binomial_step((m - 1) as nat, (i - 1) as nat);
        lemma_binomial_step((m - 1) as nat, i);
        assert(binomial(m, i) == a + b);
        assert(a == c + d);
        assert((i - 1) * a == (m - 1) * c);
        assert(i * b == (m - 1) * d);
        assert(i * binomial(m, i) == m * a) by (nonlinear_arith)
            requires
                binomial(m, i) == a + b,
                a == c + d,
                (i - 1) * a == (m - 1) * c,
                i * b == (m - 1) * d,
                i >= 2,
                m >= 2,
        ;
    }
}

/// Along a diagonal the binomial coefficients never decrease:
/// C(m, i) <= C(m + j, i + j).
pub proof fn lemma_binomial_grows(m: nat, i: nat, j: nat)
    ensures
        binomial(m, i) <= binomial(m + j, i + j),
    decreases j,
{
    if j > 0 {
        lemma_binomial_grows(m, i, (j - 1) as nat);
        assert(binomial(m + j, i + j) == binomial((m + j - 1) as nat, (i + j - 1) as nat)
            + binomial((m + j - 1) as nat, i + j));
    }
}

/// `2^n`
pub open spec fn two_pow(n: nat) -> nat
    decreases n,
{
    if n == 0 {
        1
    } else {
        2 * two_pow((n - 1) as nat)
    }
}

/// `C(n, 0) + C(n, 1) + ... + C(n, m - 1)`
pub open spec fn binomial_row_sum(n: nat, m: nat) -> nat
    decreases m,
{
    if m == 0 {
        0
    } else {
        binomial_row_sum(n, (m - 1) as nat) + binomial(n, (m - 1) as nat)
    }
}

proof fn lemma_row_sum_pascal(n: nat, m: nat)
    ensures
        binomial_row_sum(n + 1, m + 1) == binomial_row_sum(n, m) + binomial_row_sum(n, m + 1),
    decreases m,
{
    if m > 0 {
        lemma_row_sum_pascal(n, (m - 1) as nat);
        assert(binomial(n + 1, m) == binomial(n, (m - 1) as nat) + binomial(n, m));
        assert(binomial_row_sum(n + 1, m + 1) == binomial_row_sum(n + 1, m) + binomial(n + 1, m));
        assert(binomial_row_sum(n, m + 1) == binomial_row_sum(n, m) + binomial(n, m));
        assert(binomial_row_sum(n, m) == binomial_row_sum(n, (m - 1) as nat) + binomial(n, (m - 1) as nat));
    } else {
        assert(binomial_row_sum(n + 1, 1) == binomial_row_sum(n + 1, 0) + binomial(n + 1, 0));
        assert(binomial_row_sum(n, 1) == binomial_row_sum(n, 0) + binomial(n, 0));
    }
}

proof fn lemma_row_sum_tail(n: nat, m: nat)
    requires
        m >= n + 1,
    ensures
        binomial_row_sum(n, m) == binomial_row_sum(n, n + 1),
    decreases m,
{
    if m > n + 1 {
        lemma_row_sum_tail(n, (m - 1) as nat);
        lemma_binomial_above(n, (m - 1) as nat);
    }
}

/// The ways to choose the bad dice among `n`, over every number of bad dice, add up to
/// `2^n`: every die is either good or bad.
pub proof fn lemma_binomial_row_sum(n: nat)
    ensures
        binomial_row_sum(n, n + 1) == two_pow(n),
    decreases n,
{
    if n == 0 {
        assert(binomial_row_sum(0, 1) == binomial_row_sum(0, 0) + binomial(0, 0));
    } else {
        let p = (n - 1) as nat;
        lemma_binomial_row_sum(p);
        lemma_row_sum_pascal(p, n);
        lemma_row_sum_tail(p, n + 1);
        assert(binomial_row_sum(p, n) == binomial_row_sum(p, p + 1));
    }
}

} // verus!
