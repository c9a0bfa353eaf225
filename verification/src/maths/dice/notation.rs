//! The dice-roll notation: `NdS`, optionally followed anywhere in the text by a reroll
//! modifier (`rD<N`, `rD>N`, `rD=N` or `rD={N,N,...}`), a keeping modifier (`khN`,
//! `klN`) and a clamping modifier (`minN`, `maxN`). Each modifier is read from its
//! leftmost occurrence; the base roll must open the text, after optional white space.
use vstd::prelude::*;
use crate::maths::dice::{
    DiceRoll, DiceRollView, RerollModifier, RerollView, ClampingModifier, KeepingResultModifier,
};

verus! {

broadcast use vstd::string::axiom_spec_iter;

// ---------------------------------------------------------------------------
// Characters
// ---------------------------------------------------------------------------

/// An ASCII decimal digit.
pub open spec fn is_digit(c: char) -> bool {
    '0' <= c && c <= '9'
}

/// The Unicode `White_Space` characters.
pub open spec fn is_white_space(c: char) -> bool {
    ||| '\u{9}' <= c && c <= '\u{d}'
    ||| c == ' '
    ||| c == '\u{85}'
    ||| c == '\u{a0}'
    ||| c == '\u{1680}'
    ||| '\u{2000}' <= c && c <= '\u{200a}'
    ||| c == '\u{2028}'
    ||| c == '\u{2029}'
    ||| c == '\u{202f}'
    ||| c == '\u{205f}'
    ||| c == '\u{3000}'
}

/// A character of a reroll list: a digit or a comma.
pub open spec fn is_list_char(c: char) -> bool {
    is_digit(c) || c == ','
}

/// The operator of a reroll modifier.
pub open spec fn is_reroll_op(c: char) -> bool {
    c == '<' || c == '>' || c == '='
}

/// Value of a decimal digit.
pub open spec fn digit_value(c: char) -> nat {
    (c as nat - '0' as nat) as nat
}

// ---------------------------------------------------------------------------
// Runs and numbers
// ---------------------------------------------------------------------------

/// Number of consecutive digits starting at `i`.
pub open spec fn digit_run(s: Seq<char>, i: int) -> nat
    decreases s.len() - i,
{
    if 0 <= i < s.len() && is_digit(s[i]) {
        1 + digit_run(s, i + 1)
    } else {
        0
    }
}

/// Number of consecutive white-space characters starting at `i`.
pub open spec fn space_run(s: Seq<char>, i: int) -> nat
    decreases s.len() - i,
{
    if 0 <= i < s.len() && is_white_space(s[i]) {
        1 + space_run(s, i + 1)
    } else {
        0
    }
}

/// Number of consecutive digits and commas starting at `i`.
pub open spec fn list_run(s: Seq<char>, i: int) -> nat
    decreases s.len() - i,
{
    if 0 <= i < s.len() && is_list_char(s[i]) {
        1 + list_run(s, i + 1)
    } else {
        0
    }
}

/// Decimal value of `s[i..j]`.
pub open spec fn digits_value(s: Seq<char>, i: int, j: int) -> nat
    decreases j - i,
{
    if j <= i {
        0
    } else {
        digits_value(s, i, j - 1) * 10 + digit_value(s[j - 1])
    }
}

/// The `u32` written by the digit run starting at `i`, if it fits.
pub open spec fn number_at(s: Seq<char>, i: int) -> Option<u32> {
    let v = digits_value(s, i, i + digit_run(s, i));
    if v <= u32::MAX {
        Some(v as u32)
    } else {
        None
    }
}

/// The numbers of the comma-separated list `s[i..j]`; `None` when a piece is empty
/// or does not fit in a `u32`.
pub open spec fn list_numbers(s: Seq<char>, i: int, j: int) -> Option<Seq<u32>>
    decreases j - i,
{
    let d = digit_run(s, i);
    if d == 0 || number_at(s, i) is None {
        None
    } else if i + d >= j {
        Some(seq![number_at(s, i)->0])
    } else {
        match list_numbers(s, i + d + 1, j) {
            None => None,
            Some(rest) => Some(seq![number_at(s, i)->0] + rest),
        }
    }
}

/// Largest element of a nonempty sequence.
pub open spec fn seq_max(ns: Seq<u32>) -> u32
    decreases ns.len(),
{
    if ns.len() <= 1 {
        ns[0]
    } else {
        let m = seq_max(ns.drop_last());
        if ns.last() > m { ns.last() } else { m }
    }
}

/// Smallest element of a nonempty sequence.
pub open spec fn seq_min(ns: Seq<u32>) -> u32
    decreases ns.len(),
{
    if ns.len() <= 1 {
        ns[0]
    } else {
        let m = seq_min(ns.drop_last());
        if ns.last() < m { ns.last() } else { m }
    }
}

/// The largest listed number bounds every listed number and is one of them.
pub proof fn lemma_seq_max_is_largest(ns: Seq<u32>)
    requires
        ns.len() >= 1,
    ensures
        forall|i: int| 0 <= i < ns.len() ==> #[trigger] ns[i] <= seq_max(ns),
        ns.contains(seq_max(ns)),
    decreases ns.len(),
{
    if ns.len() > 1 {
        let init = ns.drop_last();
        lemma_seq_max_is_largest(init);
        assert forall|i: int| 0 <= i < ns.len() implies #[trigger] ns[i] <= seq_max(ns) by {
            if i < ns.len() - 1 {
                assert(ns[i] == init[i]);
            }
        }
        if seq_max(ns) == ns.last() {
            assert(ns[ns.len() - 1] == seq_max(ns));
        } else {
            let j = choose|j: int| 0 <= j < init.len() && init[j] == seq_max(init);
            assert(ns[j] == seq_max(ns));
        }
    } else {
        assert(ns[0] == seq_max(ns));
    }
}

/// The smallest listed number is bounded by every listed number and is one of them.
pub proof fn lemma_seq_min_is_smallest(ns: Seq<u32>)
    requires
        ns.len() >= 1,
    ensures
        forall|i: int| 0 <= i < ns.len() ==> seq_min(ns) <= #[trigger] ns[i],
        ns.contains(seq_min(ns)),
    decreases ns.len(),
{
    if ns.len() > 1 {
        let init = ns.drop_last();
        lemma_seq_min_is_smallest(init);
        assert forall|i: int| 0 <= i < ns.len() implies seq_min(ns) <= #[trigger] ns[i] by {
            if i < ns.len() - 1 {
                assert(ns[i] == init[i]);
            }
        }
        if seq_min(ns) == ns.last() {
            assert(ns[ns.len() - 1] == seq_min(ns));
        } else {
            let j = choose|j: int| 0 <= j < init.len() && init[j] == seq_min(init);
            assert(ns[j] == seq_min(ns));
        }
    } else {
        assert(ns[0] == seq_min(ns));
    }
}

// ---------------------------------------------------------------------------
// Patterns
// ---------------------------------------------------------------------------

/// Two commas in a row at `k`.
pub open spec fn double_comma_at(s: Seq<char>, k: int) -> bool {
    s[k] == ',' && s[k + 1] == ','
}

/// `\{(?:\d+,?)+\}` starting at `q`.
pub open spec fn braced_list_at(s: Seq<char>, q: int) -> bool {
    let r = list_run(s, q + 1);
    &&& 0 <= q && q + 1 < s.len()
    &&& s[q] == '{'
    &&& is_digit(s[q + 1])
    &&& forall|k: int| q + 1 <= k < q + r ==> !#[trigger] double_comma_at(s, k)
    &&& q + 1 + r < s.len()
    &&& s[q + 1 + r] == '}'
}

/// Position of the operator of a reroll modifier starting at `p`.
pub open spec fn reroll_op_pos(s: Seq<char>, p: int) -> int {
    p + 1 + digit_run(s, p + 1)
}

/// `r\d+[<>=](?:\d+|\{(?:\d+,?)+\})` starting at `p`.
pub open spec fn reroll_at(s: Seq<char>, p: int) -> bool {
    let e = reroll_op_pos(s, p);
    &&& 0 <= p < s.len()
    &&& s[p] == 'r'
    &&& digit_run(s, p + 1) > 0
    &&& e < s.len()
    &&& is_reroll_op(s[e])
    &&& (digit_run(s, e + 1) > 0 || braced_list_at(s, e + 1))
}

/// `k[hl]\d+` starting at `p`.
pub open spec fn keep_at(s: Seq<char>, p: int) -> bool {
    &&& 0 <= p && p + 1 < s.len()
    &&& s[p] == 'k'
    &&& (s[p + 1] == 'h' || s[p + 1] == 'l')
    &&& digit_run(s, p + 2) > 0
}

/// `(?:min|max)\d+` starting at `p`.
pub open spec fn clamp_at(s: Seq<char>, p: int) -> bool {
    &&& 0 <= p && p + 2 < s.len()
    &&& s[p] == 'm'
    &&& ((s[p + 1] == 'i' && s[p + 2] == 'n') || (s[p + 1] == 'a' && s[p + 2] == 'x'))
    &&& digit_run(s, p + 3) > 0
}

/// The three modifiers of the notation.
pub enum Pattern {
    Reroll,
    Keep,
    Clamp,
}

/// `pattern` matches at `p`.
pub open spec fn matches_at(s: Seq<char>, pattern: Pattern, p: int) -> bool {
    match pattern {
        Pattern::Reroll => reroll_at(s, p),
        Pattern::Keep => keep_at(s, p),
        Pattern::Clamp => clamp_at(s, p),
    }
}

/// Leftmost position at or after `p` where `pattern` matches.
pub open spec fn first_match_from(s: Seq<char>, pattern: Pattern, p: int) -> Option<int>
    decreases s.len() - p,
{
    if p < 0 || p >= s.len() {
        None
    } else if matches_at(s, pattern, p) {
        Some(p)
    } else {
        first_match_from(s, pattern, p + 1)
    }
}

// ---------------------------------------------------------------------------
// Fields: `None` means that a number of the matched text cannot be read as a `u32`
// ---------------------------------------------------------------------------

/// The numbers after the operator of a reroll modifier, `q` being just after it.
pub open spec fn reroll_numbers(s: Seq<char>, q: int) -> Option<Seq<u32>> {
    if digit_run(s, q) > 0 {
        match number_at(s, q) {
            Some(n) => Some(seq![n]),
            None => None,
        }
    } else {
        list_numbers(s, q + 1, q + 1 + list_run(s, q + 1))
    }
}

/// The reroll modifier written at `p`: `rD<N` rerolls below the largest listed number,
/// `rD>N` above the smallest, `rD=N` on the listed numbers.
pub open spec fn reroll_value(s: Seq<char>, p: int) -> Option<RerollView> {
    let e = reroll_op_pos(s, p);
    match (number_at(s, p + 1), reroll_numbers(s, e + 1)) {
        (Some(d), Some(ns)) => Some(
            if s[e] == '<' {
                RerollView::Lower { dice_to_reroll: d, number: seq_max(ns) }
            } else if s[e] == '>' {
                RerollView::Greater { dice_to_reroll: d, number: seq_min(ns) }
            } else {
                RerollView::Equal { dice_to_reroll: d, numbers: ns }
            },
        ),
        _ => None,
    }
}

/// The keeping modifier written at `p`.
pub open spec fn keep_value(s: Seq<char>, p: int) -> Option<KeepingResultModifier> {
    match number_at(s, p + 2) {
        Some(n) => Some(
            if s[p + 1] == 'h' {
                KeepingResultModifier::KeepHighest { number_of_dice: n }
            } else {
                KeepingResultModifier::KeepLowest { number_of_dice: n }
            },
        ),
        None => None,
    }
}

/// The clamping modifier written at `p`.
pub open spec fn clamp_value(s: Seq<char>, p: int) -> Option<ClampingModifier> {
    match number_at(s, p + 3) {
        Some(n) => Some(
            if s[p + 1] == 'i' {
                ClampingModifier::Minimum { number: n }
            } else {
                ClampingModifier::Maximum { number: n }
            },
        ),
        None => None,
    }
}

/// The reroll modifier of `s`: `Some(None)` without one, `None` when it is unreadable.
pub open spec fn reroll_field(s: Seq<char>) -> Option<Option<RerollView>> {
    match first_match_from(s, Pattern::Reroll, 0) {
        None => Some(None),
        Some(p) => match reroll_value(s, p) {
            Some(r) => Some(Some(r)),
            None => None,
        },
    }
}

/// The keeping modifier of `s`: `Some(None)` without one, `None` when it is unreadable.
pub open spec fn keep_field(s: Seq<char>) -> Option<Option<KeepingResultModifier>> {
    match first_match_from(s, Pattern::Keep, 0) {
        None => Some(None),
        Some(p) => match keep_value(s, p) {
            Some(r) => Some(Some(r)),
            None => None,
        },
    }
}

/// The clamping modifier of `s`: `Some(None)` without one, `None` when it is unreadable.
pub open spec fn clamp_field(s: Seq<char>) -> Option<Option<ClampingModifier>> {
    match first_match_from(s, Pattern::Clamp, 0) {
        None => Some(None),
        Some(p) => match clamp_value(s, p) {
            Some(r) => Some(Some(r)),
            None => None,
        },
    }
}

/// Start of the number of dice: after the leading white space.
pub open spec fn base_start(s: Seq<char>) -> int {
    space_run(s, 0) as int
}

/// `^\s*\d+d\d+`
pub open spec fn base_match(s: Seq<char>) -> bool {
    let i = base_start(s);
    let e = i + digit_run(s, i);
    &&& digit_run(s, i) > 0
    &&& e < s.len()
    &&& s[e] == 'd'
    &&& digit_run(s, e + 1) > 0
}

/// What the notation `s` denotes.
pub enum Notation {
    /// `s` does not open with a roll `NdS`.
    NoRoll,
    /// `s` holds a number, in a part that the notation reads, that is not a `u32`,
    /// or a reroll list with a trailing comma.
    Unreadable,
    Roll(DiceRollView),
}

/// What `s` denotes: the base roll opening it, with the modifiers found at their
/// leftmost occurrences.
pub open spec fn spec_notation(s: Seq<char>) -> Notation {
    let i = base_start(s);
    let e = i + digit_run(s, i);
    if !base_match(s) {
        Notation::NoRoll
    } else {
        match (number_at(s, i), number_at(s, e + 1), reroll_field(s), keep_field(s), clamp_field(s)) {
            (Some(n), Some(size), Some(reroll), Some(keep), Some(clamp)) => Notation::Roll(
                DiceRollView {
                    number_of_dice: n,
                    dice_size: size,
                    reroll_modifier: reroll,
                    clamping_modifier: clamp,
                    keeping_result_modifier: keep,
                },
            ),
            _ => Notation::Unreadable,
        }
    }
}

// ---------------------------------------------------------------------------
// Lemmas
// ---------------------------------------------------------------------------

/// A digit run stays inside the text and holds only digits.
pub proof fn lemma_digit_run_bounds(s: Seq<char>, i: int)
    requires
        0 <= i <= s.len(),
    ensures
        i + digit_run(s, i) <= s.len(),
        forall|k: int| i <= k < i + digit_run(s, i) ==> is_digit(#[trigger] s[k]),
    decreases s.len() - i,
{
    if i < s.len() && is_digit(s[i]) {
        lemma_digit_run_bounds(s, i + 1);
    }
}

/// A list run stays inside the text.
pub proof fn lemma_list_run_bounds(s: Seq<char>, i: int)
    requires
        0 <= i <= s.len(),
    ensures
        i + list_run(s, i) <= s.len(),
    decreases s.len() - i,
{
    if i < s.len() && is_list_char(s[i]) {
        lemma_list_run_bounds(s, i + 1);
    }
}

/// A white-space run stays inside the text.
pub proof fn lemma_space_run_bounds(s: Seq<char>, i: int)
    requires
        0 <= i <= s.len(),
    ensures
        i + space_run(s, i) <= s.len(),
    decreases s.len() - i,
{
    if i < s.len() && is_white_space(s[i]) {
        lemma_space_run_bounds(s, i + 1);
    }
}

/// Reading more digits never makes a number smaller.
pub proof fn lemma_digits_value_grows(s: Seq<char>, i: int, j: int, k: int)
    requires
        i <= j <= k,
    ensures
        digits_value(s, i, j) <= digits_value(s, i, k),
    decreases k - j,
{
    if j < k {
        lemma_digits_value_grows(s, i, j, k - 1);
        if k - 1 >= i {
            assert(digits_value(s, i, k) == digits_value(s, i, k - 1) * 10 + digit_value(s[k - 1]));
        }
    }
}

/// The leftmost match lies in the text, at or after `q`, and matches.
pub proof fn lemma_first_match(s: Seq<char>, pattern: Pattern, q: int)
    requires
        first_match_from(s, pattern, q) is Some,
    ensures
        q <= first_match_from(s, pattern, q)->0 < s.len(),
        matches_at(s, pattern, first_match_from(s, pattern, q)->0),
    decreases s.len() - q,
{
    if !matches_at(s, pattern, q) {
        lemma_first_match(s, pattern, q + 1);
    }
}

/// A readable reroll list holds at least one number.
pub proof fn lemma_list_numbers_nonempty(s: Seq<char>, i: int, j: int)
    requires
        list_numbers(s, i, j) is Some,
    ensures
        list_numbers(s, i, j)->0.len() >= 1,
    decreases j - i,
{
    let d = digit_run(s, i);
    if i + d < j {
        lemma_list_numbers_nonempty(s, i + d + 1, j);
    }
}

// ---------------------------------------------------------------------------
// Order of the modifiers
// ---------------------------------------------------------------------------

/// The letters that open a modifier.
pub open spec fn is_stop(c: char) -> bool {
    c == 'r' || c == 'k' || c == 'm'
}

/// The letter that opens a modifier of kind `pattern`.
pub open spec fn pattern_letter(pattern: Pattern) -> char {
    match pattern {
        Pattern::Reroll => 'r',
        Pattern::Keep => 'k',
        Pattern::Clamp => 'm',
    }
}

/// `y` is empty or opens with a modifier letter: whatever precedes it ends there.
pub open spec fn closes_token(y: Seq<char>) -> bool {
    y.len() == 0 || is_stop(y[0])
}

/// A modifier written on its own, such as `r2<3`, `r1={4,5}`, `kh3` or `min2`: it
/// matches `pattern` from its first letter, and holds no other modifier letter.
pub open spec fn modifier_token(t: Seq<char>, pattern: Pattern) -> bool {
    &&& t.len() >= 1
    &&& t[0] == pattern_letter(pattern)
    &&& forall|i: int| 1 <= i < t.len() ==> !is_stop(#[trigger] t[i])
    &&& matches_at(t, pattern, 0)
}

/// A base roll such as `3d20`, with no modifier letter.
pub open spec fn base_token(b: Seq<char>) -> bool {
    &&& base_match(b)
    &&& forall|i: int| 0 <= i < b.len() ==> !is_stop(#[trigger] b[i])
}

proof fn lemma_ctx_digit_run(x: Seq<char>, w: Seq<char>, y: Seq<char>, j: int)
    requires
        0 <= j <= w.len(),
        closes_token(y),
    ensures
        digit_run(x + w + y, x.len() + j) == digit_run(w, j),
    decreases w.len() - j,
{
    let s = x + w + y;
    if j < w.len() {
        assert(s[x.len() + j] == w[j]);
        lemma_ctx_digit_run(x, w, y, j + 1);
    } else if y.len() > 0 {
        assert(s[x.len() + j] == y[0]);
    }
}

proof fn lemma_ctx_list_run(x: Seq<char>, w: Seq<char>, y: Seq<char>, j: int)
    requires
        0 <= j <= w.len(),
        closes_token(y),
    ensures
        list_run(x + w + y, x.len() + j) == list_run(w, j),
    decreases w.len() - j,
{
    let s = x + w + y;
    if j < w.len() {
        assert(s[x.len() + j] == w[j]);
        lemma_ctx_list_run(x, w, y, j + 1);
    } else if y.len() > 0 {
        assert(s[x.len() + j] == y[0]);
    }
}

proof fn lemma_ctx_space_run(x: Seq<char>, w: Seq<char>, y: Seq<char>, j: int)
    requires
        0 <= j <= w.len(),
        closes_token(y),
    ensures
        space_run(x + w + y, x.len() + j) == space_run(w, j),
    decreases w.len() - j,
{
    let s = x + w + y;
    if j < w.len() {
        assert(s[x.len() + j] == w[j]);
        lemma_ctx_space_run(x, w, y, j + 1);
    } else if y.len() > 0 {
        assert(s[x.len() + j] == y[0]);
    }
}

proof fn lemma_ctx_digits_value(x: Seq<char>, w: Seq<char>, y: Seq<char>, i: int, j: int)
    requires
        0 <= i,
        j <= w.len(),
    ensures
        digits_value(x + w + y, x.len() + i, x.len() + j) == digits_value(w, i, j),
    decreases j - i,
{
    if j > i {
        lemma_ctx_digits_value(x, w, y, i, j - 1);
        assert((x + w + y)[x.len() + j - 1] == w[j - 1]);
    }
}

proof fn lemma_ctx_number_at(x: Seq<char>, w: Seq<char>, y: Seq<char>, i: int)
    requires
        0 <= i <= w.len(),
        closes_token(y),
    ensures
        number_at(x + w + y, x.len() + i) == number_at(w, i),
{
    lemma_ctx_digit_run(x, w, y, i);
    lemma_digit_run_bounds(w, i);
    lemma_ctx_digits_value(x, w, y, i, i + digit_run(w, i));
}

proof fn lemma_ctx_list_numbers(x: Seq<char>, w: Seq<char>, y: Seq<char>, i: int, j: int)
    requires
        0 <= i <= w.len(),
        j <= w.len(),
        closes_token(y),
    ensures
        list_numbers(x + w + y, x.len() + i, x.len() + j) == list_numbers(w, i, j),
    decreases j - i,
{
    let d = digit_run(w, i);
    lemma_ctx_digit_run(x, w, y, i);
    lemma_ctx_number_at(x, w, y, i);
    if d > 0 && number_at(w, i) is Some && i + d < j {
        lemma_ctx_list_numbers(x, w, y, i + d + 1, j);
        assert(x.len() + i + d + 1 == x.len() + (i + d + 1));
    }
}

proof fn lemma_ctx_braced(x: Seq<char>, w: Seq<char>, y: Seq<char>, q: int)
    requires
        0 <= q < w.len(),
        closes_token(y),
    ensures
        braced_list_at(x + w + y, x.len() + q) == braced_list_at(w, q),
{
    let s = x + w + y;
    let o = x.len() as int;
    lemma_ctx_list_run(x, w, y, q + 1);
    lemma_list_run_bounds(w, q + 1);
    let r = list_run(w, q + 1) as int;
    assert(s[o + q] == w[q]);
    if q + 1 < w.len() {
        assert(s[o + q + 1] == w[q + 1]);
        if q + 1 + r < w.len() {
            assert(s[o + q + 1 + r] == w[q + 1 + r]);
        } else if y.len() > 0 {
            assert(s[o + q + 1 + r] == y[0]);
        }
        if braced_list_at(w, q) {
            assert forall|k2: int| o + q + 1 <= k2 < o + q + r implies !#[trigger] double_comma_at(s, k2) by {
                assert(s[k2] == w[k2 - o]);
                assert(s[k2 + 1] == w[k2 - o + 1]);
                assert(!double_comma_at(w, k2 - o));
            }
        }
        if braced_list_at(s, o + q) {
            assert forall|k: int| q + 1 <= k < q + r implies !#[trigger] double_comma_at(w, k) by {
                assert(s[o + k] == w[k]);
                assert(s[o + k + 1] == w[k + 1]);
                assert(!double_comma_at(s, o + k));
            }
        }
    } else if y.len() > 0 {
        assert(s[o + q + 1] == y[0]);
    }
}

proof fn lemma_ctx_reroll_at(x: Seq<char>, w: Seq<char>, y: Seq<char>, p: int)
    requires
        0 <= p < w.len(),
        closes_token(y),
    ensures
        reroll_at(x + w + y, x.len() + p) == reroll_at(w, p),
        reroll_op_pos(x + w + y, x.len() + p) == x.len() + reroll_op_pos(w, p),
{
    let s = x + w + y;
    let o = x.len() as int;
    lemma_ctx_digit_run(x, w, y, p + 1);
    lemma_digit_run_bounds(w, p + 1);
    let e = reroll_op_pos(w, p);
    assert(s[o + p] == w[p]);
    if e < w.len() {
        assert(s[o + e] == w[e]);
        lemma_ctx_digit_run(x, w, y, e + 1);
        if e + 1 < w.len() {
            lemma_ctx_braced(x, w, y, e + 1);
        } else if y.len() > 0 {
            assert(s[o + e + 1] == y[0]);
        }
    } else if y.len() > 0 {
        assert(s[o + e] == y[0]);
    }
}

proof fn lemma_ctx_keep_at(x: Seq<char>, w: Seq<char>, y: Seq<char>, p: int)
    requires
        0 <= p < w.len(),
        closes_token(y),
    ensures
        keep_at(x + w + y, x.len() + p) == keep_at(w, p),
{
    let s = x + w + y;
    let o = x.len() as int;
    assert(s[o + p] == w[p]);
    if p + 1 < w.len() {
        assert(s[o + p + 1] == w[p + 1]);
        lemma_ctx_digit_run(x, w, y, p + 2);
    } else if y.len() > 0 {
        assert(s[o + p + 1] == y[0]);
    }
}

proof fn lemma_ctx_clamp_at(x: Seq<char>, w: Seq<char>, y: Seq<char>, p: int)
    requires
        0 <= p < w.len(),
        closes_token(y),
    ensures
        clamp_at(x + w + y, x.len() + p) == clamp_at(w, p),
{
    let s = x + w + y;
    let o = x.len() as int;
    assert(s[o + p] == w[p]);
    if p + 1 < w.len() {
        assert(s[o + p + 1] == w[p + 1]);
        if p + 2 < w.len() {
            assert(s[o + p + 2] == w[p + 2]);
            lemma_ctx_digit_run(x, w, y, p + 3);
        } else if y.len() > 0 {
            assert(s[o + p + 2] == y[0]);
        }
    } else if y.len() > 0 {
        assert(s[o + p + 1] == y[0]);
    }
}

proof fn lemma_ctx_reroll_value(x: Seq<char>, w: Seq<char>, y: Seq<char>, p: int)
    requires
        0 <= p < w.len(),
        reroll_at(w, p),
        closes_token(y),
    ensures
        reroll_value(x + w + y, x.len() + p) == reroll_value(w, p),
{
    let s = x + w + y;
    let o = x.len() as int;
    lemma_ctx_reroll_at(x, w, y, p);
    let e = reroll_op_pos(w, p);
    lemma_ctx_number_at(x, w, y, p + 1);
    assert(s[o + e] == w[e]);
    lemma_ctx_digit_run(x, w, y, e + 1);
    lemma_ctx_number_at(x, w, y, e + 1);
    if digit_run(w, e + 1) == 0 {
        lemma_ctx_list_run(x, w, y, e + 2);
        lemma_list_run_bounds(w, e + 2);
        lemma_ctx_list_numbers(x, w, y, e + 2, e + 2 + list_run(w, e + 2));
    }
}

proof fn lemma_ctx_keep_value(x: Seq<char>, w: Seq<char>, y: Seq<char>, p: int)
    requires
        0 <= p < w.len(),
        keep_at(w, p),
        closes_token(y),
    ensures
        keep_value(x + w + y, x.len() + p) == keep_value(w, p),
{
    assert((x + w + y)[x.len() + p + 1] == w[p + 1]);
    lemma_ctx_number_at(x, w, y, p + 2);
}

proof fn lemma_ctx_clamp_value(x: Seq<char>, w: Seq<char>, y: Seq<char>, p: int)
    requires
        0 <= p < w.len(),
        clamp_at(w, p),
        closes_token(y),
    ensures
        clamp_value(x + w + y, x.len() + p) == clamp_value(w, p),
{
    assert((x + w + y)[x.len() + p + 1] == w[p + 1]);
    lemma_ctx_number_at(x, w, y, p + 3);
}

/// The search for `pattern` passes over positions that do not hold its letter.
proof fn lemma_skip_other_letters(s: Seq<char>, pattern: Pattern, p: int, q: int)
    requires
        0 <= p <= q <= s.len(),
        forall|i: int| p <= i < q ==> #[trigger] s[i] != pattern_letter(pattern),
    ensures
        first_match_from(s, pattern, p) == first_match_from(s, pattern, q),
    decreases q - p,
{
    if p < q {
        assert(s[p] != pattern_letter(pattern));
        assert(!matches_at(s, pattern, p));
        lemma_skip_other_letters(s, pattern, p + 1, q);
    }
}

/// Without its letter in the text, a modifier is absent.
proof fn lemma_no_letter_no_match(s: Seq<char>, pattern: Pattern)
    requires
        forall|i: int| 0 <= i < s.len() ==> #[trigger] s[i] != pattern_letter(pattern),
    ensures
        first_match_from(s, pattern, 0) is None,
{
    lemma_skip_other_letters(s, pattern, 0, s.len() as int);
}

/// A modifier written after text without its letter is found where it is written.
proof fn lemma_ctx_first_match(x: Seq<char>, t: Seq<char>, y: Seq<char>, pattern: Pattern)
    requires
        forall|i: int| 0 <= i < x.len() ==> #[trigger] x[i] != pattern_letter(pattern),
        modifier_token(t, pattern),
        closes_token(y),
    ensures
        first_match_from(x + t + y, pattern, 0) == Some(x.len() as int),
        first_match_from(t, pattern, 0) == Some(0int),
{
    let s = x + t + y;
    assert forall|i: int| 0 <= i < x.len() implies #[trigger] s[i] != pattern_letter(pattern) by {
        assert(s[i] == x[i]);
    }
    lemma_skip_other_letters(s, pattern, 0, x.len() as int);
    match pattern {
        Pattern::Reroll => lemma_ctx_reroll_at(x, t, y, 0),
        Pattern::Keep => lemma_ctx_keep_at(x, t, y, 0),
        Pattern::Clamp => lemma_ctx_clamp_at(x, t, y, 0),
    }
}

/// Each field of a text read where a modifier is written is that of the modifier alone.
proof fn lemma_ctx_fields(x: Seq<char>, t: Seq<char>, y: Seq<char>, pattern: Pattern)
    requires
        forall|i: int| 0 <= i < x.len() ==> #[trigger] x[i] != pattern_letter(pattern),
        modifier_token(t, pattern),
        closes_token(y),
    ensures
        pattern == Pattern::Reroll ==> reroll_field(x + t + y) == reroll_field(t),
        pattern == Pattern::Keep ==> keep_field(x + t + y) == keep_field(t),
        pattern == Pattern::Clamp ==> clamp_field(x + t + y) == clamp_field(t),
{
    lemma_ctx_first_match(x, t, y, pattern);
    match pattern {
        Pattern::Reroll => lemma_ctx_reroll_value(x, t, y, 0),
        Pattern::Keep => lemma_ctx_keep_value(x, t, y, 0),
        Pattern::Clamp => lemma_ctx_clamp_value(x, t, y, 0),
    }
}

/// The field of kind `pattern` of the text `b + m1 + m2` is that of whichever of the two
/// modifiers has that kind, and absent when neither has it.
proof fn lemma_field_of_pair(b: Seq<char>, m1: Seq<char>, k1: Pattern, m2: Seq<char>, k2: Pattern, pattern: Pattern)
    requires
        base_token(b),
        modifier_token(m1, k1),
        modifier_token(m2, k2),
        k1 != k2,
    ensures
        pattern == k1 ==> {
            &&& (pattern == Pattern::Reroll ==> reroll_field(b + m1 + m2) == reroll_field(m1))
            &&& (pattern == Pattern::Keep ==> keep_field(b + m1 + m2) == keep_field(m1))
            &&& (pattern == Pattern::Clamp ==> clamp_field(b + m1 + m2) == clamp_field(m1))
        },
        pattern == k2 ==> {
            &&& (pattern == Pattern::Reroll ==> reroll_field(b + m1 + m2) == reroll_field(m2))
            &&& (pattern == Pattern::Keep ==> keep_field(b + m1 + m2) == keep_field(m2))
            &&& (pattern == Pattern::Clamp ==> clamp_field(b + m1 + m2) == clamp_field(m2))
        },
        pattern != k1 && pattern != k2 ==> {
            &&& (pattern == Pattern::Reroll ==> reroll_field(b + m1 + m2) == Some(None::<RerollView>))
            &&& (pattern == Pattern::Keep ==> keep_field(b + m1 + m2) == Some(None::<KeepingResultModifier>))
            &&& (pattern == Pattern::Clamp ==> clamp_field(b + m1 + m2) == Some(None::<ClampingModifier>))
        },
{
    let l = pattern_letter(pattern);
    let s = b + m1 + m2;
    assert(is_stop(m1[0]) && is_stop(m2[0]));
    if pattern == k1 {
        assert forall|i: int| 0 <= i < b.len() implies #[trigger] b[i] != l by {
            assert(!is_stop(b[i]));
        }
        lemma_ctx_fields(b, m1, m2, pattern);
    } else if pattern == k2 {
        let x = b + m1;
        assert forall|i: int| 0 <= i < x.len() implies #[trigger] x[i] != l by {
            if i < b.len() {
                assert(x[i] == b[i]);
                assert(!is_stop(b[i]));
            } else {
                assert(x[i] == m1[i - b.len()]);
                if i > b.len() {
                    assert(!is_stop(m1[i - b.len()]));
                }
            }
        }
        lemma_ctx_fields(x, m2, Seq::<char>::empty(), pattern);
        assert(x + m2 + Seq::<char>::empty() =~= s);
    } else {
        assert forall|i: int| 0 <= i < s.len() implies #[trigger] s[i] != l by {
            if i < b.len() {
                assert(s[i] == b[i]);
                assert(!is_stop(b[i]));
            } else if i < b.len() + m1.len() {
                assert(s[i] == m1[i - b.len()]);
                if i > b.len() {
                    assert(!is_stop(m1[i - b.len()]));
                }
            } else {
                assert(s[i] == m2[i - b.len() - m1.len()]);
                if i > b.len() + m1.len() {
                    assert(!is_stop(m2[i - b.len() - m1.len()]));
                }
            }
        }
        lemma_no_letter_no_match(s, pattern);
    }
}

/// The base roll of `b + y` is read from `b` alone, when `y` opens with a modifier.
proof fn lemma_base_of(b: Seq<char>, y: Seq<char>)
    requires
        base_token(b),
        closes_token(y),
    ensures
        base_start(b + y) == base_start(b),
        base_match(b + y),
        digit_run(b + y, base_start(b)) == digit_run(b, base_start(b)),
        number_at(b + y, base_start(b)) == number_at(b, base_start(b)),
        number_at(b + y, base_start(b) + digit_run(b, base_start(b)) + 1) == number_at(
            b,
            base_start(b) + digit_run(b, base_start(b)) + 1,
        ),
{
    let x = Seq::<char>::empty();
    assert(x + b + y =~= b + y);
    lemma_ctx_space_run(x, b, y, 0);
    lemma_space_run_bounds(b, 0);
    let i = base_start(b);
    lemma_ctx_digit_run(x, b, y, i);
    lemma_digit_run_bounds(b, i);
    let e = i + digit_run(b, i);
    assert((b + y)[e] == b[e]);
    lemma_ctx_digit_run(x, b, y, e + 1);
    lemma_ctx_number_at(x, b, y, i);
    lemma_ctx_number_at(x, b, y, e + 1);
}

/// The order in which two modifiers of different kinds are written after the base roll
/// does not change what the notation denotes, and the text opens with a roll.
pub proof fn lemma_modifier_order(b: Seq<char>, m1: Seq<char>, k1: Pattern, m2: Seq<char>, k2: Pattern)
    requires
        base_token(b),
        modifier_token(m1, k1),
        modifier_token(m2, k2),
        k1 != k2,
    ensures
        spec_notation(b + m1 + m2) == spec_notation(b + m2 + m1),
        !(spec_notation(b + m1 + m2) is NoRoll),
{
    let s = b + m1 + m2;
    let t = b + m2 + m1;
    assert(is_stop(m1[0]) && is_stop(m2[0]));
    assert(b + (m1 + m2) =~= s);
    assert(b + (m2 + m1) =~= t);
    lemma_base_of(b, m1 + m2);
    lemma_base_of(b, m2 + m1);
    lemma_field_of_pair(b, m1, k1, m2, k2, Pattern::Reroll);
    lemma_field_of_pair(b, m2, k2, m1, k1, Pattern::Reroll);
    lemma_field_of_pair(b, m1, k1, m2, k2, Pattern::Keep);
    lemma_field_of_pair(b, m2, k2, m1, k1, Pattern::Keep);
    lemma_field_of_pair(b, m1, k1, m2, k2, Pattern::Clamp);
    lemma_field_of_pair(b, m2, k2, m1, k1, Pattern::Clamp);
}

// ---------------------------------------------------------------------------
// Scanning
// ---------------------------------------------------------------------------

fn chars_of(s: &str) -> (cs: Vec<char>)
    ensures
        cs@ == s@,
{
    let mut cs: Vec<char> = Vec::new();
    for c in it: s.chars()
        invariant
            cs@ == it.seq().take(it.index()),
    {
        cs.push(c);
    }
    cs
}

fn is_digit_char(c: char) -> (b: bool)
    ensures
        b == is_digit(c),
{
    '0' <= c && c <= '9'
}

fn is_white_space_char(c: char) -> (b: bool)
    ensures
        b == is_white_space(c),
{
    ('\u{9}' <= c && c <= '\u{d}') || c == ' ' || c == '\u{85}' || c == '\u{a0}' || c == '\u{1680}'
        || ('\u{2000}' <= c && c <= '\u{200a}') || c == '\u{2028}' || c == '\u{2029}'
        || c == '\u{202f}' || c == '\u{205f}' || c == '\u{3000}'
}

fn digit_run_of(cs: &Vec<char>, i: usize) -> (r: usize)
    requires
        i <= cs.len(),
    ensures
        r == digit_run(cs@, i as int),
        i + r <= cs.len(),
{
    let mut j = i;
    while j < cs.len() && is_digit_char(cs[j])
        invariant
            i <= j <= cs.len(),
            digit_run(cs@, i as int) == (j - i) + digit_run(cs@, j as int),
        decreases cs.len() - j,
    {
        j = j + 1;
    }
    j - i
}

fn space_run_of(cs: &Vec<char>, i: usize) -> (r: usize)
    requires
        i <= cs.len(),
    ensures
        r == space_run(cs@, i as int),
        i + r <= cs.len(),
{
    let mut j = i;
    while j < cs.len() && is_white_space_char(cs[j])
        invariant
            i <= j <= cs.len(),
            space_run(cs@, i as int) == (j - i) + space_run(cs@, j as int),
        decreases cs.len() - j,
    {
        j = j + 1;
    }
    j - i
}

fn list_run_of(cs: &Vec<char>, i: usize) -> (r: usize)
    requires
        i <= cs.len(),
    ensures
        r == list_run(cs@, i as int),
        i + r <= cs.len(),
{
    let mut j = i;
    while j < cs.len() && (is_digit_char(cs[j]) || cs[j] == ',')
        invariant
            i <= j <= cs.len(),
            list_run(cs@, i as int) == (j - i) + list_run(cs@, j as int),
        decreases cs.len() - j,
    {
        j = j + 1;
    }
    j - i
}

/// The `u32` written by the digits starting at `i`.
fn read_number(cs: &Vec<char>, i: usize) -> (r: Option<u32>)
    requires
        i <= cs.len(),
    ensures
        r == number_at(cs@, i as int),
{
    let d = digit_run_of(cs, i);
    proof {
        lemma_digit_run_bounds(cs@, i as int);
    }
    let mut v: u64 = 0;
    let mut j = i;
    while j < i + d
        invariant
            i <= j <= i + d,
            i + d <= cs.len(),
            d == digit_run(cs@, i as int),
            forall|k: int| i <= k < i + d ==> is_digit(#[trigger] cs@[k]),
            v as nat == digits_value(cs@, i as int, j as int),
            v <= u32::MAX,
        decreases i + d - j,
    {
        let c = cs[j];
        assert(is_digit(cs@[j as int]));
        let digit: u64 = (c as u32 - '0' as u32) as u64;
        let next: u64 = v * 10 + digit;
        assert(next as nat == digits_value(cs@, i as int, (j + 1) as int));
        if next > 0xffff_ffff_u64 {
            proof {
                lemma_digits_value_grows(cs@, i as int, (j + 1) as int, (i + d) as int);
            }
            return None;
        }
        v = next;
        j = j + 1;
    }
    Some(v as u32)
}

fn braced_list_at_exec(cs: &Vec<char>, q: usize) -> (b: bool)
    requires
        q <= cs.len(),
    ensures
        b == braced_list_at(cs@, q as int),
{
    if cs.len() - q < 2 || cs[q] != '{' || !is_digit_char(cs[q + 1]) {
        return false;
    }
    let r = list_run_of(cs, q + 1);
    let mut k = q + 1;
    while k < q + r
        invariant
            q + 1 <= k,
            q + 1 + r <= cs.len(),
            r == list_run(cs@, q + 1),
            forall|m: int| q + 1 <= m < k ==> !#[trigger] double_comma_at(cs@, m),
        decreases q + r - k,
    {
        if cs[k] == ',' && cs[k + 1] == ',' {
            assert(double_comma_at(cs@, k as int));
            return false;
        }
        k = k + 1;
    }
    q + 1 + r < cs.len() && cs[q + 1 + r] == '}'
}

fn is_reroll_op_char(c: char) -> (b: bool)
    ensures
        b == is_reroll_op(c),
{
    c == '<' || c == '>' || c == '='
}

fn reroll_at_exec(cs: &Vec<char>, p: usize) -> (b: bool)
    requires
        p <= cs.len(),
    ensures
        b == reroll_at(cs@, p as int),
{
    if p >= cs.len() || cs[p] != 'r' {
        return false;
    }
    let a = digit_run_of(cs, p + 1);
    if a == 0 {
        return false;
    }
    let e = p + 1 + a;
    if e >= cs.len() || !is_reroll_op_char(cs[e]) {
        return false;
    }
    digit_run_of(cs, e + 1) > 0 || braced_list_at_exec(cs, e + 1)
}

fn keep_at_exec(cs: &Vec<char>, p: usize) -> (b: bool)
    requires
        p <= cs.len(),
    ensures
        b == keep_at(cs@, p as int),
{
    if cs.len() - p < 2 || cs[p] != 'k' || !(cs[p + 1] == 'h' || cs[p + 1] == 'l') {
        return false;
    }
    digit_run_of(cs, p + 2) > 0
}

fn clamp_at_exec(cs: &Vec<char>, p: usize) -> (b: bool)
    requires
        p <= cs.len(),
    ensures
        b == clamp_at(cs@, p as int),
{
    if cs.len() - p < 3 || cs[p] != 'm' {
        return false;
    }
    if !((cs[p + 1] == 'i' && cs[p + 2] == 'n') || (cs[p + 1] == 'a' && cs[p + 2] == 'x')) {
        return false;
    }
    digit_run_of(cs, p + 3) > 0
}

fn matches_at_exec(cs: &Vec<char>, pattern: &Pattern, p: usize) -> (b: bool)
    requires
        p <= cs.len(),
    ensures
        b == matches_at(cs@, *pattern, p as int),
{
    match pattern {
        Pattern::Reroll => reroll_at_exec(cs, p),
        Pattern::Keep => keep_at_exec(cs, p),
        Pattern::Clamp => clamp_at_exec(cs, p),
    }
}

/// Leftmost position where `pattern` matches.
fn first_match(cs: &Vec<char>, pattern: &Pattern) -> (r: Option<usize>)
    ensures
        match r {
            Some(p) => first_match_from(cs@, *pattern, 0) == Some(p as int),
            None => first_match_from(cs@, *pattern, 0) is None,
        },
{
    let mut p: usize = 0;
    while p < cs.len()
        invariant
            p <= cs.len(),
            first_match_from(cs@, *pattern, 0) == first_match_from(cs@, *pattern, p as int),
        decreases cs.len() - p,
    {
        if matches_at_exec(cs, pattern, p) {
            return Some(p);
        }
        p = p + 1;
    }
    None
}

/// The numbers of the comma-separated list `cs[i..j]`.
fn read_list(cs: &Vec<char>, i: usize, j: usize) -> (r: Option<Vec<u32>>)
    requires
        i <= j <= cs.len(),
    ensures
        match r {
            Some(v) => list_numbers(cs@, i as int, j as int) == Some(v@),
            None => list_numbers(cs@, i as int, j as int) is None,
        },
{
    let mut out: Vec<u32> = Vec::new();
    let mut k = i;
    assert(Seq::<u32>::empty() + list_numbers(cs@, i as int, j as int)->0
        =~= list_numbers(cs@, i as int, j as int)->0);
    loop
        invariant
            i <= k <= j,
            j <= cs.len(),
            list_numbers(cs@, i as int, j as int) == (match list_numbers(cs@, k as int, j as int) {
                Some(rest) => Some(out@ + rest),
                None => None::<Seq<u32>>,
            }),
        decreases j - k,
    {
        let d = digit_run_of(cs, k);
        if d == 0 {
            return None;
        }
        let v = match read_number(cs, k) {
            Some(v) => v,
            None => return None,
        };
        let ghost before = out@;
        out.push(v);
        if k + d >= j {
            assert(before + seq![v] =~= out@);
            return Some(out);
        }
        proof {
            match list_numbers(cs@, (k + d + 1) as int, j as int) {
                Some(rest) => {
                    assert(before + (seq![v] + rest) =~= out@ + rest);
                },
                None => {},
            }
        }
        k = k + d + 1;
    }
}

fn max_of(ns: &Vec<u32>) -> (m: u32)
    requires
        ns.len() >= 1,
    ensures
        m == seq_max(ns@),
        forall|i: int| 0 <= i < ns.len() ==> #[trigger] ns@[i] <= m,
        ns@.contains(m),
{
    proof {
        lemma_seq_max_is_largest(ns@);
    }
    let mut m = ns[0];
    let mut k: usize = 1;
    assert(ns@.take(1).len() == 1);
    while k < ns.len()
        invariant
            1 <= k <= ns.len(),
            m == seq_max(ns@.take(k as int)),
        decreases ns.len() - k,
    {
        assert(ns@.take((k + 1) as int).drop_last() =~= ns@.take(k as int));
        if ns[k] > m {
            m = ns[k];
        }
        k = k + 1;
    }
    assert(ns@.take(ns.len() as int) =~= ns@);
    m
}

fn min_of(ns: &Vec<u32>) -> (m: u32)
    requires
        ns.len() >= 1,
    ensures
        m == seq_min(ns@),
        forall|i: int| 0 <= i < ns.len() ==> m <= #[trigger] ns@[i],
        ns@.contains(m),
{
    proof {
        lemma_seq_min_is_smallest(ns@);
    }
    let mut m = ns[0];
    let mut k: usize = 1;
    assert(ns@.take(1).len() == 1);
    while k < ns.len()
        invariant
            1 <= k <= ns.len(),
            m == seq_min(ns@.take(k as int)),
        decreases ns.len() - k,
    {
        assert(ns@.take((k + 1) as int).drop_last() =~= ns@.take(k as int));
        if ns[k] < m {
            m = ns[k];
        }
        k = k + 1;
    }
    assert(ns@.take(ns.len() as int) =~= ns@);
    m
}

fn reroll_numbers_exec(cs: &Vec<char>, q: usize) -> (r: Option<Vec<u32>>)
    requires
        q <= cs.len(),
    ensures
        match r {
            Some(v) => reroll_numbers(cs@, q as int) == Some(v@),
            None => reroll_numbers(cs@, q as int) is None,
        },
{
    if digit_run_of(cs, q) > 0 {
        match read_number(cs, q) {
            Some(n) => {
                let mut v: Vec<u32> = Vec::new();
                v.push(n);
                assert(v@ =~= seq![n]);
                Some(v)
            },
            None => None,
        }
    } else if q < cs.len() {
        let r = list_run_of(cs, q + 1);
        read_list(cs, q + 1, q + 1 + r)
    } else {
        proof {
            assert(list_run(cs@, q + 1) == 0);
            assert(digit_run(cs@, q + 1) == 0);
        }
        None
    }
}

fn reroll_value_exec(cs: &Vec<char>, p: usize) -> (r: Option<RerollModifier>)
    requires
        reroll_at(cs@, p as int),
        p < cs.len(),
    ensures
        match r {
            Some(m) => reroll_value(cs@, p as int) == Some(m@),
            None => reroll_value(cs@, p as int) is None,
        },
{
    let a = digit_run_of(cs, p + 1);
    let e = p + 1 + a;
    let numbers = reroll_numbers_exec(cs, e + 1);
    let dice_to_reroll = read_number(cs, p + 1);
    match (dice_to_reroll, numbers) {
        (Some(dice_to_reroll), Some(numbers)) => {
            proof {
                if digit_run(cs@, e + 1) == 0 {
                    lemma_list_numbers_nonempty(cs@, e + 2, e + 2 + list_run(cs@, e + 2));
                }
            }
            if cs[e] == '<' {
                Some(RerollModifier::RerollIfLower { dice_to_reroll, number: max_of(&numbers) })
            } else if cs[e] == '>' {
                Some(RerollModifier::RerollIfGreater { dice_to_reroll, number: min_of(&numbers) })
            } else {
                Some(RerollModifier::RerollIfEqual { dice_to_reroll, numbers })
            }
        },
        _ => None,
    }
}

fn keep_value_exec(cs: &Vec<char>, p: usize) -> (r: Option<KeepingResultModifier>)
    requires
        keep_at(cs@, p as int),
        p < cs.len(),
    ensures
        r == keep_value(cs@, p as int),
{
    match read_number(cs, p + 2) {
        Some(n) => Some(
            if cs[p + 1] == 'h' {
                KeepingResultModifier::KeepHighest { number_of_dice: n }
            } else {
                KeepingResultModifier::KeepLowest { number_of_dice: n }
            },
        ),
        None => None,
    }
}

fn clamp_value_exec(cs: &Vec<char>, p: usize) -> (r: Option<ClampingModifier>)
    requires
        clamp_at(cs@, p as int),
        p < cs.len(),
    ensures
        r == clamp_value(cs@, p as int),
{
    match read_number(cs, p + 3) {
        Some(n) => Some(
            if cs[p + 1] == 'i' {
                ClampingModifier::Minimum { number: n }
            } else {
                ClampingModifier::Maximum { number: n }
            },
        ),
        None => None,
    }
}

/// A number in the text that the notation reads is not a `u32`, or a reroll list ends
/// with a comma.
#[derive(Debug, Clone, Copy, PartialEq, Eq, Structural)]
pub enum NotationError {
    UnreadableNumber,
}

impl DiceRoll {
    /// Reads a dice roll, telling apart text that does not open with a roll (`Ok(None)`)
    /// from text whose numbers cannot be read.
    pub fn try_parse(s: &str) -> (r: Result<Option<DiceRoll>, NotationError>)
        ensures
            match r {
                Ok(None) => spec_notation(s@) is NoRoll,
                Ok(Some(roll)) => spec_notation(s@) == Notation::Roll(roll@),
                Err(_) => spec_notation(s@) is Unreadable,
            },
    {
        let cs = chars_of(s);
        let i = space_run_of(&cs, 0);
        let a = digit_run_of(&cs, i);
        if a == 0 {
            return Ok(None);
        }
        let e = i + a;
        if e >= cs.len() || cs[e] != 'd' {
            return Ok(None);
        }
        if digit_run_of(&cs, e + 1) == 0 {
            return Ok(None);
        }
        let number_of_dice = match read_number(&cs, i) {
            Some(n) => n,
            None => return Err(NotationError::UnreadableNumber),
        };
        let dice_size = match read_number(&cs, e + 1) {
            Some(n) => n,
            None => return Err(NotationError::UnreadableNumber),
        };
        let reroll_modifier = match first_match(&cs, &Pattern::Reroll) {
            None => None,
            Some(p) => {
                proof {
                    lemma_first_match(cs@, Pattern::Reroll, 0);
                }
                match reroll_value_exec(&cs, p) {
                    Some(m) => Some(m),
                    None => return Err(NotationError::UnreadableNumber),
                }
            },
        };
        let keeping_result_modifier = match first_match(&cs, &Pattern::Keep) {
            None => None,
            Some(p) => {
                proof {
                    lemma_first_match(cs@, Pattern::Keep, 0);
                }
                match keep_value_exec(&cs, p) {
                    Some(m) => Some(m),
                    None => return Err(NotationError::UnreadableNumber),
                }
            },
        };
        let clamping_modifier = match first_match(&cs, &Pattern::Clamp) {
            None => None,
            Some(p) => {
                proof {
                    lemma_first_match(cs@, Pattern::Clamp, 0);
                }
                match clamp_value_exec(&cs, p) {
                    Some(m) => Some(m),
                    None => return Err(NotationError::UnreadableNumber),
                }
            },
        };
        let roll = DiceRoll {
            number_of_dice,
            dice_size,
            reroll_modifier,
            clamping_modifier,
            keeping_result_modifier,
        };
        Ok(Some(roll))
    }

    /// Reads a dice roll such as `2d20r1<6kh1min3`; `None` when the text does not open
    /// with `NdS` (after optional white space).
    pub fn parse(s: &str) -> (r: Option<DiceRoll>)
        requires
            !(spec_notation(s@) is Unreadable),
        ensures
            match r {
                None => spec_notation(s@) is NoRoll,
                Some(roll) => spec_notation(s@) == Notation::Roll(roll@),
            },
    {
        match DiceRoll::try_parse(s) {
            Ok(r) => r,
            Err(_) => None,
        }
    }
}

} // verus!
