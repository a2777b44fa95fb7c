use vstd::prelude::*;

verus! {

// Mixed-radix counting, least significant digit first. The enumerating iterators of the
// grid module step through their states like a counter; these definitions give each
// state its rank, which is what proves that the iterations end.

/// Product of the first `k` digit sizes.
pub open spec fn radix_weight(sizes: Seq<int>, k: int) -> int
    decreases k,
{
    if k <= 0 {
        1
    } else {
        radix_weight(sizes, k - 1) * sizes[k - 1]
    }
}

/// Value of the first `k` digits.
pub open spec fn radix_value(digits: Seq<int>, sizes: Seq<int>, k: int) -> int
    decreases k,
{
    if k <= 0 {
        0
    } else {
        radix_value(digits, sizes, k - 1) + digits[k - 1] * radix_weight(sizes, k - 1)
    }
}

/// The first digit at or after `i` that can still grow, or the number of digits.
pub open spec fn radix_carry(digits: Seq<int>, sizes: Seq<int>, i: int) -> int
    decreases digits.len() - i,
{
    if i >= digits.len() {
        digits.len() as int
    } else if digits[i] < sizes[i] - 1 {
        i
    } else {
        radix_carry(digits, sizes, i + 1)
    }
}

/// The digits are within their sizes, the lowest one possibly one below zero.
pub open spec fn radix_digits_fit(digits: Seq<int>, sizes: Seq<int>) -> bool {
    &&& digits.len() == sizes.len()
    &&& forall|i: int| 0 <= i < sizes.len() ==> #[trigger] sizes[i] >= 1
    &&& forall|i: int| 0 <= i < digits.len() ==> #[trigger] digits[i] <= sizes[i] - 1
    &&& forall|i: int| 0 < i < digits.len() ==> #[trigger] digits[i] >= 0
    &&& digits.len() > 0 ==> digits[0] >= -1
}

pub proof fn lemma_weight_positive(sizes: Seq<int>, k: int)
    requires
        k <= sizes.len(),
        forall|i: int| 0 <= i < sizes.len() ==> #[trigger] sizes[i] >= 1,
    ensures
        radix_weight(sizes, k) >= 1,
    decreases k,
{
    if k > 0 {
        lemma_weight_positive(sizes, k - 1);
        let w = radix_weight(sizes, k - 1);
        let s = sizes[k - 1];
        assert(w * s >= 1) by (nonlinear_arith)
            requires
                w >= 1,
                s >= 1,
        ;
    }
}

pub proof fn lemma_value_bounds(digits: Seq<int>, sizes: Seq<int>, k: int)
    requires
        0 <= k <= digits.len(),
        radix_digits_fit(digits, sizes),
    ensures
        -1 <= radix_value(digits, sizes, k) <= radix_weight(sizes, k) - 1,
    decreases k,
{
    if k > 0 {
        lemma_value_bounds(digits, sizes, k - 1);
        lemma_weight_positive(sizes, k - 1);
        let v = radix_value(digits, sizes, k - 1);
        let w = radix_weight(sizes, k - 1);
        let d = digits[k - 1];
        let s = sizes[k - 1];
        if k - 1 == 0 {
            assert(v == 0);
            assert(w == 1);
            assert(-1 <= v + d * w <= w * s - 1) by (nonlinear_arith)
                requires
                    v == 0,
                    w == 1,
                    -1 <= d <= s - 1,
            ;
        } else {
            assert(-1 <= v + d * w <= w * s - 1) by (nonlinear_arith)
                requires
                    -1 <= v <= w - 1,
                    w >= 1,
                    0 <= d <= s - 1,
            ;
        }
    }
}

proof fn lemma_value_of_maximal(digits: Seq<int>, sizes: Seq<int>, k: int)
    requires
        0 <= k <= digits.len(),
        digits.len() == sizes.len(),
        forall|i: int| 0 <= i < k ==> #[trigger] digits[i] == sizes[i] - 1,
    ensures
        radix_value(digits, sizes, k) == radix_weight(sizes, k) - 1,
    decreases k,
{
    if k > 0 {
        lemma_value_of_maximal(digits, sizes, k - 1);
        let w = radix_weight(sizes, k - 1);
        let s = sizes[k - 1];
        assert(w - 1 + (s - 1) * w == w * s - 1) by (nonlinear_arith);
    }
}

proof fn lemma_value_of_zero(digits: Seq<int>, sizes: Seq<int>, k: int)
    requires
        0 <= k <= digits.len(),
        forall|i: int| 0 <= i < k ==> #[trigger] digits[i] == 0,
    ensures
        radix_value(digits, sizes, k) == 0,
    decreases k,
{
    if k > 0 {
        lemma_value_of_zero(digits, sizes, k - 1);
    }
}

proof fn lemma_value_same_above(a: Seq<int>, b: Seq<int>, sizes: Seq<int>, j: int, k: int)
    requires
        0 <= j <= k <= a.len(),
        a.len() == b.len(),
        forall|i: int| j <= i < k ==> #[trigger] a[i] == b[i],
    ensures
        radix_value(a, sizes, k) - radix_value(b, sizes, k) == radix_value(a, sizes, j)
            - radix_value(b, sizes, j),
    decreases k,
{
    if k > j {
        lemma_value_same_above(a, b, sizes, j, k - 1);
    }
}

proof fn lemma_carry_bounds(digits: Seq<int>, sizes: Seq<int>, i: int)
    requires
        0 <= i <= digits.len(),
        radix_digits_fit(digits, sizes),
    ensures
        i <= radix_carry(digits, sizes, i) <= digits.len(),
        forall|m: int| i <= m < radix_carry(digits, sizes, i) ==> #[trigger] digits[m] == sizes[m] - 1,
        radix_carry(digits, sizes, i) < digits.len() ==> digits[radix_carry(digits, sizes, i)]
            < sizes[radix_carry(digits, sizes, i)] - 1,
    decreases digits.len() - i,
{
    if i < digits.len() && !(digits[i] < sizes[i] - 1) {
        lemma_carry_bounds(digits, sizes, i + 1);
    }
}

/// The digits that follow `digits`: the lowest digit that can grow grows, those below it
/// go back to zero.
pub open spec fn radix_next(digits: Seq<int>, sizes: Seq<int>) -> Seq<int> {
    let j = radix_carry(digits, sizes, 0);
    Seq::new(
        digits.len(),
        |k: int|
            if k < j {
                0
            } else if k == j {
                digits[k] + 1
            } else {
                digits[k]
            },
    )
}

/// Stepping a counter that can still grow adds one to its value and keeps its digits
/// within their sizes.
pub proof fn lemma_radix_next(digits: Seq<int>, sizes: Seq<int>)
    requires
        radix_digits_fit(digits, sizes),
        radix_carry(digits, sizes, 0) < digits.len(),
    ensures
        radix_value(radix_next(digits, sizes), sizes, digits.len() as int) == radix_value(
            digits,
            sizes,
            digits.len() as int,
        ) + 1,
        radix_digits_fit(radix_next(digits, sizes), sizes),
{
    let n = digits.len() as int;
    let j = radix_carry(digits, sizes, 0);
    let next = radix_next(digits, sizes);
    lemma_carry_bounds(digits, sizes, 0);
    lemma_value_of_maximal(digits, sizes, j);
    lemma_value_of_zero(next, sizes, j);
    let w = radix_weight(sizes, j);
    let d = digits[j];
    assert(radix_value(next, sizes, j + 1) == 0 + (d + 1) * w);
    assert(radix_value(digits, sizes, j + 1) == w - 1 + d * w);
    assert((d + 1) * w == d * w + w) by (nonlinear_arith);
    lemma_value_same_above(next, digits, sizes, j + 1, n);
}

/// The value of a counter whose digits fit is below the product of the sizes.
pub proof fn lemma_radix_value_bounds(digits: Seq<int>, sizes: Seq<int>)
    requires
        radix_digits_fit(digits, sizes),
    ensures
        -1 <= radix_value(digits, sizes, digits.len() as int) < radix_weight(
            sizes,
            digits.len() as int,
        ),
{
    lemma_value_bounds(digits, sizes, digits.len() as int);
}

/// A counter none of whose digits can grow has the largest value.
pub proof fn lemma_radix_full(digits: Seq<int>, sizes: Seq<int>)
    requires
        radix_digits_fit(digits, sizes),
        radix_carry(digits, sizes, 0) >= digits.len(),
    ensures
        radix_value(digits, sizes, digits.len() as int) == radix_weight(sizes, digits.len() as int)
            - 1,
{
    lemma_carry_bounds(digits, sizes, 0);
    lemma_value_of_maximal(digits, sizes, digits.len() as int);
}

} // verus!
