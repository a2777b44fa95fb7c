use crate::utils::vectors::dot_product::{common_len, dot, dot_fits};
use vstd::prelude::*;

verus! {

/// Product of the first `n` entries of `dims`.
pub open spec fn prefix_product(dims: Seq<isize>, n: int) -> int
    decreases n,
{
    if n <= 0 {
        1
    } else {
        prefix_product(dims, n - 1) * dims[n - 1]
    }
}

/// The strides of a grid: entry `i` is the product of the dimensions before `i`.
pub open spec fn strides_of(dims: Seq<isize>) -> Seq<isize> {
    Seq::new(dims.len(), |i: int| prefix_product(dims, i) as isize)
}

/// Every prefix product of `dims`, the full product included, fits in an `isize`.
pub open spec fn products_fit(dims: Seq<isize>) -> bool {
    forall|k: int|
        0 <= k <= dims.len() ==> isize::MIN <= #[trigger] prefix_product(dims, k) <= isize::MAX
}

/// The strides of a grid with the given dimensions, the first dimension varying fastest.
pub fn compute_strides(dimensions: &[isize]) -> (r: Vec<isize>)
    requires
        products_fit(dimensions@),
    ensures
        r@ == strides_of(dimensions@),
        forall|i: int| 0 <= i < r@.len() ==> #[trigger] r@[i] == prefix_product(dimensions@, i),
{
    let mut result: Vec<isize> = Vec::new();
    let mut acc: isize = 1;
    let mut i: usize = 0;
    while i < dimensions.len()
        invariant
            i <= dimensions@.len(),
            products_fit(dimensions@),
            acc == prefix_product(dimensions@, i as int),
            result@ == strides_of(dimensions@).subrange(0, i as int),
        decreases dimensions.len() - i,
    {
        result.push(acc);
        assert(isize::MIN <= prefix_product(dimensions@, i + 1) <= isize::MAX);
        acc = acc * dimensions[i];
        i = i + 1;
    }
    assert(result@ =~= strides_of(dimensions@));
    result
}

/// All dimensions are at least 1, and `(number of axes + 1) * number of cells` fits in an
/// `isize`: linear indices of positions within one cell of the grid cannot overflow.
pub open spec fn grid_fits(dims: Seq<isize>) -> bool {
    &&& forall|i: int| 0 <= i < dims.len() ==> #[trigger] dims[i] >= 1
    &&& (dims.len() + 1) * prefix_product(dims, dims.len() as int) <= isize::MAX
}

pub proof fn lemma_prefix_product_monotonic(dims: Seq<isize>, j: int, k: int)
    requires
        0 <= j <= k <= dims.len(),
        forall|i: int| 0 <= i < dims.len() ==> #[trigger] dims[i] >= 1,
    ensures
        1 <= prefix_product(dims, j) <= prefix_product(dims, k),
    decreases k,
{
    if j < k {
        lemma_prefix_product_monotonic(dims, j, k - 1);
        let p = prefix_product(dims, k - 1);
        let d = dims[k - 1];
        assert(p <= p * d) by (nonlinear_arith)
            requires
                p >= 1,
                d >= 1,
        ;
    } else {
        lemma_prefix_product_positive(dims, k);
    }
}

pub proof fn lemma_prefix_product_positive(dims: Seq<isize>, k: int)
    requires
        0 <= k <= dims.len(),
        forall|i: int| 0 <= i < dims.len() ==> #[trigger] dims[i] >= 1,
    ensures
        1 <= prefix_product(dims, k),
    decreases k,
{
    if k > 0 {
        lemma_prefix_product_positive(dims, k - 1);
        let p = prefix_product(dims, k - 1);
        let d = dims[k - 1];
        assert(p * d >= 1) by (nonlinear_arith)
            requires
                p >= 1,
                d >= 1,
        ;
    }
}

pub proof fn lemma_grid_products_fit(dims: Seq<isize>)
    requires
        grid_fits(dims),
    ensures
        products_fit(dims),
        1 <= prefix_product(dims, dims.len() as int) <= isize::MAX,
{
    let n = dims.len() as int;
    lemma_prefix_product_monotonic(dims, 0, n);
    let p = prefix_product(dims, n);
    assert(p <= (n + 1) * p) by (nonlinear_arith)
        requires
            p >= 1,
            n >= 0,
    ;
    assert forall|k: int| 0 <= k <= dims.len() implies isize::MIN <= #[trigger] prefix_product(
        dims,
        k,
    ) <= isize::MAX by {
        lemma_prefix_product_monotonic(dims, k, n);
    }
}

/// `strides[i] * (p[i] + t * d[i])` summed over the first `m` axes.
pub open spec fn shifted_dot(
    strides: Seq<isize>,
    p: Seq<isize>,
    d: Seq<isize>,
    t: int,
    m: int,
) -> int
    decreases m,
{
    if m <= 0 {
        0
    } else {
        shifted_dot(strides, p, d, t, m - 1) + strides[m - 1] * (p[m - 1] + t * d[m - 1])
    }
}

pub proof fn lemma_shifted_dot_linear(strides: Seq<isize>, p: Seq<isize>, d: Seq<isize>, t: int, m: int)
    requires
        0 <= m,
    ensures
        shifted_dot(strides, p, d, t, m) == dot(strides, p, m) + t * dot(strides, d, m),
    decreases m,
{
    if m > 0 {
        lemma_shifted_dot_linear(strides, p, d, t, m - 1);
        let s = strides[m - 1];
        let a = p[m - 1];
        let b = d[m - 1];
        let x = dot(strides, d, m - 1);
        assert(s * (a + t * b) == s * a + t * (s * b)) by (nonlinear_arith);
        assert(t * x + t * (s * b) == t * (x + s * b)) by (nonlinear_arith);
    }
}

/// Within a grid that fits, the shifted dot product of a point at most one cell outside the
/// grid stays within `m * cells` in absolute value.
pub proof fn lemma_shifted_dot_bound(dims: Seq<isize>, p: Seq<isize>, d: Seq<isize>, t: int, m: int)
    requires
        grid_fits(dims),
        0 <= m <= dims.len(),
        p.len() >= m,
        d.len() >= m,
        forall|i: int| 0 <= i < m ==> -1 <= #[trigger] (p[i] + t * d[i]) <= dims[i],
    ensures
        -(m * prefix_product(dims, dims.len() as int)) <= shifted_dot(strides_of(dims), p, d, t, m)
            <= m * prefix_product(dims, dims.len() as int),
    decreases m,
{
    let n = dims.len() as int;
    lemma_grid_products_fit(dims);
    if m > 0 {
        lemma_shifted_dot_bound(dims, p, d, t, m - 1);
        lemma_prefix_product_monotonic(dims, m - 1, m);
        lemma_prefix_product_monotonic(dims, m, n);
        let s = strides_of(dims)[m - 1];
        assert(s == prefix_product(dims, m - 1));
        let x = p[m - 1] + t * d[m - 1];
        let dm = dims[m - 1];
        let total = prefix_product(dims, n);
        assert(prefix_product(dims, m) == s * dm);
        assert(-(s * dm) <= s * x <= s * dm) by (nonlinear_arith)
            requires
                s >= 1,
                -1 <= x <= dm,
                dm >= 1,
        ;
        assert((m - 1) * total + total == m * total) by (nonlinear_arith);
    }
}

/// Dot products of the strides of a grid that fits with a vector within the grid's
/// dimensions (in absolute value) cannot overflow.
pub proof fn lemma_dot_fits_in_grid(dims: Seq<isize>, v: Seq<isize>)
    requires
        grid_fits(dims),
        v.len() == dims.len(),
        forall|i: int| 0 <= i < v.len() ==> -dims[i] <= #[trigger] v[i] <= dims[i],
    ensures
        dot_fits(strides_of(dims), v),
{
    let n = dims.len() as int;
    let strides = strides_of(dims);
    let zero = Seq::new(v.len(), |i: int| 0isize);
    lemma_grid_products_fit(dims);
    let total = prefix_product(dims, n);
    assert(n * total <= isize::MAX) by (nonlinear_arith)
        requires
            (n + 1) * total <= isize::MAX,
            total >= 1,
    ;
    assert forall|k: int| 0 <= k <= common_len(strides, v) implies isize::MIN <= #[trigger] dot(
        strides,
        v,
        k,
    ) <= isize::MAX by {
        lemma_dot_abs_bound(dims, v, k);
        assert(k * total <= n * total) by (nonlinear_arith)
            requires
                0 <= k <= n,
                total >= 1,
        ;
    }
    assert forall|k: int| 0 <= k < common_len(strides, v) implies isize::MIN <= #[trigger] (
    strides[k] * v[k]) <= isize::MAX by {
        lemma_prefix_product_monotonic(dims, k, k + 1);
        lemma_prefix_product_monotonic(dims, k + 1, n);
        let s = strides[k];
        let x = v[k];
        let dk = dims[k];
        assert(prefix_product(dims, k + 1) == s * dk);
        assert(-(s * dk) <= s * x <= s * dk) by (nonlinear_arith)
            requires
                s >= 1,
                -dk <= x <= dk,
        ;
        assert(total <= (n + 1) * total) by (nonlinear_arith)
            requires
                total >= 1,
                n >= 0,
        ;
    }
}

proof fn lemma_dot_abs_bound(dims: Seq<isize>, v: Seq<isize>, k: int)
    requires
        grid_fits(dims),
        v.len() == dims.len(),
        0 <= k <= dims.len(),
        forall|i: int| 0 <= i < v.len() ==> -dims[i] <= #[trigger] v[i] <= dims[i],
    ensures
        -(k * prefix_product(dims, dims.len() as int)) <= dot(strides_of(dims), v, k) <= k
            * prefix_product(dims, dims.len() as int),
    decreases k,
{
    let n = dims.len() as int;
    lemma_grid_products_fit(dims);
    if k > 0 {
        lemma_dot_abs_bound(dims, v, k - 1);
        lemma_prefix_product_monotonic(dims, k - 1, k);
        lemma_prefix_product_monotonic(dims, k, n);
        let s = strides_of(dims)[k - 1];
        let x = v[k - 1];
        let dk = dims[k - 1];
        let total = prefix_product(dims, n);
        assert(prefix_product(dims, k) == s * dk);
        assert(-(s * dk) <= s * x <= s * dk) by (nonlinear_arith)
            requires
                s >= 1,
                -dk <= x <= dk,
        ;
        assert((k - 1) * total + total == k * total) by (nonlinear_arith);
    }
}

/// The linear index of a position within the grid is between 0 and the number of cells.
pub proof fn lemma_linear_index_in_grid(dims: Seq<isize>, v: Seq<isize>, k: int)
    requires
        0 <= k <= dims.len(),
        v.len() >= k,
        forall|i: int| 0 <= i < dims.len() ==> #[trigger] dims[i] >= 1,
        forall|i: int| 0 <= i < k ==> 0 <= #[trigger] v[i] <= dims[i] - 1,
        products_fit(dims),
    ensures
        0 <= dot(strides_of(dims), v, k) <= prefix_product(dims, k) - 1,
    decreases k,
{
    if k > 0 {
        lemma_linear_index_in_grid(dims, v, k - 1);
        lemma_prefix_product_positive(dims, k - 1);
        let s = strides_of(dims)[k - 1];
        assert(s == prefix_product(dims, k - 1));
        let x = v[k - 1];
        let d = dims[k - 1];
        let acc = dot(strides_of(dims), v, k - 1);
        assert(0 <= acc + s * x <= s * d - 1) by (nonlinear_arith)
            requires
                0 <= acc <= s - 1,
                s >= 1,
                0 <= x <= d - 1,
        ;
    }
}

/// Product of `dims[lo..hi]`.
pub open spec fn range_product(dims: Seq<isize>, lo: int, hi: int) -> int
    decreases hi - lo,
{
    if hi <= lo {
        1
    } else {
        range_product(dims, lo, hi - 1) * dims[hi - 1]
    }
}

/// A range product can be split off at its low end.
pub proof fn lemma_range_product_low(dims: Seq<isize>, lo: int, hi: int)
    requires
        lo < hi,
    ensures
        range_product(dims, lo, hi) == dims[lo] * range_product(dims, lo + 1, hi),
    decreases hi - lo,
{
    if hi - 1 > lo {
        lemma_range_product_low(dims, lo, hi - 1);
        let a = dims[lo];
        let b = range_product(dims, lo + 1, hi - 1);
        let c = dims[hi - 1];
        assert((a * b) * c == a * (b * c)) by (nonlinear_arith);
    } else {
        assert(range_product(dims, lo, hi) == range_product(dims, lo, lo) * dims[lo]);
        assert(range_product(dims, lo + 1, hi) == 1);
    }
}

/// The prefix product is the product of the first entries.
pub proof fn lemma_prefix_is_range(dims: Seq<isize>, k: int)
    requires
        0 <= k,
    ensures
        prefix_product(dims, k) == range_product(dims, 0, k),
    decreases k,
{
    if k > 0 {
        lemma_prefix_is_range(dims, k - 1);
    }
}

} // verus!
