use vstd::prelude::*;

verus! {

/// Sum of `a[i] * b[i]` over the first `n` positions.
pub open spec fn dot(a: Seq<isize>, b: Seq<isize>, n: int) -> int
    decreases n,
{
    if n <= 0 {
        0
    } else {
        dot(a, b, n - 1) + a[n - 1] * b[n - 1]
    }
}

/// Number of positions that two vectors have in common.
pub open spec fn common_len(a: Seq<isize>, b: Seq<isize>) -> int {
    if a.len() < b.len() {
        a.len() as int
    } else {
        b.len() as int
    }
}

/// Every product and every partial sum of the dot product of `a` and `b` fits in an `isize`.
pub open spec fn dot_fits(a: Seq<isize>, b: Seq<isize>) -> bool {
    &&& forall|k: int|
        0 <= k < common_len(a, b) ==> isize::MIN <= #[trigger] (a[k] * b[k]) <= isize::MAX
    &&& forall|k: int| 0 <= k <= common_len(a, b) ==> isize::MIN <= #[trigger] dot(a, b, k) <= isize::MAX
}

/// The dot product of two vectors, over the positions they have in common.
pub fn dot_product(vector_a: &[isize], vector_b: &[isize]) -> (r: isize)
    requires
        dot_fits(vector_a@, vector_b@),
    ensures
        r == dot(vector_a@, vector_b@, common_len(vector_a@, vector_b@)),
{
    let n = if vector_a.len() < vector_b.len() {
        vector_a.len()
    } else {
        vector_b.len()
    };
    let mut sum: isize = 0;
    let mut i: usize = 0;
    while i < n
        invariant
            i <= n,
            n == common_len(vector_a@, vector_b@),
            dot_fits(vector_a@, vector_b@),
            sum == dot(vector_a@, vector_b@, i as int),
        decreases n - i,
    {
        assert(isize::MIN <= vector_a@[i as int] * vector_b@[i as int] <= isize::MAX);
        let product = vector_a[i] * vector_b[i];
        assert(isize::MIN <= dot(vector_a@, vector_b@, i + 1) <= isize::MAX);
        sum = sum + product;
        i = i + 1;
    }
    sum
}

/// The dot product does not depend on the order of its arguments.
pub proof fn lemma_dot_commutes(a: Seq<isize>, b: Seq<isize>, n: int)
    ensures
        dot(a, b, n) == dot(b, a, n),
    decreases n,
{
    if n > 0 {
        lemma_dot_commutes(a, b, n - 1);
        assert(a[n - 1] * b[n - 1] == b[n - 1] * a[n - 1]) by (nonlinear_arith);
    }
}

/// `dot_fits` does not depend on the order of its arguments.
pub proof fn lemma_dot_fits_commutes(a: Seq<isize>, b: Seq<isize>)
    requires
        dot_fits(a, b),
    ensures
        dot_fits(b, a),
{
    assert forall|k: int| 0 <= k < common_len(b, a) implies isize::MIN <= #[trigger] (b[k] * a[k])
        <= isize::MAX by {
        assert(isize::MIN <= a[k] * b[k] <= isize::MAX);
        assert(a[k] * b[k] == b[k] * a[k]) by (nonlinear_arith);
    }
    assert forall|k: int| 0 <= k <= common_len(b, a) implies isize::MIN <= #[trigger] dot(b, a, k)
        <= isize::MAX by {
        lemma_dot_commutes(a, b, k);
        assert(isize::MIN <= dot(a, b, k) <= isize::MAX);
    }
}

} // verus!
