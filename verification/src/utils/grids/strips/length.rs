use vstd::prelude::*;

verus! {

/// Number of cells from `start` to the edge of an axis of size `dim` when moving along
/// `dir` (the start cell included).
pub open spec fn axis_length(dim: isize, dir: isize, start: isize) -> int {
    if dir < 0 {
        start + 1
    } else {
        dim - start
    }
}

/// The smallest `axis_length` over the first `n` axes along which `direction` moves,
/// or `None` when it moves along none of them.
pub open spec fn min_axis_length(
    dimensions: Seq<isize>,
    direction: Seq<isize>,
    start: Seq<isize>,
    n: int,
) -> Option<int>
    decreases n,
{
    if n <= 0 {
        None
    } else {
        let rest = min_axis_length(dimensions, direction, start, n - 1);
        if direction[n - 1] == 0 {
            rest
        } else {
            let here = axis_length(dimensions[n - 1], direction[n - 1], start[n - 1]);
            match rest {
                None => Some(here),
                Some(m) => Some(
                    if here < m {
                        here
                    } else {
                        m
                    },
                ),
            }
        }
    }
}

/// Number of axes that the three vectors have in common.
pub open spec fn common_axes(dimensions: Seq<isize>, direction: Seq<isize>, start: Seq<isize>) -> int {
    let a = if direction.len() < dimensions.len() {
        direction.len()
    } else {
        dimensions.len()
    };
    if a < start.len() {
        a as int
    } else {
        start.len() as int
    }
}

/// The length of a strip: `min_axis_length` over the axes common to the three vectors.
pub open spec fn strip_length(dimensions: Seq<isize>, direction: Seq<isize>, start: Seq<isize>) -> Option<int> {
    min_axis_length(dimensions, direction, start, common_axes(dimensions, direction, start))
}

/// Every `axis_length` over the common axes that move fits in an `isize`.
pub open spec fn axis_lengths_fit(dimensions: Seq<isize>, direction: Seq<isize>, start: Seq<isize>) -> bool {
    forall|k: int|
        0 <= k < common_axes(dimensions, direction, start) && direction[k] != 0 ==> isize::MIN
            <= #[trigger] axis_length(dimensions[k], direction[k], start[k]) <= isize::MAX
}

/// Number of cells of the strip that starts at `start` and moves along `direction` in a grid
/// with the given dimensions.
pub fn length(dimensions: &[isize], direction: &[isize], start: &[isize]) -> (r: isize)
    requires
        strip_length(dimensions@, direction@, start@) is Some,
        axis_lengths_fit(dimensions@, direction@, start@),
    ensures
        strip_length(dimensions@, direction@, start@) == Some(r as int),
{
    let n0 = if direction.len() < dimensions.len() {
        direction.len()
    } else {
        dimensions.len()
    };
    let n = if n0 < start.len() {
        n0
    } else {
        start.len()
    };
    let mut best: Option<isize> = None;
    let mut i: usize = 0;
    while i < n
        invariant
            i <= n,
            n == common_axes(dimensions@, direction@, start@),
            axis_lengths_fit(dimensions@, direction@, start@),
            match best {
                None => min_axis_length(dimensions@, direction@, start@, i as int) is None,
                Some(b) => min_axis_length(dimensions@, direction@, start@, i as int) == Some(
                    b as int,
                ),
            },
        decreases n - i,
    {
        if direction[i] != 0 {
            assert(isize::MIN <= axis_length(dimensions@[i as int], direction@[i as int], start@[i as int]) <= isize::MAX);
            let here = if direction[i] < 0 {
                start[i] + 1
            } else {
                dimensions[i] - start[i]
            };
            best = match best {
                None => Some(here),
                Some(m) => Some(
                    if here < m {
                        here
                    } else {
                        m
                    },
                ),
            };
        }
        i = i + 1;
    }
    match best {
        Some(b) => b,
        None => {
            proof {
                assert(false);
            }
            0
        },
    }
}

/// The strip length is the smallest axis length over the axes that move; it is `Some`
/// when some axis moves, and within the bounds of every moving axis length.
pub proof fn lemma_min_axis_length(
    dimensions: Seq<isize>,
    direction: Seq<isize>,
    start: Seq<isize>,
    n: int,
)
    requires
        0 <= n <= dimensions.len(),
        n <= direction.len(),
        n <= start.len(),
    ensures
        (exists|i: int| 0 <= i < n && #[trigger] direction[i] != 0) ==> min_axis_length(
            dimensions,
            direction,
            start,
            n,
        ) is Some,
        min_axis_length(dimensions, direction, start, n) matches Some(m) ==> (forall|i: int|
            0 <= i < n && #[trigger] direction[i] != 0 ==> m <= axis_length(
                dimensions[i],
                direction[i],
                start[i],
            )) && (exists|i: int|
            0 <= i < n && direction[i] != 0 && m == #[trigger] axis_length(
                dimensions[i],
                direction[i],
                start[i],
            )),
    decreases n,
{
    if n > 0 {
        lemma_min_axis_length(dimensions, direction, start, n - 1);
        if direction[n - 1] != 0 {
            let here = axis_length(dimensions[n - 1], direction[n - 1], start[n - 1]);
            assert(0 <= n - 1 < n && direction[n - 1] != 0 && here == axis_length(
                dimensions[n - 1],
                direction[n - 1],
                start[n - 1],
            ));
        }
    }
}

} // verus!
