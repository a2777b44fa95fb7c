use vstd::prelude::*;

verus! {

/// Coordinate `i` of `position` as it leaves axis `i`: reflected within that axis when
/// `destination[i]` holds, kept otherwise.
pub open spec fn moved_coordinate(
    dimensions: Seq<isize>,
    position: Seq<isize>,
    destination: Seq<bool>,
    i: int,
) -> isize {
    if destination[i] {
        (dimensions[i] - position[i] - 1) as isize
    } else {
        position[i]
    }
}

/// The first `count` coordinates of `position` placed on the axes they move to: coordinate
/// `i` goes to axis `permutation[i]`; an axis that none of them reaches holds 0.
pub open spec fn scattered(
    dimensions: Seq<isize>,
    position: Seq<isize>,
    destination: Seq<bool>,
    permutation: Seq<isize>,
    count: int,
) -> Seq<isize>
    decreases count,
{
    if count <= 0 {
        Seq::new(permutation.len(), |j: int| 0isize)
    } else {
        scattered(dimensions, position, destination, permutation, count - 1).update(
            permutation[count - 1] as int,
            moved_coordinate(dimensions, position, destination, count - 1),
        )
    }
}

/// The image of `position` under the symmetry given by `destination` and `permutation`:
/// coordinate `i` of `position`, reflected when `destination[i]` holds, becomes coordinate
/// `permutation[i]` of the image.
pub open spec fn converted_position(
    dimensions: Seq<isize>,
    position: Seq<isize>,
    destination: Seq<bool>,
    permutation: Seq<isize>,
) -> Seq<isize> {
    scattered(dimensions, position, destination, permutation, permutation.len() as int)
}

/// The arguments index each other within bounds and the reflected coordinates fit.
pub open spec fn conversion_fits(
    dimensions: Seq<isize>,
    position: Seq<isize>,
    destination: Seq<bool>,
    permutation: Seq<isize>,
) -> bool {
    &&& destination.len() >= permutation.len()
    &&& dimensions.len() >= permutation.len()
    &&& position.len() >= permutation.len()
    &&& forall|i: int|
        0 <= i < permutation.len() ==> 0 <= #[trigger] permutation[i] < permutation.len()
    &&& forall|i: int|
        0 <= i < permutation.len() && #[trigger] destination[i] ==> isize::MIN <= dimensions[i]
            - position[i] - 1 && dimensions[i] - position[i] <= isize::MAX
}

/// The placed coordinates keep the length of the permutation.
proof fn lemma_scattered(
    dimensions: Seq<isize>,
    position: Seq<isize>,
    destination: Seq<bool>,
    permutation: Seq<isize>,
    count: int,
)
    requires
        0 <= count <= permutation.len(),
        forall|i: int|
            0 <= i < permutation.len() ==> 0 <= #[trigger] permutation[i] < permutation.len(),
    ensures
        scattered(dimensions, position, destination, permutation, count).len() == permutation.len(),
    decreases count,
{
    if count > 0 {
        lemma_scattered(dimensions, position, destination, permutation, count - 1);
    }
}

/// When no two coordinates go to the same axis, coordinate `i` of `position`, moved, is
/// coordinate `permutation[i]` of the image.
pub proof fn lemma_converted_coordinate(
    dimensions: Seq<isize>,
    position: Seq<isize>,
    destination: Seq<bool>,
    permutation: Seq<isize>,
    i: int,
)
    requires
        0 <= i < permutation.len(),
        forall|k: int|
            0 <= k < permutation.len() ==> 0 <= #[trigger] permutation[k] < permutation.len(),
        forall|a: int, b: int|
            0 <= a < permutation.len() && 0 <= b < permutation.len() && a != b
                ==> #[trigger] permutation[a] != #[trigger] permutation[b],
    ensures
        converted_position(dimensions, position, destination, permutation)[permutation[i] as int]
            == moved_coordinate(dimensions, position, destination, i),
{
    lemma_placed_stays(dimensions, position, destination, permutation, i, permutation.len() as int);
}

/// A coordinate placed on its axis stays there while later coordinates go elsewhere.
proof fn lemma_placed_stays(
    dimensions: Seq<isize>,
    position: Seq<isize>,
    destination: Seq<bool>,
    permutation: Seq<isize>,
    i: int,
    count: int,
)
    requires
        0 <= i < count <= permutation.len(),
        forall|k: int|
            0 <= k < permutation.len() ==> 0 <= #[trigger] permutation[k] < permutation.len(),
        forall|a: int, b: int|
            0 <= a < permutation.len() && 0 <= b < permutation.len() && a != b
                ==> #[trigger] permutation[a] != #[trigger] permutation[b],
    ensures
        scattered(dimensions, position, destination, permutation, count)[permutation[i] as int]
            == moved_coordinate(dimensions, position, destination, i),
    decreases count,
{
    lemma_scattered(dimensions, position, destination, permutation, count - 1);
    if i < count - 1 {
        lemma_placed_stays(dimensions, position, destination, permutation, i, count - 1);
        assert(permutation[i] != permutation[count - 1]);
    }
}

/// A symmetry sends different positions of the grid to different positions: when no two
/// coordinates go to the same axis, equal images come from equal positions.
pub proof fn lemma_converted_injective(
    dimensions: Seq<isize>,
    first: Seq<isize>,
    second: Seq<isize>,
    destination: Seq<bool>,
    permutation: Seq<isize>,
)
    requires
        forall|k: int|
            0 <= k < permutation.len() ==> 0 <= #[trigger] permutation[k] < permutation.len(),
        forall|a: int, b: int|
            0 <= a < permutation.len() && 0 <= b < permutation.len() && a != b
                ==> #[trigger] permutation[a] != #[trigger] permutation[b],
        permutation.len() <= dimensions.len(),
        permutation.len() <= first.len(),
        permutation.len() <= second.len(),
        forall|i: int| 0 <= i < permutation.len() ==> 0 <= #[trigger] first[i] < dimensions[i],
        forall|i: int| 0 <= i < permutation.len() ==> 0 <= #[trigger] second[i] < dimensions[i],
        converted_position(dimensions, first, destination, permutation) == converted_position(
            dimensions,
            second,
            destination,
            permutation,
        ),
    ensures
        forall|i: int| 0 <= i < permutation.len() ==> #[trigger] first[i] == second[i],
{
    assert forall|i: int| 0 <= i < permutation.len() implies #[trigger] first[i] == second[i] by {
        lemma_converted_coordinate(dimensions, first, destination, permutation, i);
        lemma_converted_coordinate(dimensions, second, destination, permutation, i);
        assert(0 <= first[i] < dimensions[i]);
        assert(0 <= second[i] < dimensions[i]);
    }
}

/// When every moved coordinate fits the axis it goes to and every axis has a cell, every
/// coordinate of the image fits its axis.
pub proof fn lemma_converted_in_range(
    dimensions: Seq<isize>,
    position: Seq<isize>,
    destination: Seq<bool>,
    permutation: Seq<isize>,
    count: int,
)
    requires
        0 <= count <= permutation.len(),
        permutation.len() <= dimensions.len(),
        forall|j: int| 0 <= j < permutation.len() ==> 1 <= #[trigger] dimensions[j],
        forall|i: int|
            0 <= i < permutation.len() ==> 0 <= #[trigger] permutation[i] < permutation.len(),
        forall|i: int|
            0 <= i < permutation.len() ==> 0 <= #[trigger] moved_coordinate(
                dimensions,
                position,
                destination,
                i,
            ) < dimensions[permutation[i] as int],
    ensures
        scattered(dimensions, position, destination, permutation, count).len() == permutation.len(),
        forall|j: int|
            0 <= j < permutation.len() ==> 0 <= #[trigger] scattered(
                dimensions,
                position,
                destination,
                permutation,
                count,
            )[j] < dimensions[j],
    decreases count,
{
    lemma_scattered(dimensions, position, destination, permutation, count);
    if count > 0 {
        lemma_converted_in_range(dimensions, position, destination, permutation, count - 1);
        lemma_scattered(dimensions, position, destination, permutation, count - 1);
        let before = scattered(dimensions, position, destination, permutation, count - 1);
        let after = scattered(dimensions, position, destination, permutation, count);
        let k = count - 1;
        assert(0 <= moved_coordinate(dimensions, position, destination, k)
            < dimensions[permutation[k] as int]);
        assert forall|j: int| 0 <= j < permutation.len() implies 0 <= #[trigger] after[j]
            < dimensions[j] by {
            if j != permutation[k] {
                assert(after[j] == before[j]);
            }
        }
    }
}

/// The image of `position` under the symmetry given by `destination` and `permutation`:
/// coordinate `i` of `position`, reflected within its axis when `destination[i]` holds,
/// becomes coordinate `permutation[i]` of the image.
///
/// All flags clear with the identity permutation is the identity, the first symmetry
/// that a `Symmetries` iterator yields.
pub fn convert_position(
    dimensions: &[isize],
    position: &[isize],
    destination: &[bool],
    permutation: &[isize],
) -> (r: Vec<isize>)
    requires
        conversion_fits(dimensions@, position@, destination@, permutation@),
    ensures
        r@ == converted_position(dimensions@, position@, destination@, permutation@),
{
    let n = permutation.len();
    let mut result: Vec<isize> = Vec::new();
    let mut index: usize = 0;
    while index < n
        invariant
            index <= n,
            n == permutation@.len(),
            result@ == Seq::new(index as nat, |j: int| 0isize),
        decreases n - index,
    {
        result.push(0);
        index = index + 1;
        assert(result@ =~= Seq::new(index as nat, |j: int| 0isize));
    }
    let mut index: usize = 0;
    while index < n
        invariant
            index <= n,
            n == permutation@.len(),
            conversion_fits(dimensions@, position@, destination@, permutation@),
            result@ == scattered(dimensions@, position@, destination@, permutation@, index as int),
        decreases n - index,
    {
        proof {
            lemma_scattered(dimensions@, position@, destination@, permutation@, index as int);
        }
        let target = permutation[index];
        assert(0 <= permutation@[index as int] < n);
        let value = if destination[index] {
            dimensions[index] - position[index] - 1
        } else {
            position[index]
        };
        result.set(target as usize, value);
        index = index + 1;
    }
    result
}

} // verus!
