use vstd::prelude::*;

verus! {

/// Total element count described by a shape: the product of all extents.
/// An empty extent sequence has size 1, the neutral element, so that the
/// recursion needs no special base case per rank.
pub open spec fn dim_size(extents: Seq<usize>) -> int
    decreases extents.len(),
{
    if extents.len() == 0 {
        1
    } else {
        extents[0] * dim_size(extents.skip(1))
    }
}

/// Row-major flat offset of `coord` within a buffer laid out by `extents`:
/// each axis's coordinate is weighted by the product of all extents
/// strictly to its right (that axis's stride), and the innermost axis
/// contributes its coordinate directly.
pub open spec fn flat_offset(extents: Seq<usize>, coord: Seq<usize>) -> int
    decreases extents.len(),
{
    if extents.len() == 0 {
        0
    } else {
        coord[0] * dim_size(extents.skip(1)) + flat_offset(extents.skip(1), coord.skip(1))
    }
}

/// A coordinate is valid for a shape when it has the same rank and each
/// component is strictly below the corresponding extent.
pub open spec fn coord_in_bounds(extents: Seq<usize>, coord: Seq<usize>) -> bool {
    &&& coord.len() == extents.len()
    &&& forall|i: int| 0 <= i < coord.len() ==> coord[i] < extents[i]
}

/// A size is never negative.
pub proof fn lemma_dim_size_nonneg(extents: Seq<usize>)
    ensures
        dim_size(extents) >= 0,
    decreases extents.len(),
{
    if extents.len() > 0 {
        lemma_dim_size_nonneg(extents.skip(1));
        assert(extents[0] * dim_size(extents.skip(1)) >= 0) by (nonlinear_arith)
            requires
                extents[0] >= 0,
                dim_size(extents.skip(1)) >= 0,
        ;
    }
}

/// The size of a rank-1 shape is its single extent.
pub proof fn lemma_dim_size_rank1(extents: Seq<usize>)
    requires
        extents.len() == 1,
    ensures
        dim_size(extents) == extents[0],
{
    assert(extents.skip(1).len() == 0);
    assert(dim_size(extents.skip(1)) == 1);
    assert(dim_size(extents) == extents[0] * dim_size(extents.skip(1)));
}

/// The size of a rank-2 shape is the product of its two extents.
pub proof fn lemma_dim_size_rank2(extents: Seq<usize>)
    requires
        extents.len() == 2,
    ensures
        dim_size(extents) == extents[0] * extents[1],
{
    lemma_dim_size_rank1(extents.skip(1));
    assert(dim_size(extents) == extents[0] * dim_size(extents.skip(1)));
}

/// The size of a rank-3 shape is the product of its three extents.
pub proof fn lemma_dim_size_rank3(extents: Seq<usize>)
    requires
        extents.len() == 3,
    ensures
        dim_size(extents) == extents[0] * (extents[1] * extents[2]),
{
    lemma_dim_size_rank2(extents.skip(1));
    assert(dim_size(extents) == extents[0] * dim_size(extents.skip(1)));
}

/// Dropping outer axes can only shrink the size, as long as every extent
/// is at least one; and the remaining size stays positive.
pub proof fn lemma_dim_size_skip_le(extents: Seq<usize>, j: int)
    requires
        0 <= j <= extents.len(),
        forall|i: int| 0 <= i < extents.len() ==> extents[i] >= 1,
    ensures
        1 <= dim_size(extents.skip(j)) <= dim_size(extents),
    decreases extents.len(),
{
    if extents.len() == 0 {
        assert(extents.skip(j) =~= extents);
    } else if j == 0 {
        assert(extents.skip(0) =~= extents);
        lemma_dim_size_skip_le(extents.skip(1), 0);
        assert(extents.skip(1).skip(0) =~= extents.skip(1));
        assert(dim_size(extents.skip(1)) <= extents[0] * dim_size(extents.skip(1)))
            by (nonlinear_arith)
            requires
                extents[0] >= 1,
                dim_size(extents.skip(1)) >= 1,
        ;
    } else {
        assert(extents.skip(j) =~= extents.skip(1).skip(j - 1));
        lemma_dim_size_skip_le(extents.skip(1), j - 1);
        assert(dim_size(extents.skip(1)) <= extents[0] * dim_size(extents.skip(1)))
            by (nonlinear_arith)
            requires
                extents[0] >= 1,
                dim_size(extents.skip(1)) >= 1,
        ;
    }
}

/// A shape with a zero-length axis describes no elements at all.
pub proof fn lemma_dim_size_zero(extents: Seq<usize>, j: int)
    requires
        0 <= j < extents.len(),
        extents[j] == 0,
    ensures
        dim_size(extents) == 0,
    decreases extents.len(),
{
    if j == 0 {
        assert(extents[0] * dim_size(extents.skip(1)) == 0) by (nonlinear_arith)
            requires
                extents[0] == 0,
        ;
    } else {
        lemma_dim_size_zero(extents.skip(1), j - 1);
        assert(extents[0] * dim_size(extents.skip(1)) == 0) by (nonlinear_arith)
            requires
                dim_size(extents.skip(1)) == 0,
        ;
    }
}

/// An in-bounds coordinate always lands inside the buffer: its flat
/// offset is nonnegative and strictly below the shape's size.
pub proof fn lemma_flat_offset_in_range(extents: Seq<usize>, coord: Seq<usize>)
    requires
        coord_in_bounds(extents, coord),
        extents.len() >= 1,
    ensures
        0 <= flat_offset(extents, coord) < dim_size(extents),
    decreases extents.len(),
{
    let tail_size = dim_size(extents.skip(1));
    if extents.len() == 1 {
        lemma_dim_size_rank1(extents);
        assert(extents.skip(1).len() == 0);
        assert(dim_size(extents.skip(1)) == 1);
        assert(flat_offset(extents.skip(1), coord.skip(1)) == 0);
        assert(flat_offset(extents, coord) == coord[0] * 1 + 0);
    } else {
        lemma_coord_in_bounds_skip(extents, coord, 1);
        lemma_flat_offset_in_range(extents.skip(1), coord.skip(1));
        let rest = flat_offset(extents.skip(1), coord.skip(1));
        assert(coord[0] * tail_size + rest >= 0 && coord[0] * tail_size + rest < extents[0]
            * tail_size) by (nonlinear_arith)
            requires
                0 <= coord[0] < extents[0],
                0 <= rest < tail_size,
        ;
    }
}

/// If a coordinate is in bounds for a shape, so is its tail for the
/// shape's tail, for any number of dropped outer axes.
pub proof fn lemma_coord_in_bounds_skip(extents: Seq<usize>, coord: Seq<usize>, j: int)
    requires
        coord_in_bounds(extents, coord),
        0 <= j <= extents.len(),
    ensures
        coord_in_bounds(extents.skip(j), coord.skip(j)),
{
    assert forall|i: int| 0 <= i < coord.skip(j).len() implies coord.skip(j)[i] < extents.skip(
        j,
    )[i] by {
        assert(coord[i + j] < extents[i + j]);
    }
}

/// The general formula specializes, for a rank-1 shape, to the coordinate
/// itself: no rank-specific code is needed for this to fall out.
pub proof fn lemma_offset_rank1(extents: Seq<usize>, coord: Seq<usize>)
    requires
        extents.len() == 1,
        coord.len() == 1,
    ensures
        flat_offset(extents, coord) == coord[0],
{
    assert(extents.skip(1).len() == 0);
    assert(dim_size(extents.skip(1)) == 1);
    assert(flat_offset(extents.skip(1), coord.skip(1)) == 0);
    assert(flat_offset(extents, coord) == coord[0] * 1 + 0);
}

/// For a rank-2 shape the formula is the familiar `c0 * e1 + c1`.
pub proof fn lemma_offset_rank2(extents: Seq<usize>, coord: Seq<usize>)
    requires
        extents.len() == 2,
        coord.len() == 2,
    ensures
        flat_offset(extents, coord) == coord[0] * extents[1] + coord[1],
{
    lemma_offset_rank1(extents.skip(1), coord.skip(1));
    lemma_dim_size_rank1(extents.skip(1));
    assert(flat_offset(extents, coord) == coord[0] * dim_size(extents.skip(1)) + flat_offset(
        extents.skip(1),
        coord.skip(1),
    ));
}

/// For a rank-3 shape the formula is `c0 * (e1 * e2) + c1 * e2 + c2`.
pub proof fn lemma_offset_rank3(extents: Seq<usize>, coord: Seq<usize>)
    requires
        extents.len() == 3,
        coord.len() == 3,
    ensures
        flat_offset(extents, coord) == coord[0] * (extents[1] * extents[2]) + coord[1] * extents[2]
            + coord[2],
{
    lemma_offset_rank2(extents.skip(1), coord.skip(1));
    lemma_dim_size_rank2(extents.skip(1));
    assert(flat_offset(extents, coord) == coord[0] * dim_size(extents.skip(1)) + flat_offset(
        extents.skip(1),
        coord.skip(1),
    ));
}

/// Computes the size described by a slice of extents while watching for
/// overflow: the product of the extents when it is representable, and
/// `None` exactly when it exceeds `usize::MAX`.
pub fn checked_size(extents: &[usize]) -> (r: Option<usize>)
    ensures
        match r {
            Some(s) => s == dim_size(extents@),
            None => dim_size(extents@) > usize::MAX,
        },
{
    let n = extents.len();
    let mut z: usize = 0;
    while z < n
        invariant
            z <= n,
            n == extents@.len(),
            forall|k: int| 0 <= k < z ==> extents@[k] >= 1,
        decreases n - z,
    {
        if extents[z] == 0 {
            proof {
                lemma_dim_size_zero(extents@, z as int);
            }
            return Some(0);
        }
        z = z + 1;
    }
    let mut acc: usize = 1;
    let mut i: usize = n;
    proof {
        assert(extents@.skip(n as int).len() == 0);
    }
    while i > 0
        invariant
            i <= n,
            n == extents@.len(),
            forall|k: int| 0 <= k < n ==> extents@[k] >= 1,
            acc == dim_size(extents@.skip(i as int)),
        decreases i,
    {
        i = i - 1;
        proof {
            assert(extents@.skip(i as int).skip(1) =~= extents@.skip(i + 1));
            assert(dim_size(extents@.skip(i as int)) == extents@[i as int] * acc);
        }
        match extents[i].checked_mul(acc) {
            Some(p) => {
                acc = p;
            },
            None => {
                proof {
                    lemma_dim_size_skip_le(extents@, i as int);
                }
                return None;
            },
        }
    }
    proof {
        assert(extents@.skip(0) =~= extents@);
    }
    Some(acc)
}

/// Checks a coordinate, given as a slice, against a shape's extents:
/// true exactly when the ranks agree and every component is strictly
/// below its axis extent.
pub fn check_coord(extents: &[usize], coord: &[usize]) -> (r: bool)
    ensures
        r == coord_in_bounds(extents@, coord@),
{
    if coord.len() != extents.len() {
        return false;
    }
    let n = extents.len();
    let mut i: usize = 0;
    while i < n
        invariant
            i <= n,
            n == extents@.len(),
            coord@.len() == extents@.len(),
            forall|k: int| 0 <= k < i ==> coord@[k] < extents@[k],
        decreases n - i,
    {
        if coord[i] >= extents[i] {
            return false;
        }
        i = i + 1;
    }
    true
}

/// A shape: a fixed-rank sequence of per-axis extents, outermost axis
/// first, that knows its total element count and can place a same-rank
/// coordinate into flat row-major storage.  Shapes are small values,
/// copied and compared by value.
pub trait Dimension: Sized + Copy {
    /// The per-axis extents, outermost axis first.
    spec fn extents(&self) -> Seq<usize>;

    /// Every value of a shape type has the same fixed rank, between 1 and 3.
    proof fn lemma_rank(&self)
        ensures
            1 <= self.extents().len() <= 3,
    ;

    /// The extents, as a read-only slice.
    fn slice(&self) -> (r: &[usize])
        ensures
            r@ == self.extents(),
    ;

    /// Total element count: the product of the extents, recomputed from
    /// them on every call, never cached.
    fn size(&self) -> (r: usize)
        requires
            dim_size(self.extents()) <= usize::MAX,
        ensures
            r == dim_size(self.extents()),
    ;

    /// Row-major flat offset of `other`, read as a coordinate into
    /// `self`.  One shared formula serves every rank: walking the axes
    /// from innermost to outermost, each coordinate is weighted by the
    /// running product of the extents already passed.
    fn offset(&self, other: &Self) -> (r: usize)
        requires
            coord_in_bounds(self.extents(), other.extents()),
            dim_size(self.extents()) <= usize::MAX,
        ensures
            r == flat_offset(self.extents(), other.extents()),
    {
        let e = self.slice();
        let c = other.slice();
        let n = e.len();
        let mut acc: usize = 0;
        let mut stride: usize = 1;
        let mut i: usize = n;
        proof {
            assert(e@.skip(n as int).len() == 0);
            assert(c@.skip(n as int).len() == 0);
        }
        while i > 0
            invariant
                i <= n,
                n == e@.len(),
                e@ == self.extents(),
                c@ == other.extents(),
                coord_in_bounds(e@, c@),
                dim_size(e@) <= usize::MAX,
                stride == dim_size(e@.skip(i as int)),
                acc == flat_offset(e@.skip(i as int), c@.skip(i as int)),
            decreases i,
        {
            i = i - 1;
            proof {
                assert forall|k: int| 0 <= k < e@.len() implies e@[k] >= 1 by {
                    assert(c@[k] < e@[k]);
                }
                assert(e@.skip(i as int).skip(1) =~= e@.skip(i + 1));
                assert(c@.skip(i as int).skip(1) =~= c@.skip(i + 1));
                lemma_coord_in_bounds_skip(e@, c@, i as int);
                lemma_flat_offset_in_range(e@.skip(i as int), c@.skip(i as int));
                lemma_dim_size_skip_le(e@, i as int);
                assert(e@.skip(i as int)[0] == e@[i as int]);
                assert(c@.skip(i as int)[0] == c@[i as int]);
                assert(dim_size(e@.skip(i as int)) == e@[i as int] * stride);
                assert(e@[i as int] * stride == stride * e@[i as int]) by (nonlinear_arith);
                assert(flat_offset(e@.skip(i as int), c@.skip(i as int)) == c@[i as int] * stride
                    + acc);
            }
            acc = acc + c[i] * stride;
            stride = stride * e[i];
        }
        proof {
            assert(e@.skip(0) =~= e@);
            assert(c@.skip(0) =~= c@);
        }
        acc
    }
}

impl Dimension for [usize; 1] {
    open spec fn extents(&self) -> Seq<usize> {
        self@
    }

    proof fn lemma_rank(&self) {
    }

    fn slice(&self) -> (r: &[usize]) {
        self.as_slice()
    }

    fn size(&self) -> (r: usize) {
        proof {
            lemma_dim_size_rank1(self@);
        }
        self[0]
    }
}

impl Dimension for [usize; 2] {
    open spec fn extents(&self) -> Seq<usize> {
        self@
    }

    proof fn lemma_rank(&self) {
    }

    fn slice(&self) -> (r: &[usize]) {
        self.as_slice()
    }

    fn size(&self) -> (r: usize) {
        proof {
            lemma_dim_size_rank2(self@);
        }
        if self[0] == 0 || self[1] == 0 {
            proof {
                assert(self@[0] * self@[1] == 0) by (nonlinear_arith)
                    requires
                        self@[0] == 0 || self@[1] == 0,
                ;
            }
            0
        } else {
            self[0] * self[1]
        }
    }
}

impl Dimension for [usize; 3] {
    open spec fn extents(&self) -> Seq<usize> {
        self@
    }

    proof fn lemma_rank(&self) {
    }

    fn slice(&self) -> (r: &[usize]) {
        self.as_slice()
    }

    fn size(&self) -> (r: usize) {
        proof {
            lemma_dim_size_rank3(self@);
        }
        if self[0] == 0 || self[1] == 0 || self[2] == 0 {
            proof {
                assert(self@[0] * (self@[1] * self@[2]) == 0) by (nonlinear_arith)
                    requires
                        self@[0] == 0 || self@[1] == 0 || self@[2] == 0,
                ;
            }
            0
        } else {
            proof {
                assert(self@[1] * self@[2] <= self@[0] * (self@[1] * self@[2]))
                    by (nonlinear_arith)
                    requires
                        self@[0] >= 1,
                        self@[1] >= 1,
                        self@[2] >= 1,
                ;
            }
            let inner = self[1] * self[2];
            self[0] * inner
        }
    }
}

} // verus!
