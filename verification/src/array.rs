use vstd::prelude::*;

use crate::dimension::{
    Dimension, check_coord, checked_size, coord_in_bounds, dim_size, flat_offset,
    lemma_dim_size_nonneg, lemma_dim_size_rank1, lemma_flat_offset_in_range,
};
use crate::numeric::{Numeric, trunc_div};

verus! {

/// A dense array: one flat row-major buffer of scalars together with
/// the shape that lays it out.  The buffer's length always equals the
/// shape's size, and the array is the sole owner of its buffer.
#[derive(Debug)]
pub struct Array<D, N> {
    data: Vec<N>,
    dimension: D,
}

/// Sum of the `count` values of `vals` starting at `start`, accumulated
/// left to right: the meaning of one collapsed block of the interior
/// reduction.
pub open spec fn block_sum(vals: Seq<int>, start: int, count: int) -> int
    decreases count,
{
    if count <= 0 {
        0
    } else {
        block_sum(vals, start, count - 1) + vals[start + count - 1]
    }
}

impl<D: Dimension, N: Numeric> Array<D, N> {
    /// The shape value the array was built with.
    pub closed spec fn dim(self) -> D {
        self.dimension
    }

    /// The stored scalars, in storage (row-major) order.
    pub closed spec fn values(self) -> Seq<N> {
        self.data@
    }

    /// The per-axis extents of the array's shape.
    pub open spec fn extents(self) -> Seq<usize> {
        self.dim().extents()
    }

    /// The mathematical values of the stored scalars, in storage order.
    pub open spec fn nums(self) -> Seq<int> {
        Seq::new(self.values().len(), |i: int| self.values()[i].v())
    }

    /// The shape/size invariant: the flat buffer holds exactly as many
    /// scalars as the shape describes.
    pub open spec fn wf(self) -> bool {
        self.values().len() == dim_size(self.extents())
    }

    /// The number of elements each entry of the interior reduction
    /// collapses: the product of all extents but the outermost.
    pub open spec fn interior_size(self) -> int {
        dim_size(self.extents().skip(1))
    }

    /// Builds an array from an explicit buffer and a shape.  The buffer
    /// must hold exactly `size(shape)` scalars; a mismatch is a fault at
    /// the call site, ruled out here by precondition.
    pub fn new(data: Vec<N>, dimension: D) -> (r: Array<D, N>)
        requires
            data@.len() == dim_size(dimension.extents()),
        ensures
            r.wf(),
            r.values() == data@,
            r.dim() == dimension,
    {
        Array { data, dimension }
    }

    /// Checked construction: accepts the buffer exactly when its length
    /// matches the shape's size, and reports the mismatch otherwise.
    pub fn try_new(data: Vec<N>, dimension: D) -> (r: Option<Array<D, N>>)
        ensures
            match r {
                Some(a) => {
                    &&& data@.len() == dim_size(dimension.extents())
                    &&& a.wf()
                    &&& a.values() == data@
                    &&& a.dim() == dimension
                },
                None => data@.len() != dim_size(dimension.extents()),
            },
    {
        let len = data.len();
        match checked_size(dimension.slice()) {
            Some(size) => {
                if len == size {
                    Some(Array::new(data, dimension))
                } else {
                    None
                }
            },
            None => None,
        }
    }

    /// Builds a zero-filled array of the given shape: every element is
    /// the scalar additive identity.
    pub fn from_shape(dimension: D) -> (r: Array<D, N>)
        requires
            dim_size(dimension.extents()) <= usize::MAX,
        ensures
            r.wf(),
            r.dim() == dimension,
            r.nums().len() == dim_size(dimension.extents()),
            forall|i: int| 0 <= i < r.nums().len() ==> r.nums()[i] == 0,
    {
        let n = dimension.size();
        let mut data: Vec<N> = Vec::new();
        let mut i: usize = 0;
        while i < n
            invariant
                i <= n,
                data@.len() == i,
                forall|k: int| 0 <= k < i ==> data@[k].v() == 0,
            decreases n - i,
        {
            data.push(N::zero());
            i = i + 1;
        }
        Array { data, dimension }
    }

    /// The flat buffer, read-only, in storage order.
    pub fn data(&self) -> (r: &[N])
        ensures
            r@ == self.values(),
    {
        self.data.as_slice()
    }

    /// The axis extents, read-only, outermost first.
    pub fn shape(&self) -> (r: &[usize])
        ensures
            r@ == self.extents(),
    {
        self.dimension.slice()
    }

    /// Reads the element at a coordinate.  The result is fully
    /// determined by the array's contents: any number of reads of the
    /// same coordinate on an unmutated array return the same value.
    pub fn get(&self, coordinate: &D) -> (r: N)
        requires
            self.wf(),
            coord_in_bounds(self.extents(), coordinate.extents()),
        ensures
            r == self.values()[flat_offset(self.extents(), coordinate.extents())],
            r.v() == self.nums()[flat_offset(self.extents(), coordinate.extents())],
    {
        let len = self.data.len();
        proof {
            self.dimension.lemma_rank();
            lemma_flat_offset_in_range(self.extents(), coordinate.extents());
        }
        let off = self.dimension.offset(coordinate);
        self.data[off]
    }

    /// Writes the element at a coordinate, in place; every other
    /// element and the shape stay as they were.
    pub fn set(&mut self, coordinate: &D, value: N)
        requires
            old(self).wf(),
            coord_in_bounds(old(self).extents(), coordinate.extents()),
        ensures
            final(self).wf(),
            final(self).dim() == old(self).dim(),
            final(self).values() == old(self).values().update(
                flat_offset(old(self).extents(), coordinate.extents()),
                value,
            ),
    {
        let len = self.data.len();
        proof {
            self.dimension.lemma_rank();
            lemma_flat_offset_in_range(self.extents(), coordinate.extents());
        }
        let off = self.dimension.offset(coordinate);
        self.data[off] = value;
    }

    /// Bounds-checked read: rejects a coordinate whose rank differs or
    /// any of whose components reaches its axis extent, instead of
    /// touching storage.
    pub fn try_get(&self, coordinate: &D) -> (r: Option<N>)
        requires
            self.wf(),
        ensures
            match r {
                Some(x) => {
                    &&& coord_in_bounds(self.extents(), coordinate.extents())
                    &&& x == self.values()[flat_offset(self.extents(), coordinate.extents())]
                },
                None => !coord_in_bounds(self.extents(), coordinate.extents()),
            },
    {
        if check_coord(self.dimension.slice(), coordinate.slice()) {
            Some(self.get(coordinate))
        } else {
            None
        }
    }

    /// Bounds-checked write: writes and reports true when the
    /// coordinate is valid, and otherwise leaves the array untouched
    /// and reports false.
    pub fn try_set(&mut self, coordinate: &D, value: N) -> (r: bool)
        requires
            old(self).wf(),
        ensures
            final(self).wf(),
            final(self).dim() == old(self).dim(),
            r == coord_in_bounds(old(self).extents(), coordinate.extents()),
            r ==> final(self).values() == old(self).values().update(
                flat_offset(old(self).extents(), coordinate.extents()),
                value,
            ),
            !r ==> final(self).values() == old(self).values(),
    {
        if check_coord(self.dimension.slice(), coordinate.slice()) {
            self.set(coordinate, value);
            true
        } else {
            false
        }
    }

    /// Collapses every axis but the outermost by summation: the flat
    /// buffer is cut into `extents[0]` contiguous blocks of
    /// `size(extents[1..])` elements each, and each block is summed
    /// independently into one element of a rank-1 result.  A rank-1
    /// source passes through the very same block logic with blocks of
    /// one element, so the reduction is the identity there.
    #[verifier::loop_isolation(false)]
    pub fn sum_interior(&self) -> (r: Array<[usize; 1], N>)
        requires
            self.wf(),
            forall|b: int, t: int|
                0 <= b < self.extents()[0] && 0 <= t <= self.interior_size() ==> N::fits(
                    #[trigger] block_sum(self.nums(), b * self.interior_size(), t),
                ),
        ensures
            r.wf(),
            r.extents() =~= seq![self.extents()[0]],
            r.nums().len() == self.extents()[0],
            forall|b: int|
                0 <= b < self.extents()[0] ==> r.nums()[b] == block_sum(
                    self.nums(),
                    b * self.interior_size(),
                    self.interior_size(),
                ),
    {
        let len = self.data.len();
        let shape = self.dimension.slice();
        proof {
            self.dimension.lemma_rank();
            lemma_dim_size_nonneg(self.extents().skip(1));
            assert(dim_size(self.extents()) == self.extents()[0] * self.interior_size());
        }
        let e0 = shape[0];
        let ghost gstep = self.interior_size();
        let mut step: usize = 0;
        if e0 > 0 {
            step = len / e0;
            proof {
                assert((e0 as int) * gstep == gstep * (e0 as int)) by (nonlinear_arith);
                vstd::arithmetic::div_mod::lemma_div_by_multiple(gstep, e0 as int);
                assert(step == gstep);
            }
        }
        let mut out: Vec<N> = Vec::new();
        let mut b: usize = 0;
        while b < e0
            invariant
                b <= e0,
                out@.len() == b,
                e0 > 0 ==> step == gstep,
                forall|bb: int|
                    0 <= bb < b ==> out@[bb].v() == block_sum(self.nums(), bb * gstep, gstep),
            decreases e0 - b,
        {
            let mut acc = N::zero();
            let mut t: usize = 0;
            while t < step
                invariant
                    t <= step,
                    b < e0,
                    acc.v() == block_sum(self.nums(), (b as int) * gstep, t as int),
                decreases step - t,
            {
                proof {
                    assert((b as int) * (step as int) + (t as int) < len as int)
                        by (nonlinear_arith)
                        requires
                            (b as int) < (e0 as int),
                            0 <= (t as int) < (step as int),
                            (len as int) == (e0 as int) * (step as int),
                    ;
                }
                let idx = b * step + t;
                let x = self.data[idx];
                proof {
                    assert(self.nums()[idx as int] == x.v());
                    assert(block_sum(self.nums(), (b as int) * gstep, t + 1) == block_sum(
                        self.nums(),
                        (b as int) * gstep,
                        t as int,
                    ) + self.nums()[(b as int) * gstep + (t as int)]);
                }
                acc = acc.add_val(x);
                t = t + 1;
            }
            out.push(acc);
            b = b + 1;
        }
        let rdim: [usize; 1] = [e0];
        proof {
            assert(rdim@ =~= seq![e0]);
            lemma_dim_size_rank1(rdim@);
        }
        Array::new(out, rdim)
    }

    /// Elementwise product: a new array whose buffer holds, in order,
    /// the pairwise products of the two same-shape operands' buffers,
    /// under the shape of the operands.
    #[verifier::loop_isolation(false)]
    pub fn mul_elementwise(&self, other: &Array<D, N>) -> (r: Array<D, N>)
        requires
            self.wf(),
            other.wf(),
            self.extents() == other.extents(),
            forall|i: int|
                0 <= i < self.nums().len() ==> N::fits(self.nums()[i] * other.nums()[i]),
        ensures
            r.wf(),
            r.dim() == self.dim(),
            r.nums().len() == self.nums().len(),
            forall|i: int|
                0 <= i < r.nums().len() ==> r.nums()[i] == self.nums()[i] * other.nums()[i],
    {
        let len = self.data.len();
        let mut out: Vec<N> = Vec::new();
        let mut i: usize = 0;
        while i < len
            invariant
                i <= len,
                out@.len() == i,
                forall|k: int| 0 <= k < i ==> out@[k].v() == self.nums()[k] * other.nums()[k],
            decreases len - i,
        {
            let x = self.data[i];
            let y = other.data[i];
            proof {
                assert(self.nums()[i as int] == x.v());
                assert(other.nums()[i as int] == y.v());
                assert(N::fits(self.nums()[i as int] * other.nums()[i as int]));
            }
            out.push(x.mul_val(y));
            i = i + 1;
        }
        Array::new(out, self.dimension)
    }

    /// Divides every element in place by a scalar, truncating toward
    /// zero; the shape stays as it was.  Division by zero is a fault of
    /// the scalar type itself and is ruled out by precondition.
    #[verifier::loop_isolation(false)]
    pub fn div_scalar(&mut self, divisor: N)
        requires
            old(self).wf(),
            divisor.v() != 0,
            forall|i: int|
                0 <= i < old(self).nums().len() ==> N::fits(
                    trunc_div(old(self).nums()[i], divisor.v()),
                ),
        ensures
            final(self).wf(),
            final(self).dim() == old(self).dim(),
            final(self).nums().len() == old(self).nums().len(),
            forall|i: int|
                0 <= i < final(self).nums().len() ==> final(self).nums()[i] == trunc_div(
                    old(self).nums()[i],
                    divisor.v(),
                ),
    {
        let len = self.data.len();
        let mut i: usize = 0;
        while i < len
            invariant
                i <= len,
                self.data@.len() == len,
                self.dimension == old(self).dimension,
                forall|k: int|
                    0 <= k < i ==> self.data@[k].v() == trunc_div(
                        old(self).nums()[k],
                        divisor.v(),
                    ),
                forall|k: int| i <= k < len ==> self.data@[k] == old(self).data@[k],
            decreases len - i,
        {
            let x = self.data[i];
            proof {
                assert(old(self).nums()[i as int] == x.v());
                assert(N::fits(trunc_div(old(self).nums()[i as int], divisor.v())));
            }
            self.data[i] = x.div_val(divisor);
            i = i + 1;
        }
    }
}

} // verus!
