//! A minimal dense N-dimensional numeric array library.
//!
//! Arrays of rank 1 to 3 are stored in one flat, contiguous, row-major
//! buffer together with their shape.  The heart of the library is the
//! strided offset model: a single formula maps a multi-axis coordinate to
//! its position in flat storage, shared by every supported rank.

use vstd::prelude::*;

pub mod array;
pub mod dimension;
pub mod numeric;

pub use array::Array;
pub use array::block_sum;
pub use dimension::Dimension;
pub use dimension::dim_size;
pub use dimension::flat_offset;
pub use dimension::coord_in_bounds;
pub use numeric::Numeric;
pub use numeric::trunc_div;

verus! {

/// The inner product of row `i` of an `[m, k]` buffer with column `j`
/// of a `[k, n]` buffer, over the first `count` terms, accumulated
/// left to right: the sum of `av[i*k + t] * bv[t*n + j]` for `t` below
/// `count`.
pub open spec fn dot_prefix(
    av: Seq<int>,
    bv: Seq<int>,
    k: int,
    n: int,
    i: int,
    j: int,
    count: int,
) -> int
    decreases count,
{
    if count <= 0 {
        0
    } else {
        dot_prefix(av, bv, k, n, i, j, count - 1) + av[i * k + (count - 1)] * bv[(count - 1) * n
            + j]
    }
}

/// Representability of every intermediate value of the matrix product
/// of an `[m, k]` buffer with a `[k, n]` buffer: each pairwise product
/// of entries, and each left-to-right partial inner product.
pub open spec fn matmul_fits<N: Numeric>(av: Seq<int>, bv: Seq<int>, m: int, k: int, n: int) -> bool {
    &&& forall|i: int, j: int, t: int|
        0 <= i < m && 0 <= j < n && 0 <= t < k ==> N::fits(
            #[trigger] (av[i * k + t] * bv[t * n + j]),
        )
    &&& forall|i: int, j: int, t: int|
        0 <= i < m && 0 <= j < n && 0 <= t <= k ==> N::fits(
            #[trigger] dot_prefix(av, bv, k, n, i, j, t),
        )
}

/// The standard triple-loop matrix product of a rank-2 `[m, k]` array
/// with a rank-2 `[k, n]` array: a new `[m, n]` array whose entry at
/// `[i, j]` is the inner product of row `i` of `a` with column `j` of
/// `b`.  Incompatible inner dimensions are a fault at the call site,
/// ruled out here by precondition.
#[verifier::loop_isolation(false)]
pub fn matmul<N: Numeric>(a: Array<[usize; 2], N>, b: Array<[usize; 2], N>) -> (r: Array<
    [usize; 2],
    N,
>)
    requires
        a.wf(),
        b.wf(),
        a.extents()[1] == b.extents()[0],
        a.extents()[0] * b.extents()[1] <= usize::MAX,
        matmul_fits::<N>(
            a.nums(),
            b.nums(),
            a.extents()[0] as int,
            a.extents()[1] as int,
            b.extents()[1] as int,
        ),
    ensures
        r.wf(),
        r.extents() =~= seq![a.extents()[0], b.extents()[1]],
        r.nums().len() == a.extents()[0] * b.extents()[1],
        forall|i: int, j: int|
            0 <= i < a.extents()[0] && 0 <= j < b.extents()[1] ==> r.nums()[i * (
            b.extents()[1] as int) + j] == dot_prefix(
                a.nums(),
                b.nums(),
                a.extents()[1] as int,
                b.extents()[1] as int,
                i,
                j,
                a.extents()[1] as int,
            ),
{
    let m = a.shape()[0];
    let k = a.shape()[1];
    let n = b.shape()[1];
    let ghost av = a.nums();
    let ghost bv = b.nums();
    let mut data: Vec<N> = Vec::new();
    let mut i: usize = 0;
    while i < m
        invariant
            i <= m,
            data@.len() == i * n,
            forall|ii: int, jj: int|
                0 <= ii < i && 0 <= jj < n ==> data@[ii * (n as int) + jj].v() == dot_prefix(
                    av,
                    bv,
                    k as int,
                    n as int,
                    ii,
                    jj,
                    k as int,
                ),
        decreases m - i,
    {
        let mut j: usize = 0;
        while j < n
            invariant
                i < m,
                j <= n,
                data@.len() == i * n + j,
                forall|ii: int, jj: int|
                    0 <= ii < i && 0 <= jj < n ==> data@[ii * (n as int) + jj].v() == dot_prefix(
                        av,
                        bv,
                        k as int,
                        n as int,
                        ii,
                        jj,
                        k as int,
                    ),
                forall|jj: int|
                    0 <= jj < j ==> data@[(i as int) * (n as int) + jj].v() == dot_prefix(
                        av,
                        bv,
                        k as int,
                        n as int,
                        i as int,
                        jj,
                        k as int,
                    ),
            decreases n - j,
        {
            let mut acc = N::zero();
            let mut t: usize = 0;
            while t < k
                invariant
                    i < m,
                    j < n,
                    t <= k,
                    acc.v() == dot_prefix(av, bv, k as int, n as int, i as int, j as int, t as int),
                decreases k - t,
            {
                let x = a.get(&[i, t]);
                let y = b.get(&[t, j]);
                proof {
                    crate::dimension::lemma_offset_rank2(a.extents(), seq![i, t]);
                    crate::dimension::lemma_offset_rank2(b.extents(), seq![t, j]);
                    assert(x.v() == av[(i as int) * (k as int) + (t as int)]);
                    assert(y.v() == bv[(t as int) * (n as int) + (j as int)]);
                    assert(N::fits(av[(i as int) * (k as int) + (t as int)] * bv[(t as int) * (
                    n as int) + (j as int)]));
                    assert(N::fits(
                        dot_prefix(av, bv, k as int, n as int, i as int, j as int, t + 1),
                    ));
                }
                let p = x.mul_val(y);
                acc = acc.add_val(p);
                t = t + 1;
            }
            data.push(acc);
            proof {
                assert forall|ii: int, jj: int|
                    #![trigger data@[ii * (n as int) + jj]]
                    0 <= ii < i && 0 <= jj < n implies data@[ii * (n as int) + jj].v()
                    == dot_prefix(av, bv, k as int, n as int, ii, jj, k as int) by {
                    assert(ii * (n as int) + jj < (i as int) * (n as int)) by (nonlinear_arith)
                        requires
                            0 <= ii < (i as int),
                            0 <= jj < (n as int),
                    ;
                }
            }
            j = j + 1;
        }
        proof {
            assert((i + 1) * (n as int) == i * (n as int) + (n as int)) by (nonlinear_arith);
        }
        i = i + 1;
    }
    let rdim: [usize; 2] = [m, n];
    proof {
        assert(rdim@ =~= seq![m, n]);
        crate::dimension::lemma_dim_size_rank2(rdim@);
        assert forall|ii: int, jj: int|
            #![trigger data@[ii * (n as int) + jj]]
            0 <= ii < m && 0 <= jj < n implies ii * (n as int) + jj < (m as int) * (n as int)
            && data@[ii * (n as int) + jj].v() == dot_prefix(
            av,
            bv,
            k as int,
            n as int,
            ii,
            jj,
            k as int,
        ) by {
            assert(ii * (n as int) + jj < (m as int) * (n as int)) by (nonlinear_arith)
                requires
                    0 <= ii < (m as int),
                    0 <= jj < (n as int),
            ;
        }
    }
    Array::new(data, rdim)
}

/// Checked matrix product: multiplies exactly when the operands' inner
/// dimensions agree, and reports the shape mismatch otherwise.
pub fn try_matmul<N: Numeric>(a: Array<[usize; 2], N>, b: Array<[usize; 2], N>) -> (r: Option<
    Array<[usize; 2], N>,
>)
    requires
        a.wf(),
        b.wf(),
        a.extents()[1] == b.extents()[0] ==> {
            &&& a.extents()[0] * b.extents()[1] <= usize::MAX
            &&& matmul_fits::<N>(
                a.nums(),
                b.nums(),
                a.extents()[0] as int,
                a.extents()[1] as int,
                b.extents()[1] as int,
            )
        },
    ensures
        match r {
            Some(c) => {
                &&& a.extents()[1] == b.extents()[0]
                &&& c.wf()
                &&& c.extents() =~= seq![a.extents()[0], b.extents()[1]]
                &&& forall|i: int, j: int|
                    0 <= i < a.extents()[0] && 0 <= j < b.extents()[1] ==> c.nums()[i * (
                    b.extents()[1] as int) + j] == dot_prefix(
                        a.nums(),
                        b.nums(),
                        a.extents()[1] as int,
                        b.extents()[1] as int,
                        i,
                        j,
                        a.extents()[1] as int,
                    )
            },
            None => a.extents()[1] != b.extents()[0],
        },
{
    let compatible = a.shape()[1] == b.shape()[0];
    if compatible {
        Some(matmul(a, b))
    } else {
        None
    }
}

} // verus!
