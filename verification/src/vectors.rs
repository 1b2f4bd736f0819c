//! Exact vector arithmetic over fixed-point components.
//!
//! A vector is a sequence of `i64` components in a fixed-point scale chosen by
//! the caller (the deployment multiplies real-valued embedding components by a
//! constant scale before they enter the engine). The centroid of a non-empty
//! family of equal-dimension vectors is the elementwise arithmetic mean, with
//! the quotient truncated toward zero.

use vstd::prelude::*;
use vstd::arithmetic::div_mod::{lemma_div_by_multiple, lemma_div_is_ordered, lemma_div_pos_is_pos};

verus! {

/// Failure cases of centroid aggregation: an empty family has no centroid
/// ("no result"), and a family of disagreeing dimensions is rejected outright.
#[derive(Clone, Copy, Debug, PartialEq, Eq, Structural)]
pub enum CentroidError {
    EmptyInput,
    DimensionMismatch,
}

/// The views of a sequence of vectors.
pub open spec fn seq_views(vs: Seq<Vec<i64>>) -> Seq<Seq<i64>> {
    vs.map_values(|v: Vec<i64>| v@)
}

/// Every vector in the family has dimension `d`.
pub open spec fn all_dims(vs: Seq<Seq<i64>>, d: nat) -> bool {
    forall|i: int| 0 <= i < vs.len() ==> (#[trigger] vs[i]).len() == d
}

/// Sum of column `j` over the family.
pub open spec fn col_sum(vs: Seq<Seq<i64>>, j: int) -> int
    decreases vs.len(),
{
    if vs.len() == 0 {
        0
    } else {
        col_sum(vs.drop_last(), j) + vs.last()[j]
    }
}

/// Integer division truncated toward zero, for a positive divisor.
pub open spec fn div_trunc(a: int, n: int) -> int {
    if a >= 0 {
        a / n
    } else {
        -((-a) / n)
    }
}

/// Component `j` of the centroid: the truncated mean of column `j`.
pub open spec fn centroid_val(vs: Seq<Seq<i64>>, j: int) -> int {
    div_trunc(col_sum(vs, j), vs.len() as int)
}

/// Extending a prefix by one vector adds that vector's component to the sum.
pub proof fn lemma_col_sum_take_step(vs: Seq<Seq<i64>>, i: int, j: int)
    requires
        0 <= i < vs.len(),
    ensures
        col_sum(vs.take(i + 1), j) == col_sum(vs.take(i), j) + vs[i][j],
{
    assert(vs.take(i + 1).drop_last() =~= vs.take(i));
    assert(vs.take(i + 1).last() == vs[i]);
}

/// Truncated mean of a column sum. A sum over `n` vectors of `i64`
/// components lies between `n * i64::MIN` and `n * i64::MAX`, so the mean
/// always fits an `i64`.
fn mean_of_sum(s: i128, n: i128) -> (q: i64)
    requires
        1 <= n <= 0xffff_ffff_ffff_ffff,
        n * (-0x8000_0000_0000_0000) <= s <= n * 0x7fff_ffff_ffff_ffff,
    ensures
        q == div_trunc(s as int, n as int),
{
    if s >= 0 {
        let q: i128 = s / n;
        proof {
            lemma_div_pos_is_pos(s as int, n as int);
            lemma_div_is_ordered(s as int, n * 0x7fff_ffff_ffff_ffff, n as int);
            lemma_div_by_multiple(0x7fff_ffff_ffff_ffff, n as int);
        }
        q as i64
    } else {
        let m: i128 = -s;
        let q: i128 = m / n;
        proof {
            lemma_div_pos_is_pos(m as int, n as int);
            lemma_div_is_ordered(m as int, n * 0x8000_0000_0000_0000, n as int);
            lemma_div_by_multiple(0x8000_0000_0000_0000, n as int);
        }
        let r: i128 = -q;
        r as i64
    }
}

/// The elementwise arithmetic mean of a family of equal-dimension vectors,
/// truncated toward zero. An empty family yields `EmptyInput` (no degenerate
/// vector); a family whose dimensions disagree with the first vector's yields
/// `DimensionMismatch`, never a truncated or padded vector.
#[verifier::loop_isolation(false)]
pub fn compute_centroid(vectors: &Vec<Vec<i64>>) -> (r: Result<Vec<i64>, CentroidError>)
    ensures
        (r == Err::<Vec<i64>, CentroidError>(CentroidError::EmptyInput)) <==> vectors@.len() == 0,
        (r == Err::<Vec<i64>, CentroidError>(CentroidError::DimensionMismatch)) <==> (
            vectors@.len() > 0 && !all_dims(seq_views(vectors@), vectors@[0]@.len() as nat)),
        r is Ok <==> (vectors@.len() > 0 && all_dims(seq_views(vectors@), vectors@[0]@.len() as nat)),
        r matches Ok(c) ==> {
            &&& c@.len() == vectors@[0]@.len()
            &&& forall|j: int| 0 <= j < c@.len() ==> c@[j] == centroid_val(seq_views(vectors@), j)
        },
{
    let n = vectors.len();
    if n == 0 {
        return Err(CentroidError::EmptyInput);
    }
    let dim = vectors[0].len();
    let ghost views = seq_views(vectors@);

    let mut i: usize = 0;
    while i < n
        invariant
            0 < n == vectors@.len(),
            i <= n,
            dim == vectors@[0]@.len(),
            views == seq_views(vectors@),
            forall|k: int| 0 <= k < i ==> (#[trigger] views[k]).len() == dim,
        decreases n - i,
    {
        if vectors[i].len() != dim {
            proof {
                assert(views[i as int] == vectors@[i as int]@);
                assert(!all_dims(views, dim as nat));
            }
            return Err(CentroidError::DimensionMismatch);
        }
        proof {
            assert(views[i as int] == vectors@[i as int]@);
        }
        i += 1;
    }
    assert(all_dims(views, dim as nat));

    let mut centroid: Vec<i64> = Vec::new();
    let mut j: usize = 0;
    while j < dim
        invariant
            0 < n == vectors@.len() <= 0xffff_ffff_ffff_ffff,
            j <= dim,
            dim == vectors@[0]@.len(),
            views == seq_views(vectors@),
            all_dims(views, dim as nat),
            centroid@.len() == j,
            forall|jj: int| 0 <= jj < j ==> centroid@[jj] == centroid_val(views, jj),
        decreases dim - j,
    {
        let mut s: i128 = 0;
        let mut i: usize = 0;
        while i < n
            invariant
                0 < n == vectors@.len() <= 0xffff_ffff_ffff_ffff,
                i <= n,
                j < dim == vectors@[0]@.len(),
                views == seq_views(vectors@),
                all_dims(views, dim as nat),
                s == col_sum(views.take(i as int), j as int),
                i * (-0x8000_0000_0000_0000) <= s <= i * 0x7fff_ffff_ffff_ffff,
            decreases n - i,
        {
            proof {
                assert(views[i as int] == vectors@[i as int]@);
                assert(vectors@[i as int]@.len() == dim);
            }
            let x: i64 = vectors[i][j];
            proof {
                lemma_col_sum_take_step(views, i as int, j as int);
            }
            s = s + (x as i128);
            i += 1;
        }
        proof {
            assert(views.take(n as int) =~= views);
        }
        let m = mean_of_sum(s, n as i128);
        centroid.push(m);
        j += 1;
    }
    Ok(centroid)
}

} // verus!
