//! Bases as lists of integer columns, their mathematical view, and inner products.
use vstd::prelude::*;

verus! {

/// Why a computation on a basis could not be completed.
#[derive(Debug, Clone, Copy, PartialEq, Eq, Structural)]
pub enum LatticeError {
    /// The columns have different lengths, or there are more columns than rows
    /// (or, for the Hadamard ratio, the basis is not square).
    Dimension,
    /// The columns are linearly dependent: a Gram determinant is not positive.
    Degenerate,
    /// An intermediate value does not fit in 128 bits (or a column entry in 64).
    Overflow,
    /// The Lovász parameter is not in (1/4, 1].
    InvalidDelta,
    /// The reduction did not finish within the allowed number of steps.
    StepLimit,
    /// A fraction-free division of the orthogonal vectors left a remainder,
    /// or the vectors failed their Gram-Schmidt identities. Exact arithmetic
    /// on independent columns rules this out; it is checked, not assumed.
    Inexact,
}

/// The mathematical value of a basis: its columns as sequences of integers.
pub open spec fn basis_view(b: Seq<Vec<i64>>) -> Seq<Seq<int>> {
    b.map_values(|c: Vec<i64>| c@.map_values(|x: i64| x as int))
}

/// Every column has as many entries as the first, and there are no more
/// columns than rows.
pub open spec fn shape_ok(b: Seq<Seq<int>>) -> bool {
    b.len() == 0 || ((forall|i: int| 0 <= i < b.len() ==> #[trigger] b[i].len() == b[0].len())
        && b.len() <= b[0].len())
}

/// Sum of `u[s] * v[s]` over the first `t` positions.
pub open spec fn dot_upto(u: Seq<int>, v: Seq<int>, t: nat) -> int
    decreases t,
{
    if t == 0 {
        0
    } else {
        dot_upto(u, v, (t - 1) as nat) + u[t - 1] * v[t - 1]
    }
}

/// Inner product of two vectors of equal length.
pub open spec fn dot(u: Seq<int>, v: Seq<int>) -> int {
    dot_upto(u, v, u.len())
}

pub open spec fn fits(x: int) -> bool {
    i128::MIN <= x <= i128::MAX
}

/// Every partial sum of the inner product fits in 128 bits.
pub open spec fn dot_fits(u: Seq<int>, v: Seq<int>) -> bool {
    forall|t: nat| t <= u.len() ==> fits(#[trigger] dot_upto(u, v, t))
}

proof fn lemma_i64_product(x: i64, y: i64)
    ensures
        -0x4000_0000_0000_0000_0000_0000_0000_0000 <= (x as int) * (y as int)
            <= 0x4000_0000_0000_0000_0000_0000_0000_0000,
{
    let a = x as int;
    let b = y as int;
    assert(-0x8000_0000_0000_0000 <= a <= 0x8000_0000_0000_0000);
    assert(-0x8000_0000_0000_0000 <= b <= 0x8000_0000_0000_0000);
    assert(-0x4000_0000_0000_0000_0000_0000_0000_0000 <= a * b
        <= 0x4000_0000_0000_0000_0000_0000_0000_0000) by (nonlinear_arith)
        requires
            -0x8000_0000_0000_0000 <= a <= 0x8000_0000_0000_0000,
            -0x8000_0000_0000_0000 <= b <= 0x8000_0000_0000_0000,
    ;
}

/// Checks that the columns form an m x n matrix with n <= m.
pub fn check_shape(b: &Vec<Vec<i64>>) -> (r: bool)
    ensures
        r == shape_ok(basis_view(b@)),
{
    let n = b.len();
    if n == 0 {
        return true;
    }
    let m = b[0].len();
    let mut i: usize = 0;
    while i < n
        invariant
            n == b@.len(),
            0 < n,
            m == b@[0]@.len(),
            i <= n,
            forall|k: int| 0 <= k < i ==> #[trigger] b@[k]@.len() == m,
        decreases n - i,
    {
        if b[i].len() != m {
            assert(basis_view(b@)[i as int].len() != basis_view(b@)[0].len());
            return false;
        }
        i += 1;
    }
    let ghost bv = basis_view(b@);
    assert forall|k: int| 0 <= k < bv.len() implies #[trigger] bv[k].len() == bv[0].len() by {
        assert(b@[k]@.len() == m);
    }
    n <= m
}

/// Inner product of two columns, or `None` when a partial sum leaves 128 bits.
pub fn dot_i128(u: &Vec<i64>, v: &Vec<i64>) -> (r: Option<i128>)
    requires
        u@.len() == v@.len(),
    ensures
        ({
            let uu = u@.map_values(|x: i64| x as int);
            let vv = v@.map_values(|x: i64| x as int);
            match r {
                Some(s) => dot_fits(uu, vv) && s == dot(uu, vv),
                None => !dot_fits(uu, vv),
            }
        }),
{
    let ghost uu = u@.map_values(|x: i64| x as int);
    let ghost vv = v@.map_values(|x: i64| x as int);
    let mut acc: i128 = 0;
    let mut t: usize = 0;
    while t < u.len()
        invariant
            u@.len() == v@.len(),
            uu == u@.map_values(|x: i64| x as int),
            vv == v@.map_values(|x: i64| x as int),
            t <= u@.len(),
            acc == dot_upto(uu, vv, t as nat),
            forall|s: nat| s <= t ==> fits(#[trigger] dot_upto(uu, vv, s)),
        decreases u@.len() - t,
    {
        proof {
            lemma_i64_product(u[t as int], v[t as int]);
        }
        let p: i128 = (u[t] as i128) * (v[t] as i128);
        assert(dot_upto(uu, vv, (t + 1) as nat) == acc + p);
        match acc.checked_add(p) {
            Some(s) => {
                acc = s;
            },
            None => {
                assert(!fits(dot_upto(uu, vv, (t + 1) as nat)));
                return None;
            },
        }
        t += 1;
    }
    Some(acc)
}

} // verus!
