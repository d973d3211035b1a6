//! Exact Gram-Schmidt orthogonalization in fraction-free form.
use vstd::prelude::*;
use crate::basis::{basis_view, check_shape, dot, dot_fits, dot_i128, fits, shape_ok, LatticeError};

verus! {

/// Fraction-free Gram-Schmidt. With `d(l)` the Gram determinant of the first
/// `l` columns, `gs_u(b, i, j, l)` is `d(l) * <b_i, b*_j>` after the
/// projections on the first `l` orthogonal directions have been removed:
/// it starts at `<b_i, b_j>` and each step is
/// `u(l + 1) = (d(l + 1) * u(l) - lam(i, l) * lam(j, l)) / d(l)`, rounding
/// down. `gram_schmidt` returns the orthogonal vectors as well and checks,
/// on the values it returns, that these quantities are the Gram-Schmidt
/// lengths and coefficients (see `ortho_props`).
pub open spec fn gs_u(b: Seq<Seq<int>>, i: nat, j: nat, l: nat) -> int
    decreases i, j, l,
{
    if l == 0 || j < l || i < j {
        dot(b[i as int], b[j as int])
    } else {
        let t = (l - 1) as nat;
        let d_next = gs_u(b, t, t, t);
        let d_prev = if t == 0 {
            1
        } else {
            gs_u(b, (t - 1) as nat, (t - 1) as nat, (t - 1) as nat)
        };
        (d_next * gs_u(b, i, j, t) - gs_u(b, i, t, t) * gs_u(b, j, t, t)) / d_prev
    }
}

/// Gram determinant of the first `t` columns: the product of the squared
/// lengths of the first `t` orthogonal vectors.
pub open spec fn gs_d(b: Seq<Seq<int>>, t: nat) -> int {
    if t == 0 {
        1
    } else {
        gs_u(b, (t - 1) as nat, (t - 1) as nat, (t - 1) as nat)
    }
}

/// Scaled projection coefficient: `mu(i, j) = gs_lam(b, i, j) / gs_d(b, j + 1)`.
pub open spec fn gs_lam(b: Seq<Seq<int>>, i: nat, j: nat) -> int {
    gs_u(b, i, j, j)
}

/// One step of the recurrence stays within 128 bits.
pub open spec fn step_fits(b: Seq<Seq<int>>, i: nat, j: nat, l: nat) -> bool {
    let a = gs_d(b, l + 1) * gs_u(b, i, j, l);
    let c = gs_lam(b, i, l) * gs_lam(b, j, l);
    fits(a) && fits(c) && fits(a - c)
}

/// Computing entry `(i, j)` stays within 128 bits.
pub open spec fn entry_ok(b: Seq<Seq<int>>, i: nat, j: nat) -> bool {
    dot_fits(b[i as int], b[j as int]) && forall|l: nat| l < j ==> #[trigger] step_fits(b, i, j, l)
}

/// The Gram-Schmidt data of `b` exists (independent columns) and is
/// computable in 128-bit arithmetic.
pub open spec fn gs_ok(b: Seq<Seq<int>>) -> bool {
    &&& forall|i: nat, j: nat| j <= i < b.len() ==> #[trigger] entry_ok(b, i, j)
    &&& forall|t: nat| 1 <= t <= b.len() ==> #[trigger] gs_d(b, t) > 0
}

/// Every entry of row `i` is computable in 128 bits.
pub open spec fn row_ok(b: Seq<Seq<int>>, i: nat) -> bool {
    forall|j: nat| j <= i ==> #[trigger] entry_ok(b, i, j)
}

/// The rows before `i` are computable and their Gram determinants positive.
pub open spec fn rows_fine(b: Seq<Seq<int>>, i: nat) -> bool {
    forall|r: nat| r < i ==> #[trigger] row_ok(b, r) && gs_d(b, r + 1) > 0
}

/// Why the Gram-Schmidt data of `b` cannot be had, if it cannot: the first
/// row, in order, that fails decides between `Overflow` (an entry leaves 128
/// bits) and `Degenerate` (its Gram determinant is not positive).
pub open spec fn gs_error(b: Seq<Seq<int>>) -> Option<LatticeError> {
    if !shape_ok(b) {
        Some(LatticeError::Dimension)
    } else if exists|i: nat| i < b.len() && #[trigger] rows_fine(b, i) && !row_ok(b, i) {
        Some(LatticeError::Overflow)
    } else if !gs_ok(b) {
        Some(LatticeError::Degenerate)
    } else {
        None
    }
}

/// Fraction-free Gram-Schmidt data of a basis of `n` columns.
pub struct GramData {
    /// `d[t]` is the Gram determinant of the first `t` columns, `t <= n`.
    pub d: Vec<i128>,
    /// `lam[i][j]`, for `j < i`, is `d[j + 1]` times the projection
    /// coefficient of column `i` on orthogonal direction `j`.
    pub lam: Vec<Vec<i128>>,
}

impl GramData {
    /// `d` has one entry more than `lam`, and row `i` of `lam` has `i` entries.
    pub open spec fn wf(&self) -> bool {
        &&& self.d@.len() == self.lam@.len() + 1
        &&& forall|i: int| 0 <= i < self.lam@.len() ==> #[trigger] self.lam@[i]@.len() == i
    }

    /// The projection coefficient `mu(i, j)` as the fraction `(num, den)`.
    pub fn mu(&self, i: usize, j: usize) -> (r: (i128, i128))
        requires
            self.wf(),
            j < i < self.lam@.len(),
        ensures
            r == (self.lam@[i as int]@[j as int], self.d@[j + 1]),
    {
        (self.lam[i][j], self.d[j + 1])
    }

    /// The squared length of orthogonal vector `i` as the fraction `(num, den)`.
    pub fn ortho_norm_sq(&self, i: usize) -> (r: (i128, i128))
        requires
            self.wf(),
            i < self.lam@.len(),
        ensures
            r == (self.d@[i + 1], self.d@[i as int]),
    {
        // the length of `lam` is a usize, so `i + 1` does not overflow
        let rows = self.lam.len();
        assert(i + 1 <= rows);
        (self.d[i + 1], self.d[i])
    }
}

/// `g` holds exactly the Gram-Schmidt data of `b`.
pub open spec fn gram_matches(g: GramData, b: Seq<Seq<int>>) -> bool {
    &&& g.d@.len() == b.len() + 1
    &&& forall|t: int| 0 <= t <= b.len() ==> #[trigger] g.d@[t] == gs_d(b, t as nat)
    &&& g.lam@.len() == b.len()
    &&& forall|i: int| 0 <= i < b.len() ==> #[trigger] g.lam@[i]@.len() == i
    &&& forall|i: int, j: int|
        0 <= j < i < b.len() ==> #[trigger] g.lam@[i]@[j] == gs_lam(b, i as nat, j as nat)
}

pub proof fn lemma_gs_step(b: Seq<Seq<int>>, i: nat, j: nat, l: nat)
    requires
        l < j <= i,
    ensures
        gs_u(b, i, j, l + 1) == (gs_d(b, l + 1) * gs_u(b, i, j, l) - gs_lam(b, i, l) * gs_lam(
            b,
            j,
            l,
        )) / gs_d(b, l),
{
    reveal_with_fuel(gs_u, 2);
}

/// Division rounding toward minus infinity, with the matching remainder.
pub fn floor_div_rem(a: i128, dv: i128) -> (r: (i128, i128))
    requires
        dv > 0,
    ensures
        r.0 as int == a as int / dv as int,
        r.1 as int == a as int % dv as int,
{
    if a >= 0 {
        (a / dv, a % dv)
    } else {
        let p: i128 = -(a + 1);
        let q0: i128 = p / dv;
        let r0: i128 = p % dv;
        proof {
            let ai = a as int;
            let di = dv as int;
            let pi = p as int;
            let qi = q0 as int;
            assert(pi == qi * di + pi % di) by {
                vstd::arithmetic::div_mod::lemma_fundamental_div_mod(pi, di);
            }
            assert(0 <= pi % di < di) by {
                vstd::arithmetic::div_mod::lemma_mod_bound(pi, di);
            }
            let r = di - 1 - pi % di;
            assert(ai == (-qi - 1) * di + r) by (nonlinear_arith)
                requires
                    ai == -pi - 1,
                    pi == qi * di + pi % di,
                    r == di - 1 - pi % di,
            ;
            vstd::arithmetic::div_mod::lemma_fundamental_div_mod_converse(ai, di, -qi - 1, r);
        }
        (-q0 - 1, dv - 1 - r0)
    }
}

/// Computes `gs_u(b, i, j, j)` from the data of the earlier entries.
fn gs_entry(
    basis: &Vec<Vec<i64>>,
    d: &Vec<i128>,
    lam: &Vec<Vec<i128>>,
    row: &Vec<i128>,
    i: usize,
    j: usize,
) -> (r: Result<i128, LatticeError>)
    requires
        ({
            let b = basis_view(basis@);
            &&& shape_ok(b)
            &&& j <= i < b.len()
            &&& d@.len() == i + 1
            &&& forall|t: int| 0 <= t <= i ==> #[trigger] d@[t] == gs_d(b, t as nat)
            &&& forall|t: nat| 1 <= t <= i ==> #[trigger] gs_d(b, t) > 0
            &&& lam@.len() == i
            &&& forall|r: int| 0 <= r < i ==> #[trigger] lam@[r]@.len() == r
            &&& forall|r: int, c: int|
                0 <= c < r < i ==> #[trigger] lam@[r]@[c] == gs_lam(b, r as nat, c as nat)
            &&& row@.len() == j
            &&& forall|c: int| 0 <= c < j ==> #[trigger] row@[c] == gs_lam(b, i as nat, c as nat)
        }),
    ensures
        ({
            let b = basis_view(basis@);
            match r {
                Ok(u) => entry_ok(b, i as nat, j as nat) && u == gs_u(b, i as nat, j as nat, j as nat),
                Err(e) => e == LatticeError::Overflow && !entry_ok(b, i as nat, j as nat),
            }
        }),
{
    let ghost b = basis_view(basis@);
    assert(basis@[i as int]@.len() == basis@[j as int]@.len()) by {
        assert(b[i as int].len() == b[0].len());
        assert(b[j as int].len() == b[0].len());
    }
    assert(b[i as int] == basis@[i as int]@.map_values(|x: i64| x as int));
    assert(b[j as int] == basis@[j as int]@.map_values(|x: i64| x as int));
    let mut u: i128 = match dot_i128(&basis[i], &basis[j]) {
        Some(s) => s,
        None => {
            return Err(LatticeError::Overflow);
        },
    };
    let mut l: usize = 0;
    while l < j
        invariant
            b == basis_view(basis@),
            j <= i < b.len(),
            d@.len() == i + 1,
            forall|t: int| 0 <= t <= i ==> #[trigger] d@[t] == gs_d(b, t as nat),
            forall|t: nat| 1 <= t <= i ==> #[trigger] gs_d(b, t) > 0,
            lam@.len() == i,
            forall|r: int| 0 <= r < i ==> #[trigger] lam@[r]@.len() == r,
            forall|r: int, c: int|
                0 <= c < r < i ==> #[trigger] lam@[r]@[c] == gs_lam(b, r as nat, c as nat),
            row@.len() == j,
            forall|c: int| 0 <= c < j ==> #[trigger] row@[c] == gs_lam(b, i as nat, c as nat),
            l <= j,
            u == gs_u(b, i as nat, j as nat, l as nat),
            dot_fits(b[i as int], b[j as int]),
            forall|s: nat| s < l ==> #[trigger] step_fits(b, i as nat, j as nat, s),
        decreases j - l,
    {
        let li: i128 = row[l];
        let lj: i128 = if j < i {
            lam[j][l]
        } else {
            row[l]
        };
        let dn: i128 = d[l + 1];
        let dp: i128 = d[l];
        assert(dp > 0) by {
            if l > 0 {
                assert(gs_d(b, l as nat) > 0);
            }
        }
        proof {
            lemma_gs_step(b, i as nat, j as nat, l as nat);
        }
        let a = dn.checked_mul(u);
        let c = li.checked_mul(lj);
        if a.is_none() || c.is_none() {
            assert(!step_fits(b, i as nat, j as nat, l as nat));
            return Err(LatticeError::Overflow);
        }
        let a = a.unwrap();
        let c = c.unwrap();
        let diff = match a.checked_sub(c) {
            Some(x) => x,
            None => {
                assert(!step_fits(b, i as nat, j as nat, l as nat));
                return Err(LatticeError::Overflow);
            },
        };
        assert(step_fits(b, i as nat, j as nat, l as nat));
        u = floor_div_rem(diff, dp).0;
        l += 1;
    }
    Ok(u)
}

proof fn lemma_first_bad_row(b: Seq<Seq<int>>, i: nat)
    requires
        shape_ok(b),
        i < b.len(),
        forall|r: nat, c: nat| c <= r < i ==> #[trigger] entry_ok(b, r, c),
        forall|t: nat| 1 <= t <= i ==> #[trigger] gs_d(b, t) > 0,
        !row_ok(b, i),
    ensures
        gs_error(b) == Some(LatticeError::Overflow),
{
    assert forall|r: nat| r < i implies #[trigger] row_ok(b, r) && gs_d(b, r + 1) > 0 by {
        assert forall|c: nat| c <= r implies #[trigger] entry_ok(b, r, c) by {}
        assert(gs_d(b, r + 1) > 0);
    }
    assert(rows_fine(b, i));
}

proof fn lemma_degenerate_row(b: Seq<Seq<int>>, i: nat)
    requires
        shape_ok(b),
        i < b.len(),
        forall|r: nat, c: nat| c <= r < i ==> #[trigger] entry_ok(b, r, c),
        forall|t: nat| 1 <= t <= i ==> #[trigger] gs_d(b, t) > 0,
        row_ok(b, i),
        gs_d(b, i + 1) <= 0,
    ensures
        gs_error(b) == Some(LatticeError::Degenerate),
{
    assert forall|i2: nat| i2 < b.len() && #[trigger] rows_fine(b, i2) implies row_ok(b, i2) by {
        if i2 < i {
            assert forall|c: nat| c <= i2 implies #[trigger] entry_ok(b, i2, c) by {}
        } else if i2 > i {
            assert(row_ok(b, i) && gs_d(b, i + 1) > 0);
        }
    }
    assert(!gs_ok(b)) by {
        assert(1 <= i + 1 <= b.len());
    }
}

pub proof fn lemma_no_bad_row(b: Seq<Seq<int>>)
    requires
        shape_ok(b),
        gs_ok(b),
    ensures
        gs_error(b) is None,
{
    assert forall|i2: nat| i2 < b.len() && #[trigger] rows_fine(b, i2) implies row_ok(b, i2) by {
        assert forall|c: nat| c <= i2 implies #[trigger] entry_ok(b, i2, c) by {}
    }
}

/// The Gram-Schmidt data of the columns of `basis` in exact fraction-free
/// form, without the orthogonal vectors themselves.
///
/// Fails with `Dimension` when the columns are not an m x n matrix with
/// n <= m, with `Degenerate` when the columns are linearly dependent, and with
/// `Overflow` when an intermediate value leaves 128 bits.
pub fn gram_data(basis: &Vec<Vec<i64>>) -> (r: Result<GramData, LatticeError>)
    ensures
        ({
            let b = basis_view(basis@);
            &&& r is Ok <==> shape_ok(b) && gs_ok(b)
            &&& r is Ok ==> gram_matches(r->Ok_0, b) && r->Ok_0.wf()
            &&& match r {
                Ok(_) => gs_error(b) is None,
                Err(e) => gs_error(b) == Some(e),
            }
        }),
{
    let ghost b = basis_view(basis@);
    if !check_shape(basis) {
        return Err(LatticeError::Dimension);
    }
    let n = basis.len();
    let mut d: Vec<i128> = Vec::new();
    d.push(1);
    let mut lam: Vec<Vec<i128>> = Vec::new();
    let mut i: usize = 0;
    while i < n
        invariant
            b == basis_view(basis@),
            shape_ok(b),
            n == b.len(),
            i <= n,
            d@.len() == i + 1,
            forall|t: int| 0 <= t <= i ==> #[trigger] d@[t] == gs_d(b, t as nat),
            forall|t: nat| 1 <= t <= i ==> #[trigger] gs_d(b, t) > 0,
            lam@.len() == i,
            forall|r: int| 0 <= r < i ==> #[trigger] lam@[r]@.len() == r,
            forall|r: int, c: int|
                0 <= c < r < i ==> #[trigger] lam@[r]@[c] == gs_lam(b, r as nat, c as nat),
            forall|r: nat, c: nat| c <= r < i ==> #[trigger] entry_ok(b, r, c),
        decreases n - i,
    {
        let mut row: Vec<i128> = Vec::new();
        let mut j: usize = 0;
        while j < i
            invariant
                b == basis_view(basis@),
                shape_ok(b),
                n == b.len(),
                i < n,
                d@.len() == i + 1,
                forall|t: int| 0 <= t <= i ==> #[trigger] d@[t] == gs_d(b, t as nat),
                forall|t: nat| 1 <= t <= i ==> #[trigger] gs_d(b, t) > 0,
                lam@.len() == i,
                forall|r: int| 0 <= r < i ==> #[trigger] lam@[r]@.len() == r,
                forall|r: int, c: int|
                    0 <= c < r < i ==> #[trigger] lam@[r]@[c] == gs_lam(b, r as nat, c as nat),
                forall|r: nat, c: nat| c <= r < i ==> #[trigger] entry_ok(b, r, c),
                j <= i,
                row@.len() == j,
                forall|c: int| 0 <= c < j ==> #[trigger] row@[c] == gs_lam(b, i as nat, c as nat),
                forall|c: nat| c < j ==> #[trigger] entry_ok(b, i as nat, c),
            decreases i - j,
        {
            let u = match gs_entry(basis, &d, &lam, &row, i, j) {
                Ok(u) => u,
                Err(e) => {
                    proof {
                        lemma_first_bad_row(b, i as nat);
                    }
                    return Err(e);
                },
            };
            row.push(u);
            j += 1;
        }
        let u = match gs_entry(basis, &d, &lam, &row, i, i) {
            Ok(u) => u,
            Err(e) => {
                proof {
                    lemma_first_bad_row(b, i as nat);
                }
                return Err(e);
            },
        };
        if u <= 0 {
            assert(gs_d(b, (i + 1) as nat) <= 0);
            proof {
                assert(row_ok(b, i as nat));
                lemma_degenerate_row(b, i as nat);
            }
            return Err(LatticeError::Degenerate);
        }
        d.push(u);
        lam.push(row);
        assert(gs_d(b, (i + 1) as nat) == u);
        assert(forall|r: nat, c: nat| c <= r < i + 1 ==> #[trigger] entry_ok(b, r, c));
        i += 1;
    }
    let g = GramData { d, lam };
    proof {
        lemma_no_bad_row(b);
    }
    Ok(g)
}

/// Entry `(i, j)` of the Gram-Schmidt data depends on the first `i + 1`
/// columns only.
pub proof fn lemma_gs_prefix(b1: Seq<Seq<int>>, b2: Seq<Seq<int>>, i: nat, j: nat, l: nat)
    requires
        j <= i,
        i < b1.len(),
        i < b2.len(),
        forall|c: int| 0 <= c <= i ==> #[trigger] b1[c] == b2[c],
    ensures
        gs_u(b1, i, j, l) == gs_u(b2, i, j, l),
    decreases i, j, l,
{
    if l == 0 || j < l || i < j {
        assert(b1[i as int] == b2[i as int]);
        assert(b1[j as int] == b2[j as int]);
    } else {
        let t = (l - 1) as nat;
        lemma_gs_prefix(b1, b2, t, t, t);
        if t > 0 {
            lemma_gs_prefix(b1, b2, (t - 1) as nat, (t - 1) as nat, (t - 1) as nat);
        }
        lemma_gs_prefix(b1, b2, i, j, t);
        lemma_gs_prefix(b1, b2, i, t, t);
        lemma_gs_prefix(b1, b2, j, t, t);
    }
}

/// The Gram determinant of the first `t` columns depends on those columns only.
pub proof fn lemma_gs_d_prefix(b1: Seq<Seq<int>>, b2: Seq<Seq<int>>, t: nat)
    requires
        t <= b1.len(),
        t <= b2.len(),
        forall|c: int| 0 <= c < t ==> #[trigger] b1[c] == b2[c],
    ensures
        gs_d(b1, t) == gs_d(b2, t),
{
    if t > 0 {
        lemma_gs_prefix(b1, b2, (t - 1) as nat, (t - 1) as nat, (t - 1) as nat);
    }
}

} // verus!
