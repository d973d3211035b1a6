//! The Hadamard ratio, a measure of how close a basis is to orthogonal.
use vstd::prelude::*;
use crate::basis::{basis_view, check_shape, dot, dot_fits, dot_i128, dot_upto, fits, shape_ok, LatticeError};
use crate::gram::{entry_ok, gram_data, gs_d, gs_error, gs_lam, gs_ok, gs_u, lemma_gs_step};

verus! {

/// The basis is square: as many columns as rows.
pub open spec fn square(b: Seq<Seq<int>>) -> bool {
    shape_ok(b) && (b.len() == 0 || b[0].len() == b.len())
}

/// Product of the squared lengths of the first `t` columns.
pub open spec fn norm_product(b: Seq<Seq<int>>, t: nat) -> int
    decreases t,
{
    if t == 0 {
        1
    } else {
        norm_product(b, (t - 1) as nat) * dot(b[t - 1], b[t - 1])
    }
}

pub open spec fn norm_product_fits(b: Seq<Seq<int>>) -> bool {
    forall|t: nat| t <= b.len() ==> fits(#[trigger] norm_product(b, t))
}

/// Why the Hadamard ratio of `b` cannot be had, if it cannot.
pub open spec fn hadamard_error(b: Seq<Seq<int>>) -> Option<LatticeError> {
    if !square(b) {
        Some(LatticeError::Dimension)
    } else if gs_error(b) is Some {
        gs_error(b)
    } else if !norm_product_fits(b) {
        Some(LatticeError::Overflow)
    } else {
        None
    }
}

/// The Hadamard ratio `H` of an n x n basis as an exact fraction of its
/// `2n`-th power: `H^(2n) = num / den`, where `num = det(B)^2` (the Gram
/// determinant, equal to the squared determinant of the orthogonal basis) and
/// `den` is the product of the squared column lengths.
pub struct HadamardPower {
    pub num: i128,
    pub den: i128,
}

proof fn lemma_dot_self_nonneg(u: Seq<int>, t: nat)
    requires
        t <= u.len(),
    ensures
        dot_upto(u, u, t) >= 0,
    decreases t,
{
    if t > 0 {
        lemma_dot_self_nonneg(u, (t - 1) as nat);
        let x = u[t - 1];
        assert(x * x >= 0) by (nonlinear_arith);
    }
}

/// A vector with zero squared length has only zero entries before `t`.
proof fn lemma_dot_zero(u: Seq<int>, v: Seq<int>, t: nat)
    requires
        t <= u.len(),
        forall|s: int| 0 <= s < t ==> #[trigger] u[s] == 0,
    ensures
        dot_upto(u, v, t) == 0,
    decreases t,
{
    if t > 0 {
        lemma_dot_zero(u, v, (t - 1) as nat);
    }
}

proof fn lemma_dot_self_zero(u: Seq<int>, t: nat)
    requires
        t <= u.len(),
        dot_upto(u, u, t) == 0,
    ensures
        forall|s: int| 0 <= s < t ==> #[trigger] u[s] == 0,
    decreases t,
{
    if t > 0 {
        lemma_dot_self_nonneg(u, (t - 1) as nat);
        let x = u[t - 1];
        assert(x * x >= 0) by (nonlinear_arith);
        assert(x == 0) by (nonlinear_arith)
            requires
                x * x <= 0,
        ;
        lemma_dot_self_zero(u, (t - 1) as nat);
    }
}

/// Every Gram-Schmidt quantity that involves a zero column `i` is zero.
proof fn lemma_gs_zero_column(b: Seq<Seq<int>>, i: nat, j: nat, l: nat)
    requires
        j <= i < b.len(),
        shape_ok(b),
        forall|s: int| 0 <= s < b[i as int].len() ==> #[trigger] b[i as int][s] == 0,
        forall|t: nat| 1 <= t <= b.len() ==> #[trigger] gs_d(b, t) > 0,
    ensures
        gs_u(b, i, j, l) == 0,
    decreases j, l,
{
    if l == 0 || j < l {
        lemma_dot_zero(b[i as int], b[j as int], b[i as int].len());
    } else {
        let t = (l - 1) as nat;
        lemma_gs_zero_column(b, i, j, t);
        lemma_gs_zero_column(b, i, t, t);
        let d_prev = if t == 0 {
            1
        } else {
            gs_u(b, (t - 1) as nat, (t - 1) as nat, (t - 1) as nat)
        };
        let x = gs_u(b, t, t, t);
        let y = gs_u(b, j, t, t);
        assert(x * 0 - 0 * y == 0) by (nonlinear_arith);
        if t > 0 {
            assert(gs_d(b, t) > 0);
        }
        assert(d_prev > 0);
        assert(gs_u(b, i, j, l) == (x * gs_u(b, i, j, t) - gs_u(b, i, t, t) * y) / d_prev);
        assert(0int / d_prev == 0);
    }
}

/// `u(i, i, l) <= d(l) * |b_i|^2`: removing projections never lengthens a
/// vector (the rounding of the fraction-free division only lowers `u`).
proof fn lemma_u_bound(b: Seq<Seq<int>>, i: nat, l: nat)
    requires
        gs_ok(b),
        l <= i < b.len(),
    ensures
        gs_u(b, i, i, l) <= gs_d(b, l) * dot(b[i as int], b[i as int]),
    decreases l,
{
    let big = dot(b[i as int], b[i as int]);
    if l > 0 {
        let t = (l - 1) as nat;
        lemma_u_bound(b, i, t);
        lemma_gs_step(b, i, i, t);
        let dn = gs_d(b, l);
        let dp = gs_d(b, t);
        assert(dn > 0);
        assert(dp > 0) by {
            if t > 0 {
                assert(gs_d(b, t) > 0);
            }
        }
        let u = gs_u(b, i, i, t);
        let lam = gs_lam(b, i, t);
        let x = dn * u - lam * lam;
        let u2 = gs_u(b, i, i, l);
        assert(u2 == x / dp);
        vstd::arithmetic::div_mod::lemma_fundamental_div_mod(x, dp);
        vstd::arithmetic::div_mod::lemma_mod_bound(x, dp);
        assert(dp * u2 <= x);
        assert(lam * lam >= 0) by (nonlinear_arith);
        assert(dn * u <= dn * (dp * big)) by (nonlinear_arith)
            requires
                u <= dp * big,
                dn > 0,
        ;
        assert(u2 <= dn * big) by (nonlinear_arith)
            requires
                dp * u2 <= dn * u - lam * lam,
                lam * lam >= 0,
                dn * u <= dn * (dp * big),
                dp > 0,
        ;
    } else {
    }
}

/// Hadamard's inequality: the Gram determinant of the first `t` columns is at
/// most the product of their squared lengths.
proof fn lemma_d_bound(b: Seq<Seq<int>>, t: nat)
    requires
        gs_ok(b),
        t <= b.len(),
    ensures
        gs_d(b, t) <= norm_product(b, t),
    decreases t,
{
    if t > 0 {
        let s = (t - 1) as nat;
        lemma_d_bound(b, s);
        lemma_u_bound(b, s, s);
        lemma_dot_self_nonneg(b[s as int], b[s as int].len());
        let big = dot(b[s as int], b[s as int]);
        assert(gs_d(b, s) * big <= norm_product(b, s) * big) by (nonlinear_arith)
            requires
                gs_d(b, s) <= norm_product(b, s),
                big >= 0,
        ;
    }
}

/// The columns are pairwise orthogonal.
pub open spec fn pairwise_orthogonal(b: Seq<Seq<int>>) -> bool {
    forall|i: int, j: int|
        0 <= i < b.len() && 0 <= j < b.len() && i != j ==> #[trigger] dot(b[i], b[j]) == 0
}

/// For orthogonal columns every scaled projection coefficient is zero.
pub proof fn lemma_orthogonal_lam(b: Seq<Seq<int>>, i: nat, j: nat, l: nat)
    requires
        gs_ok(b),
        pairwise_orthogonal(b),
        j < i < b.len(),
        l <= j,
    ensures
        gs_u(b, i, j, l) == 0,
    decreases j, l,
{
    if l > 0 {
        let t = (l - 1) as nat;
        lemma_orthogonal_lam(b, i, j, t);
        lemma_orthogonal_lam(b, i, t, t);
        lemma_gs_step(b, i, j, t);
        let dn = gs_d(b, l);
        let dp = gs_d(b, t);
        assert(dp > 0) by {
            if t > 0 {
                assert(gs_d(b, t) > 0);
            }
        }
        let y = gs_lam(b, j, t);
        assert(dn * 0 - 0 * y == 0) by (nonlinear_arith);
        assert(0int / dp == 0);
    } else {
        assert(dot(b[i as int], b[j as int]) == 0);
    }
}

/// For orthogonal columns `u(i, i, l) = d(l) * |b_i|^2` exactly.
pub proof fn lemma_orthogonal_u(b: Seq<Seq<int>>, i: nat, l: nat)
    requires
        gs_ok(b),
        pairwise_orthogonal(b),
        l <= i < b.len(),
    ensures
        gs_u(b, i, i, l) == gs_d(b, l) * dot(b[i as int], b[i as int]),
    decreases l,
{
    if l > 0 {
        let t = (l - 1) as nat;
        lemma_orthogonal_u(b, i, t);
        lemma_orthogonal_lam(b, i, t, t);
        lemma_gs_step(b, i, i, t);
        let dn = gs_d(b, l);
        let dp = gs_d(b, t);
        assert(dp > 0) by {
            if t > 0 {
                assert(gs_d(b, t) > 0);
            }
        }
        let big = dot(b[i as int], b[i as int]);
        assert(dn * (dp * big) - 0 * 0 == dp * (dn * big)) by (nonlinear_arith);
        vstd::arithmetic::div_mod::lemma_div_multiples_vanish(dn * big, dp);
    }
}

/// For a square basis with linearly independent columns,
/// `0 < det(B)^2 <= product of the squared column lengths`: the Hadamard
/// ratio lies in (0, 1].
pub proof fn lemma_hadamard_bounds(b: Seq<Seq<int>>)
    requires
        square(b),
        gs_ok(b),
    ensures
        0 < gs_d(b, b.len()) <= norm_product(b, b.len()),
{
    lemma_d_bound(b, b.len());
    if b.len() > 0 {
        assert(gs_d(b, b.len()) > 0);
    }
}

pub proof fn lemma_orthogonal_d(b: Seq<Seq<int>>, t: nat)
    requires
        gs_ok(b),
        pairwise_orthogonal(b),
        t <= b.len(),
    ensures
        gs_d(b, t) == norm_product(b, t),
    decreases t,
{
    if t > 0 {
        let s = (t - 1) as nat;
        lemma_orthogonal_d(b, s);
        lemma_orthogonal_u(b, s, s);
    }
}

/// Pairwise orthogonal columns have Hadamard ratio exactly 1, whatever
/// their lengths.
pub proof fn lemma_hadamard_orthogonal(b: Seq<Seq<int>>)
    requires
        gs_ok(b),
        pairwise_orthogonal(b),
    ensures
        gs_d(b, b.len()) == norm_product(b, b.len()),
{
    lemma_orthogonal_d(b, b.len());
}

/// The Hadamard ratio of a square basis, as `H^(2n)` in exact form.
///
/// Fails with `Dimension` when the basis is not square, with `Degenerate`
/// when its columns are linearly dependent, and with `Overflow` when an
/// intermediate value leaves 128 bits.
pub fn hadamard_ratio_power(basis: &Vec<Vec<i64>>) -> (r: Result<HadamardPower, LatticeError>)
    ensures
        ({
            let b = basis_view(basis@);
            &&& r is Ok <==> square(b) && gs_ok(b) && norm_product_fits(b)
            &&& r is Ok ==> r->Ok_0.num == gs_d(b, b.len()) && r->Ok_0.den == norm_product(b, b.len())
            &&& r is Ok ==> 0 < r->Ok_0.num <= r->Ok_0.den
            &&& match r {
                Ok(_) => hadamard_error(b) is None,
                Err(e) => hadamard_error(b) == Some(e),
            }
        }),
{
    let ghost b = basis_view(basis@);
    if !check_shape(basis) {
        return Err(LatticeError::Dimension);
    }
    let n = basis.len();
    if n > 0 && basis[0].len() != n {
        return Err(LatticeError::Dimension);
    }
    let g = match gram_data(basis) {
        Ok(g) => g,
        Err(e) => {
            return Err(e);
        },
    };
    let mut den: i128 = 1;
    let mut i: usize = 0;
    while i < n
        invariant
            b == basis_view(basis@),
            square(b),
            gs_ok(b),
            n == b.len(),
            i <= n,
            den == norm_product(b, i as nat),
            den > 0,
            forall|t: nat| t <= i ==> fits(#[trigger] norm_product(b, t)),
        decreases n - i,
    {
        assert(entry_ok(b, i as nat, i as nat));
        assert(b[i as int] == basis@[i as int]@.map_values(|x: i64| x as int));
        let s = match dot_i128(&basis[i], &basis[i]) {
            Some(s) => s,
            None => {
                assert(false);
                return Err(LatticeError::Overflow);
            },
        };
        proof {
            lemma_dot_self_nonneg(b[i as int], b[i as int].len());
            if s == 0 {
                lemma_dot_self_zero(b[i as int], b[i as int].len());
                lemma_gs_zero_column(b, i as nat, i as nat, i as nat);
                assert(gs_d(b, (i + 1) as nat) > 0);
            }
        }
        den = match den.checked_mul(s) {
            Some(x) => x,
            None => {
                assert(!fits(norm_product(b, (i + 1) as nat)));
                return Err(LatticeError::Overflow);
            },
        };
        assert(den > 0) by (nonlinear_arith)
            requires
                den == norm_product(b, i as nat) * s,
                norm_product(b, i as nat) > 0,
                s > 0,
        ;
        i += 1;
    }
    let num = g.d[n];
    proof {
        lemma_hadamard_bounds(b);
    }
    Ok(HadamardPower { num, den })
}

} // verus!
