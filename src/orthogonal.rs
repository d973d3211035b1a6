//! Gram-Schmidt orthogonalization with the orthogonal vectors.
use vstd::prelude::*;
use crate::basis::{basis_view, dot, dot_upto, fits, shape_ok, LatticeError};
use crate::gram::{floor_div_rem, gram_data, gram_matches, gs_d, gs_error, gs_lam, gs_ok, GramData};
use crate::hadamard::{
    lemma_orthogonal_d, lemma_orthogonal_lam, lemma_orthogonal_u, norm_product, pairwise_orthogonal,
};

verus! {

pub open spec fn ivec(v: Seq<i128>) -> Seq<int> {
    v.map_values(|x: i128| x as int)
}

pub open spec fn ortho_view(o: Seq<Vec<i128>>) -> Seq<Seq<int>> {
    o.map_values(|c: Vec<i128>| ivec(c@))
}

/// `<b_i, o_j>` for Gram-Schmidt vectors `o_j = d(j) * b*_j`: the scaled
/// coefficient `lam(i, j)` below the diagonal, `d(i + 1)` on it (as
/// `<b_i, b*_i> = |b*_i|^2`), and zero above it.
pub open spec fn coef_expect(b: Seq<Seq<int>>, i: nat, j: nat) -> int {
    if j < i {
        gs_lam(b, i, j)
    } else if j == i {
        gs_d(b, i + 1)
    } else {
        0
    }
}

/// `<o_i, o_j>`: zero for `i != j`, and `d(j) * d(j + 1)` for `i == j`
/// (as `|b*_j|^2 = d(j + 1) / d(j)`).
pub open spec fn ortho_expect(b: Seq<Seq<int>>, i: nat, j: nat) -> int {
    if i == j {
        gs_d(b, j) * gs_d(b, j + 1)
    } else {
        0
    }
}

/// `o` holds the orthogonal vectors `o_j = d(j) * b*_j` of `b`, one per
/// column and of the columns' length: `o_0 = b_0`, the vectors are pairwise
/// orthogonal with `|o_j|^2 = d(j) d(j + 1)`, and each column's inner
/// products with them are those of `coef_expect`. So
/// `mu(i, j) = <b_i, o_j> / |o_j|^2 * d(j) = lam(i, j) / d(j + 1)`, and each
/// column `b_i` has component `o_i / d(i)` along `o_i`, component
/// `mu(i, j) * o_j / d(j)` along each earlier `o_j`, and none along the later.
pub open spec fn ortho_props(b: Seq<Seq<int>>, o: Seq<Seq<int>>) -> bool {
    &&& o.len() == b.len()
    &&& forall|i: int| 0 <= i < b.len() ==> #[trigger] o[i].len() == b[i].len()
    &&& b.len() > 0 ==> o[0] == b[0]
    &&& forall|i: nat, j: nat|
        i < b.len() && j < b.len() ==> #[trigger] dot(b[i as int], o[j as int]) == coef_expect(
            b,
            i,
            j,
        )
    &&& forall|i: nat, j: nat|
        i < b.len() && j < b.len() ==> #[trigger] dot(o[i as int], o[j as int]) == ortho_expect(
            b,
            i,
            j,
        )
}

/// Gram-Schmidt data together with the orthogonal vectors.
pub struct GramSchmidt {
    pub gram: GramData,
    /// `ortho[j] = d(j) * b*_j`, an integer vector.
    pub ortho: Vec<Vec<i128>>,
}

fn widen(c: &Vec<i64>) -> (r: Vec<i128>)
    ensures
        ivec(r@) == c@.map_values(|x: i64| x as int),
{
    let mut r: Vec<i128> = Vec::new();
    let mut t: usize = 0;
    while t < c.len()
        invariant
            t <= c@.len(),
            r@.len() == t,
            forall|s: int| 0 <= s < t ==> #[trigger] r@[s] as int == c@[s] as int,
        decreases c@.len() - t,
    {
        r.push(c[t] as i128);
        t += 1;
    }
    assert(ivec(r@) =~= c@.map_values(|x: i64| x as int));
    r
}

/// Entry `s` of the fraction-free vector `v(i, l) = d(l) * b_i^(l)`, where
/// `b_i^(l)` is `b_i` less its projections on the first `l` orthogonal
/// directions: it starts at `b_i` and each step is
/// `v(l + 1) = (d(l + 1) * v(l) - lam(i, l) * v(l, l)) / d(l)`, rounding down.
pub open spec fn gs_ve(b: Seq<Seq<int>>, i: nat, l: nat, s: nat) -> int
    decreases i, l,
{
    if l == 0 || i < l {
        b[i as int][s as int]
    } else {
        let t = (l - 1) as nat;
        (gs_d(b, l) * gs_ve(b, i, t, s) - gs_lam(b, i, t) * gs_ve(b, t, t, s)) / gs_d(b, t)
    }
}

/// The orthogonal vector `o_i = v(i, i)`.
pub open spec fn gs_ortho(b: Seq<Seq<int>>, i: nat) -> Seq<int> {
    Seq::new(b[i as int].len(), |s: int| gs_ve(b, i, i, s as nat))
}

/// All orthogonal vectors of `b`.
pub open spec fn ortho_spec(b: Seq<Seq<int>>) -> Seq<Seq<int>> {
    Seq::new(b.len(), |i: int| gs_ortho(b, i as nat))
}

/// One step of the vector recurrence stays within 128 bits.
pub open spec fn vstep_fits(b: Seq<Seq<int>>, i: nat, l: nat, s: nat) -> bool {
    let a = gs_d(b, l + 1) * gs_ve(b, i, l, s);
    let c = gs_lam(b, i, l) * gs_ve(b, l, l, s);
    fits(a) && fits(c) && fits(a - c)
}

/// Every step of every orthogonal vector stays within 128 bits.
pub open spec fn vec_fits(b: Seq<Seq<int>>) -> bool {
    forall|i: nat, l: nat, s: nat|
        l < i < b.len() && s < b[i as int].len() ==> #[trigger] vstep_fits(b, i, l, s)
}

/// Every product and partial sum of `<u, v>` fits in 128 bits.
pub open spec fn wide_dot_fits(u: Seq<int>, v: Seq<int>) -> bool {
    forall|t: nat| t < u.len() ==> fits(#[trigger] (u[t as int] * v[t as int])) && fits(
        dot_upto(u, v, t + 1),
    )
}

/// `<b_i, o_j>` and `<o_i, o_j>` can be computed in 128 bits.
pub open spec fn pair_fits(b: Seq<Seq<int>>, o: Seq<Seq<int>>, i: nat, j: nat) -> bool {
    wide_dot_fits(b[i as int], o[j as int]) && wide_dot_fits(o[i as int], o[j as int])
}

/// The inner products that `gram_schmidt` checks, and the squared lengths it
/// compares them with, fit in 128 bits.
pub open spec fn dots_fit(b: Seq<Seq<int>>) -> bool {
    let o = ortho_spec(b);
    &&& forall|i: nat, j: nat| i < b.len() && j < b.len() ==> #[trigger] pair_fits(b, o, i, j)
    &&& forall|j: nat| j < b.len() ==> fits(#[trigger] (gs_d(b, j) * gs_d(b, j + 1)))
}

/// Inner product of two 128-bit vectors, or `None` when a product or partial
/// sum leaves 128 bits.
pub fn dot_wide(u: &Vec<i128>, v: &Vec<i128>) -> (r: Option<i128>)
    requires
        u@.len() == v@.len(),
    ensures
        r is Some <==> wide_dot_fits(ivec(u@), ivec(v@)),
        r matches Some(s) ==> s == dot(ivec(u@), ivec(v@)),
{
    let ghost uu = ivec(u@);
    let ghost vv = ivec(v@);
    let mut acc: i128 = 0;
    let mut t: usize = 0;
    while t < u.len()
        invariant
            u@.len() == v@.len(),
            uu == ivec(u@),
            vv == ivec(v@),
            t <= u@.len(),
            acc == dot_upto(uu, vv, t as nat),
            forall|k: nat| k < t ==> fits(#[trigger] (uu[k as int] * vv[k as int])) && fits(
                dot_upto(uu, vv, k + 1),
            ),
        decreases u@.len() - t,
    {
        assert(uu[t as int] == u@[t as int] as int && vv[t as int] == v@[t as int] as int);
        let p = match u[t].checked_mul(v[t]) {
            Some(p) => p,
            None => {
                assert(!fits(uu[t as int] * vv[t as int]));
                return None;
            },
        };
        assert(dot_upto(uu, vv, (t + 1) as nat) == acc + p);
        acc = match acc.checked_add(p) {
            Some(x) => x,
            None => {
                assert(!fits(dot_upto(uu, vv, (t + 1) as nat)));
                return None;
            },
        };
        t += 1;
    }
    Some(acc)
}

proof fn lemma_ve_step(b: Seq<Seq<int>>, i: nat, l: nat, s: nat)
    requires
        l < i,
    ensures
        gs_ve(b, i, l + 1, s) == (gs_d(b, l + 1) * gs_ve(b, i, l, s) - gs_lam(b, i, l) * gs_ve(
            b,
            l,
            l,
            s,
        )) / gs_d(b, l),
{
    reveal_with_fuel(gs_ve, 2);
}

/// `c * u`, entry by entry.
pub open spec fn scale(c: int, u: Seq<int>) -> Seq<int> {
    Seq::new(u.len(), |s: int| c * u[s])
}

proof fn lemma_dot_scale(c: int, e: int, u: Seq<int>, v: Seq<int>, t: nat)
    requires
        t <= u.len(),
        t <= v.len(),
    ensures
        dot_upto(scale(c, u), scale(e, v), t) == c * e * dot_upto(u, v, t),
    decreases t,
{
    if t > 0 {
        lemma_dot_scale(c, e, u, v, (t - 1) as nat);
        let x = u[t - 1];
        let y = v[t - 1];
        let p = dot_upto(u, v, (t - 1) as nat);
        assert(c * e * p + (c * x) * (e * y) == c * e * (p + x * y)) by (nonlinear_arith);
    }
}

/// For pairwise orthogonal columns, `v(i, l) = d(l) * b_i`.
proof fn lemma_ve_orthogonal(b: Seq<Seq<int>>, i: nat, l: nat, s: nat)
    requires
        gs_ok(b),
        pairwise_orthogonal(b),
        l <= i < b.len(),
    ensures
        gs_ve(b, i, l, s) == gs_d(b, l) * b[i as int][s as int],
    decreases l,
{
    if l > 0 {
        let t = (l - 1) as nat;
        lemma_ve_orthogonal(b, i, t, s);
        lemma_ve_step(b, i, t, s);
        lemma_orthogonal_lam(b, i, t, t);
        let dn = gs_d(b, l);
        let dp = gs_d(b, t);
        assert(dp > 0) by {
            if t > 0 {
                assert(gs_d(b, t) > 0);
            }
        }
        let x = b[i as int][s as int];
        let y = gs_ve(b, t, t, s);
        assert(dn * (dp * x) - 0 * y == dp * (dn * x)) by (nonlinear_arith);
        vstd::arithmetic::div_mod::lemma_div_multiples_vanish(dn * x, dp);
    }
}

/// Pairwise orthogonal columns meet the Gram-Schmidt identities, with
/// `o_i = (product of the earlier squared lengths) * b_i`.
pub proof fn lemma_orthogonal_input(b: Seq<Seq<int>>)
    requires
        shape_ok(b),
        gs_ok(b),
        pairwise_orthogonal(b),
    ensures
        ortho_props(b, ortho_spec(b)),
        forall|i: int| 0 <= i < b.len() ==> #[trigger] ortho_spec(b)[i] == scale(
            norm_product(b, i as nat),
            b[i],
        ),
{
    let o = ortho_spec(b);
    assert forall|i: int| 0 <= i < b.len() implies #[trigger] o[i] == scale(gs_d(b, i as nat), b[i]) by {
        assert forall|s: int| 0 <= s < b[i].len() implies #[trigger] o[i][s] == scale(
            gs_d(b, i as nat),
            b[i],
        )[s] by {
            lemma_ve_orthogonal(b, i as nat, i as nat, s as nat);
        }
        assert(o[i] =~= scale(gs_d(b, i as nat), b[i]));
    }
    assert forall|i: int| 0 <= i < b.len() implies #[trigger] o[i] == scale(
        norm_product(b, i as nat),
        b[i],
    ) by {
        lemma_orthogonal_d(b, i as nat);
    }
    if b.len() > 0 {
        assert(o[0] =~= b[0]) by {
            assert(o[0] == scale(1, b[0]));
        }
    }
    assert forall|i: nat, j: nat| i < b.len() && j < b.len() implies #[trigger] dot(
        b[i as int],
        o[j as int],
    ) == coef_expect(b, i, j) by {
        lemma_orthogonal_pair(b, i, j);
    }
    assert forall|i: nat, j: nat| i < b.len() && j < b.len() implies #[trigger] dot(
        o[i as int],
        o[j as int],
    ) == ortho_expect(b, i, j) by {
        lemma_orthogonal_pair(b, i, j);
    }
}

proof fn lemma_orthogonal_pair(b: Seq<Seq<int>>, i: nat, j: nat)
    requires
        shape_ok(b),
        gs_ok(b),
        pairwise_orthogonal(b),
        i < b.len(),
        j < b.len(),
        forall|k: int| 0 <= k < b.len() ==> #[trigger] ortho_spec(b)[k] == scale(gs_d(b, k as nat), b[k]),
    ensures
        dot(b[i as int], ortho_spec(b)[j as int]) == coef_expect(b, i, j),
        dot(ortho_spec(b)[i as int], ortho_spec(b)[j as int]) == ortho_expect(b, i, j),
{
    let o = ortho_spec(b);
    let bi = b[i as int];
    let bj = b[j as int];
    let di = gs_d(b, i);
    let dj = gs_d(b, j);
    assert(bi.len() == b[0].len() && bj.len() == b[0].len());
    assert(scale(1, bi) =~= bi);
    lemma_dot_scale(1, dj, bi, bj, bi.len());
    lemma_dot_scale(di, dj, bi, bj, bi.len());
    let db = dot(bi, bj);
    assert(dot(bi, o[j as int]) == 1 * dj * db);
    assert(dot(o[i as int], o[j as int]) == di * dj * db);
    if i != j {
        assert(db == 0);
        assert(1 * dj * 0 == 0 && di * dj * 0 == 0) by (nonlinear_arith);
        if j < i {
            lemma_orthogonal_lam(b, i, j, j);
        }
    } else {
        lemma_orthogonal_u(b, i, i);
        assert(gs_d(b, i + 1) == di * db);
        assert(1 * di * db == di * db && di * di * db == di * (di * db)) by (nonlinear_arith);
    }
}

/// The orthogonal vectors, computed by the recurrence of `gs_ve`.
fn ortho_vectors(basis: &Vec<Vec<i64>>, g: &GramData) -> (r: Result<Vec<Vec<i128>>, LatticeError>)
    requires
        gram_matches(*g, basis_view(basis@)),
        g.wf(),
        gs_ok(basis_view(basis@)),
        shape_ok(basis_view(basis@)),
    ensures
        ({
            let b = basis_view(basis@);
            &&& r is Ok <==> vec_fits(b)
            &&& r matches Err(e) ==> e == LatticeError::Overflow
            &&& r matches Ok(o) ==> o@.len() == b.len() && forall|k: int|
                0 <= k < b.len() ==> #[trigger] ivec(o@[k]@) == gs_ortho(b, k as nat)
        }),
{
    let ghost b = basis_view(basis@);
    let n = basis.len();
    let mut ortho: Vec<Vec<i128>> = Vec::new();
    let mut i: usize = 0;
    while i < n
        invariant
            b == basis_view(basis@),
            n == b.len(),
            gram_matches(*g, b),
            g.wf(),
            gs_ok(b),
            shape_ok(b),
            i <= n,
            ortho@.len() == i,
            forall|k: int| 0 <= k < i ==> #[trigger] ivec(ortho@[k]@) == gs_ortho(b, k as nat),
            forall|i2: nat, l2: nat, s2: nat|
                l2 < i2 < i && s2 < b[i2 as int].len() ==> #[trigger] vstep_fits(b, i2, l2, s2),
        decreases n - i,
    {
        assert(b[i as int] == basis@[i as int]@.map_values(|x: i64| x as int));
        let mut v = widen(&basis[i]);
        let ghost m = b[i as int].len();
        assert forall|s: int| 0 <= s < m implies #[trigger] v@[s] as int == gs_ve(b, i as nat, 0, s as nat) by {
            assert(ivec(v@)[s] == v@[s] as int);
        }
        let mut l: usize = 0;
        while l < i
            invariant
                b == basis_view(basis@),
                n == b.len(),
                gram_matches(*g, b),
                g.wf(),
                gs_ok(b),
                shape_ok(b),
                i < n,
                l <= i,
                m == b[i as int].len(),
                ortho@.len() == i,
                forall|k: int| 0 <= k < i ==> #[trigger] ivec(ortho@[k]@) == gs_ortho(b, k as nat),
                forall|i2: nat, l2: nat, s2: nat|
                    l2 < i2 < i && s2 < b[i2 as int].len() ==> #[trigger] vstep_fits(b, i2, l2, s2),
                forall|l2: nat, s2: nat| l2 < l && s2 < m ==> #[trigger] vstep_fits(b, i as nat, l2, s2),
                v@.len() == m,
                forall|s: int| 0 <= s < m ==> #[trigger] v@[s] as int == gs_ve(b, i as nat, l as nat, s as nat),
            decreases i - l,
        {
            let dn: i128 = g.d[l + 1];
            let dp: i128 = g.d[l];
            let li: i128 = g.lam[i][l];
            assert(dp > 0) by {
                if l > 0 {
                    assert(gs_d(b, l as nat) > 0);
                }
            }
            let ghost ol = gs_ortho(b, l as nat);
            assert(b[l as int].len() == m) by {
                assert(b[l as int].len() == b[0].len());
                assert(b[i as int].len() == b[0].len());
            }
            assert(ivec(ortho@[l as int]@) == ol);
            assert(ortho@[l as int]@.len() == m);
            let mut nv: Vec<i128> = Vec::new();
            let mut s: usize = 0;
            while s < v.len()
                invariant
                    b == basis_view(basis@),
                    gram_matches(*g, b),
                    l < i < b.len(),
                    m == b[i as int].len(),
                    v@.len() == m,
                    ortho@.len() == i,
                    ortho@[l as int]@.len() == m,
                    ivec(ortho@[l as int]@) == ol,
                    ol == gs_ortho(b, l as nat),
                    b[l as int].len() == m,
                    dn == gs_d(b, (l + 1) as nat),
                    dp == gs_d(b, l as nat),
                    li == gs_lam(b, i as nat, l as nat),
                    dp > 0,
                    forall|t: int| 0 <= t < m ==> #[trigger] v@[t] as int == gs_ve(b, i as nat, l as nat, t as nat),
                    s <= m,
                    nv@.len() == s,
                    forall|t: int| 0 <= t < s ==> #[trigger] nv@[t] as int == gs_ve(b, i as nat, (l + 1) as nat, t as nat),
                    forall|t: nat| t < s ==> #[trigger] vstep_fits(b, i as nat, l as nat, t),
                decreases m - s,
            {
                proof {
                    lemma_ve_step(b, i as nat, l as nat, s as nat);
                    assert(ivec(ortho@[l as int]@)[s as int] == ortho@[l as int]@[s as int] as int);
                    assert(ol[s as int] == gs_ve(b, l as nat, l as nat, s as nat));
                }
                let a = match dn.checked_mul(v[s]) {
                    Some(x) => x,
                    None => {
                        assert(!vstep_fits(b, i as nat, l as nat, s as nat));
                        return Err(LatticeError::Overflow);
                    },
                };
                let c = match li.checked_mul(ortho[l][s]) {
                    Some(x) => x,
                    None => {
                        assert(!vstep_fits(b, i as nat, l as nat, s as nat));
                        return Err(LatticeError::Overflow);
                    },
                };
                let num = match a.checked_sub(c) {
                    Some(x) => x,
                    None => {
                        assert(!vstep_fits(b, i as nat, l as nat, s as nat));
                        return Err(LatticeError::Overflow);
                    },
                };
                assert(vstep_fits(b, i as nat, l as nat, s as nat));
                nv.push(floor_div_rem(num, dp).0);
                s += 1;
            }
            v = nv;
            l += 1;
        }
        assert(ivec(v@) =~= gs_ortho(b, i as nat));
        ortho.push(v);
        i += 1;
    }
    Ok(ortho)
}

/// Gram-Schmidt orthogonalization of the columns of `basis` in exact
/// fraction-free form: the Gram determinants `d`, the scaled coefficients
/// `lam`, and the orthogonal vectors `o_j = v(j, j)` of `gs_ve`.
///
/// Fails as `gram_data` does where the data does not exist; beyond that, with
/// `Overflow` when a vector entry, an inner product or a squared length leaves
/// 128 bits, and with `Inexact` exactly when the vectors do not meet the
/// Gram-Schmidt identities of `ortho_props`.
pub fn gram_schmidt(basis: &Vec<Vec<i64>>) -> (r: Result<GramSchmidt, LatticeError>)
    ensures
        ({
            let b = basis_view(basis@);
            let o = ortho_spec(b);
            &&& r is Ok <==> gs_error(b) is None && vec_fits(b) && dots_fit(b) && ortho_props(b, o)
            &&& gs_error(b) matches Some(e) ==> r == Err::<GramSchmidt, _>(e)
            &&& gs_error(b) is None && !(vec_fits(b) && dots_fit(b)) ==> r == Err::<GramSchmidt, _>(
                LatticeError::Overflow,
            )
            &&& r == Err::<GramSchmidt, _>(LatticeError::Inexact) <==> gs_error(b) is None && vec_fits(
                b,
            ) && dots_fit(b) && !ortho_props(b, o)
            &&& r matches Ok(g) ==> gram_matches(g.gram, b) && g.gram.wf() && ortho_view(g.ortho@)
                == o
        }),
{
    let ghost b = basis_view(basis@);
    let ghost o = ortho_spec(b);
    let g = match gram_data(basis) {
        Ok(g) => g,
        Err(e) => {
            return Err(e);
        },
    };
    let ortho = match ortho_vectors(basis, &g) {
        Ok(x) => x,
        Err(e) => {
            return Err(e);
        },
    };
    let n = basis.len();
    assert(ortho_view(ortho@) =~= o) by {
        assert forall|k: int| 0 <= k < n implies #[trigger] ortho_view(ortho@)[k] == o[k] by {
            assert(ivec(ortho@[k]@) == gs_ortho(b, k as nat));
        }
    }
    let mut wide: Vec<Vec<i128>> = Vec::new();
    let mut k: usize = 0;
    while k < n
        invariant
            b == basis_view(basis@),
            n == b.len(),
            k <= n,
            wide@.len() == k,
            forall|t: int| 0 <= t < k ==> #[trigger] ivec(wide@[t]@) == b[t],
        decreases n - k,
    {
        assert(b[k as int] == basis@[k as int]@.map_values(|x: i64| x as int));
        wide.push(widen(&basis[k]));
        k += 1;
    }
    // every squared length and inner product must fit
    let mut j: usize = 0;
    while j < n
        invariant
            b == basis_view(basis@),
            n == b.len(),
            gram_matches(g, b),
            gs_error(b) is None,
            vec_fits(b),
            j <= n,
            forall|t: nat| t < j ==> fits(#[trigger] (gs_d(b, t) * gs_d(b, t + 1))),
        decreases n - j,
    {
        if g.d[j].checked_mul(g.d[j + 1]).is_none() {
            assert(!fits(gs_d(b, j as nat) * gs_d(b, (j + 1) as nat)));
            assert(!dots_fit(b));
            return Err(LatticeError::Overflow);
        }
        j += 1;
    }
    let mut i: usize = 0;
    while i < n
        invariant
            b == basis_view(basis@),
            o == ortho_spec(b),
            n == b.len(),
            shape_ok(b),
            gs_error(b) is None,
            vec_fits(b),
            ortho_view(ortho@) == o,
            ortho@.len() == n,
            wide@.len() == n,
            forall|t: int| 0 <= t < n ==> #[trigger] ivec(wide@[t]@) == b[t],
            forall|t: nat| t < n ==> fits(#[trigger] (gs_d(b, t) * gs_d(b, t + 1))),
            i <= n,
            forall|r: nat, c: nat|
                r < i && c < n ==> #[trigger] pair_fits(b, o, r, c),
        decreases n - i,
    {
        let mut j: usize = 0;
        while j < n
            invariant
                b == basis_view(basis@),
                o == ortho_spec(b),
                n == b.len(),
                shape_ok(b),
                gs_error(b) is None,
                vec_fits(b),
                ortho_view(ortho@) == o,
                ortho@.len() == n,
                wide@.len() == n,
                forall|t: int| 0 <= t < n ==> #[trigger] ivec(wide@[t]@) == b[t],
                forall|t: nat| t < n ==> fits(#[trigger] (gs_d(b, t) * gs_d(b, t + 1))),
                i < n,
                j <= n,
                forall|r: nat, c: nat|
                    r < i && c < n ==> #[trigger] pair_fits(b, o, r, c),
                forall|c: nat| c < j ==> #[trigger] pair_fits(b, o, i as nat, c),
            decreases n - j,
        {
            proof {
                assert(b[i as int].len() == b[0].len() && b[j as int].len() == b[0].len());
                assert(ortho_view(ortho@)[i as int] == ivec(ortho@[i as int]@));
                assert(ortho_view(ortho@)[j as int] == ivec(ortho@[j as int]@));
                assert(ivec(wide@[i as int]@) == b[i as int]);
            }
            let x = dot_wide(&wide[i], &ortho[j]);
            let y = dot_wide(&ortho[i], &ortho[j]);
            if x.is_none() || y.is_none() {
                assert(!pair_fits(b, o, i as nat, j as nat));
                assert(!dots_fit(b));
                return Err(LatticeError::Overflow);
            }
            assert(pair_fits(b, o, i as nat, j as nat));
            j += 1;
        }
        i += 1;
    }
    assert(dots_fit(b));
    // compare with the Gram-Schmidt identities
    let mut i: usize = 0;
    while i < n
        invariant
            b == basis_view(basis@),
            o == ortho_spec(b),
            n == b.len(),
            shape_ok(b),
            gs_error(b) is None,
            vec_fits(b),
            dots_fit(b),
            gram_matches(g, b),
            g.wf(),
            ortho_view(ortho@) == o,
            ortho@.len() == n,
            wide@.len() == n,
            forall|t: int| 0 <= t < n ==> #[trigger] ivec(wide@[t]@) == b[t],
            i <= n,
            forall|r: nat, c: nat|
                r < i && c < n ==> #[trigger] dot(b[r as int], o[c as int]) == coef_expect(b, r, c),
            forall|r: nat, c: nat|
                r < i && c < n ==> #[trigger] dot(o[r as int], o[c as int]) == ortho_expect(b, r, c),
        decreases n - i,
    {
        let mut j: usize = 0;
        while j < n
            invariant
                b == basis_view(basis@),
                o == ortho_spec(b),
                n == b.len(),
                shape_ok(b),
                gs_error(b) is None,
                vec_fits(b),
                dots_fit(b),
                gram_matches(g, b),
                g.wf(),
                ortho_view(ortho@) == o,
                ortho@.len() == n,
                wide@.len() == n,
                forall|t: int| 0 <= t < n ==> #[trigger] ivec(wide@[t]@) == b[t],
                i < n,
                j <= n,
                forall|r: nat, c: nat|
                    r < i && c < n ==> #[trigger] dot(b[r as int], o[c as int]) == coef_expect(b, r, c),
                forall|r: nat, c: nat|
                    r < i && c < n ==> #[trigger] dot(o[r as int], o[c as int]) == ortho_expect(b, r, c),
                forall|c: nat| c < j ==> #[trigger] dot(b[i as int], o[c as int]) == coef_expect(b, i as nat, c),
                forall|c: nat| c < j ==> #[trigger] dot(o[i as int], o[c as int]) == ortho_expect(b, i as nat, c),
            decreases n - j,
        {
            proof {
                assert(b[i as int].len() == b[0].len() && b[j as int].len() == b[0].len());
                assert(ortho_view(ortho@)[i as int] == ivec(ortho@[i as int]@));
                assert(ortho_view(ortho@)[j as int] == ivec(ortho@[j as int]@));
                assert(ivec(wide@[i as int]@) == b[i as int]);
                assert(pair_fits(b, o, i as nat, j as nat));
                assert(fits(gs_d(b, j as nat) * gs_d(b, (j + 1) as nat)));
            }
            let want_coef: i128 = if j < i {
                g.lam[i][j]
            } else if j == i {
                g.d[i + 1]
            } else {
                0
            };
            let want_norm: i128 = if i == j {
                g.d[j] * g.d[j + 1]
            } else {
                0
            };
            let dc = dot_wide(&wide[i], &ortho[j]).unwrap();
            let dn = dot_wide(&ortho[i], &ortho[j]).unwrap();
            if dc != want_coef || dn != want_norm {
                assert(!ortho_props(b, o));
                return Err(LatticeError::Inexact);
            }
            j += 1;
        }
        i += 1;
    }
    proof {
        if n > 0 {
            assert(o[0] == gs_ortho(b, 0));
            assert(o[0] =~= b[0]);
        }
    }
    Ok(GramSchmidt { gram: g, ortho })
}

} // verus!
