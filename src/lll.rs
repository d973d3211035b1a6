//! The LLL reduction: size reduction and Lovász swaps.
use vstd::prelude::*;
use crate::basis::{basis_view, check_shape, fits, shape_ok, LatticeError};
use crate::gram::{
    floor_div_rem, gram_matches, gram_data, gs_d, gs_error, gs_lam, gs_ok, lemma_gs_d_prefix,
    lemma_no_bad_row,
    lemma_gs_prefix,
};
use crate::ops::{
    apply_op, apply_ops, columns_of_len, lattice_equivalent, lemma_apply_op_shape,
    lemma_apply_ops_push, ops_valid,
    op_valid, sub_mul, ColumnOp,
};

verus! {

/// The Lovász parameter `p / q` lies in (1/4, 1].
pub open spec fn delta_ok(p: int, q: int) -> bool {
    q > 0 && 4 * p > q && p <= q
}

/// The nearest integer to `a / d` (for `d > 0`), halves rounded away from zero.
pub open spec fn round_half(a: int, d: int) -> int {
    let f = a / d;
    let r = a % d;
    if 2 * r > d || (2 * r == d && a >= 0) {
        f + 1
    } else {
        f
    }
}

/// `|mu(i, j)| <= 1/2`, with `mu(i, j) = lam(i, j) / d(j + 1)`.
pub open spec fn size_reduced_entry(b: Seq<Seq<int>>, i: nat, j: nat) -> bool {
    -gs_d(b, j + 1) <= 2 * gs_lam(b, i, j) <= gs_d(b, j + 1)
}

/// Every projection coefficient has absolute value at most 1/2.
pub open spec fn size_reduced(b: Seq<Seq<int>>) -> bool {
    forall|i: nat, j: nat| j < i < b.len() ==> #[trigger] size_reduced_entry(b, i, j)
}

/// The Lovász inequality `|b*_k|^2 >= (delta - mu^2) |b*_(k-1)|^2` with
/// `delta = p / q`, multiplied through by `q d(k) d(k - 1) > 0`:
/// `q d(k+1) d(k-1) >= p d(k)^2 - q lam^2`.
pub open spec fn lovasz_vals(dn: int, dk: int, dp: int, l: int, p: int, q: int) -> bool {
    q * dn * dp >= p * dk * dk - q * (l * l)
}

/// Every intermediate value of the Lovász test fits in 128 bits.
pub open spec fn lovasz_fits_vals(dn: int, dk: int, dp: int, l: int, p: int, q: int) -> bool {
    &&& fits(q * dn)
    &&& fits(q * dn * dp)
    &&& fits(p * dk)
    &&& fits(p * dk * dk)
    &&& fits(l * l)
    &&& fits(q * (l * l))
    &&& fits(p * dk * dk - q * (l * l))
}

pub open spec fn lovasz_holds(b: Seq<Seq<int>>, p: int, q: int, k: nat) -> bool {
    lovasz_vals(gs_d(b, k + 1), gs_d(b, k), gs_d(b, (k - 1) as nat), gs_lam(b, k, (k - 1) as nat), p, q)
}

pub open spec fn lovasz_fits(b: Seq<Seq<int>>, p: int, q: int, k: nat) -> bool {
    lovasz_fits_vals(
        gs_d(b, k + 1),
        gs_d(b, k),
        gs_d(b, (k - 1) as nat),
        gs_lam(b, k, (k - 1) as nat),
        p,
        q,
    )
}

/// The first `k` columns are size-reduced and meet the Lovász condition.
pub open spec fn reduced_prefix(b: Seq<Seq<int>>, p: int, q: int, k: nat) -> bool {
    &&& forall|i: nat, j: nat| j < i < k ==> #[trigger] size_reduced_entry(b, i, j)
    &&& forall|i: nat| 1 <= i < k ==> #[trigger] lovasz_fits(b, p, q, i) && lovasz_holds(b, p, q, i)
}

/// `b` is LLL-reduced for `delta = p / q`: its Gram-Schmidt data exists, it is
/// size-reduced, and every consecutive pair meets the Lovász condition (each
/// test computable in 128 bits).
pub open spec fn lll_reduced(b: Seq<Seq<int>>, p: int, q: int) -> bool {
    gs_ok(b) && reduced_prefix(b, p, q, b.len())
}

/// `u[t] - c * v[t]` fits in 64 bits at every position.
pub open spec fn sub_mul_fits(u: Seq<int>, v: Seq<int>, c: int) -> bool {
    forall|t: int| 0 <= t < u.len() ==> i64::MIN <= #[trigger] sub_mul(u, v, c)[t] <= i64::MAX
}

/// The largest `j < t` with `|mu(k, j)| > 1/2`, if any.
pub open spec fn last_unreduced(b: Seq<Seq<int>>, k: nat, t: nat) -> Option<nat>
    decreases t,
{
    if t == 0 {
        None
    } else if !size_reduced_entry(b, k, (t - 1) as nat) {
        Some((t - 1) as nat)
    } else {
        last_unreduced(b, k, (t - 1) as nat)
    }
}

/// One step of the reduction at position `k`: the next basis and position.
pub open spec fn lll_step(b: Seq<Seq<int>>, p: int, q: int, k: nat) -> Result<
    (Seq<Seq<int>>, nat),
    LatticeError,
> {
    match gs_error(b) {
        Some(e) => Err(e),
        None => match last_unreduced(b, k, k) {
            Some(j) => {
                let c = round_half(gs_lam(b, k, j), gs_d(b, j + 1));
                if sub_mul_fits(b[k as int], b[j as int], c) {
                    Ok((apply_op(b, ColumnOp::SubMul { k, j, c }), k))
                } else {
                    Err(LatticeError::Overflow)
                }
            },
            None => if !lovasz_fits(b, p, q, k) {
                Err(LatticeError::Overflow)
            } else if lovasz_holds(b, p, q, k) {
                Ok((b, k + 1))
            } else {
                Ok((apply_op(b, ColumnOp::Swap { k }), if k > 1 { (k - 1) as nat } else { 1 }))
            },
        },
    }
}

/// The reduction from position `k` with at most `fuel` more steps.
pub open spec fn lll_run(b: Seq<Seq<int>>, p: int, q: int, k: nat, fuel: nat) -> Result<
    Seq<Seq<int>>,
    LatticeError,
>
    decreases fuel,
{
    if k >= b.len() {
        Ok(b)
    } else if fuel == 0 {
        Err(LatticeError::StepLimit)
    } else {
        match lll_step(b, p, q, k) {
            Err(e) => Err(e),
            Ok(next) => lll_run(next.0, p, q, next.1, (fuel - 1) as nat),
        }
    }
}

/// What reducing `b` with `delta = p / q` in at most `steps` steps gives.
pub open spec fn lll_result(b: Seq<Seq<int>>, p: int, q: int, steps: nat) -> Result<
    Seq<Seq<int>>,
    LatticeError,
> {
    if !delta_ok(p, q) {
        Err(LatticeError::InvalidDelta)
    } else if !shape_ok(b) {
        Err(LatticeError::Dimension)
    } else if b.len() < 2 {
        match gs_error(b) {
            Some(e) => Err(e),
            None => Ok(b),
        }
    } else {
        lll_run(b, p, q, 1, steps)
    }
}

pub open spec fn result_view(r: Result<Vec<Vec<i64>>, LatticeError>) -> Result<
    Seq<Seq<int>>,
    LatticeError,
> {
    match r {
        Ok(v) => Ok(basis_view(v@)),
        Err(e) => Err(e),
    }
}

/// Whether `|lam / d| <= 1/2`.
pub fn is_size_reduced(lam: i128, d: i128) -> (r: bool)
    requires
        d > 0,
    ensures
        r == (-d <= 2 * lam <= d),
{
    if lam >= 0 {
        lam <= d - lam
    } else {
        lam >= -(d + lam)
    }
}

/// The nearest integer to `a / d`, halves rounded away from zero.
pub fn round_half_div(a: i128, d: i128) -> (r: i128)
    requires
        d > 0,
    ensures
        r == round_half(a as int, d as int),
{
    let (f, m) = floor_div_rem(a, d);
    proof {
        vstd::arithmetic::div_mod::lemma_fundamental_div_mod(a as int, d as int);
        vstd::arithmetic::div_mod::lemma_mod_bound(a as int, d as int);
    }
    if m > d - m || (m == d - m && a >= 0) {
        proof {
            let fi = f as int;
            let di = d as int;
            let mi = m as int;
            assert(fi < i128::MAX) by (nonlinear_arith)
                requires
                    a as int == di * fi + mi,
                    mi > 0,
                    di > 0,
                    a as int <= i128::MAX,
            ;
        }
        f + 1
    } else {
        f
    }
}

/// Column `u` minus `c` times column `v`, or `None` when an entry leaves 64 bits.
pub fn sub_mul_column(u: &Vec<i64>, v: &Vec<i64>, c: i128) -> (r: Option<Vec<i64>>)
    requires
        u@.len() == v@.len(),
    ensures
        ({
            let uu = u@.map_values(|x: i64| x as int);
            let vv = v@.map_values(|x: i64| x as int);
            match r {
                Some(w) => sub_mul_fits(uu, vv, c as int) && w@.map_values(|x: i64| x as int)
                    == sub_mul(uu, vv, c as int),
                None => !sub_mul_fits(uu, vv, c as int),
            }
        }),
{
    let ghost uu = u@.map_values(|x: i64| x as int);
    let ghost vv = v@.map_values(|x: i64| x as int);
    let mut w: Vec<i64> = Vec::new();
    let mut t: usize = 0;
    while t < u.len()
        invariant
            u@.len() == v@.len(),
            uu == u@.map_values(|x: i64| x as int),
            vv == v@.map_values(|x: i64| x as int),
            t <= u@.len(),
            w@.len() == t,
            forall|s: int| 0 <= s < t ==> #[trigger] w@[s] as int == sub_mul(uu, vv, c as int)[s],
        decreases u@.len() - t,
    {
        let x: i64 = u[t];
        let y: i64 = v[t];
        assert(sub_mul(uu, vv, c as int)[t as int] == x as int - (c as int) * (y as int));
        let prod = match c.checked_mul(y as i128) {
            Some(z) => z,
            None => {
                assert(!sub_mul_fits(uu, vv, c as int));
                return None;
            },
        };
        let diff = match (x as i128).checked_sub(prod) {
            Some(z) => z,
            None => {
                assert(!sub_mul_fits(uu, vv, c as int));
                return None;
            },
        };
        if diff < i64::MIN as i128 || diff > i64::MAX as i128 {
            assert(!sub_mul_fits(uu, vv, c as int));
            return None;
        }
        w.push(diff as i64);
        t += 1;
    }
    assert(w@.map_values(|x: i64| x as int) =~= sub_mul(uu, vv, c as int));
    Some(w)
}

/// Decides the Lovász condition from `d(k+1), d(k), d(k-1), lam(k, k-1)`, or
/// `None` when an intermediate value leaves 128 bits.
pub fn lovasz_test(dn: i128, dk: i128, dp: i128, l: i128, p: i128, q: i128) -> (r: Option<bool>)
    ensures
        match r {
            Some(h) => lovasz_fits_vals(dn as int, dk as int, dp as int, l as int, p as int, q as int)
                && h == lovasz_vals(dn as int, dk as int, dp as int, l as int, p as int, q as int),
            None => !lovasz_fits_vals(dn as int, dk as int, dp as int, l as int, p as int, q as int),
        },
{
    let a1 = match q.checked_mul(dn) {
        Some(x) => x,
        None => {
            return None;
        },
    };
    let lhs = match a1.checked_mul(dp) {
        Some(x) => x,
        None => {
            return None;
        },
    };
    let b1 = match p.checked_mul(dk) {
        Some(x) => x,
        None => {
            return None;
        },
    };
    let b2 = match b1.checked_mul(dk) {
        Some(x) => x,
        None => {
            return None;
        },
    };
    let l2 = match l.checked_mul(l) {
        Some(x) => x,
        None => {
            return None;
        },
    };
    let ql2 = match q.checked_mul(l2) {
        Some(x) => x,
        None => {
            return None;
        },
    };
    let rhs = match b2.checked_sub(ql2) {
        Some(x) => x,
        None => {
            return None;
        },
    };
    Some(lhs >= rhs)
}

/// Whether the first `k` columns are reduced depends on those columns only.
proof fn lemma_reduced_prefix_local(b1: Seq<Seq<int>>, b2: Seq<Seq<int>>, p: int, q: int, k: nat)
    requires
        k <= b1.len(),
        k <= b2.len(),
        forall|c: int| 0 <= c < k ==> #[trigger] b1[c] == b2[c],
        reduced_prefix(b1, p, q, k),
    ensures
        reduced_prefix(b2, p, q, k),
{
    assert forall|i: nat, j: nat| j < i < k implies #[trigger] size_reduced_entry(b2, i, j) by {
        assert(size_reduced_entry(b1, i, j));
        lemma_gs_prefix(b1, b2, i, j, j);
        lemma_gs_d_prefix(b1, b2, j + 1);
    }
    assert forall|i: nat| 1 <= i < k implies #[trigger] lovasz_fits(b2, p, q, i) && lovasz_holds(
        b2,
        p,
        q,
        i,
    ) by {
        assert(lovasz_fits(b1, p, q, i) && lovasz_holds(b1, p, q, i));
        lemma_gs_d_prefix(b1, b2, i + 1);
        lemma_gs_d_prefix(b1, b2, i);
        lemma_gs_d_prefix(b1, b2, (i - 1) as nat);
        lemma_gs_prefix(b1, b2, i, (i - 1) as nat, (i - 1) as nat);
    }
}

/// Row `k` being reduced extends a reduced prefix by one column.
proof fn lemma_extend_prefix(b: Seq<Seq<int>>, p: int, q: int, k: nat)
    requires
        k >= 1,
        reduced_prefix(b, p, q, k),
        forall|c: nat| c < k ==> #[trigger] size_reduced_entry(b, k, c),
        lovasz_fits(b, p, q, k),
        lovasz_holds(b, p, q, k),
    ensures
        reduced_prefix(b, p, q, k + 1),
{
    assert forall|i: nat, j: nat| j < i < k + 1 implies #[trigger] size_reduced_entry(b, i, j) by {
        if i == k {
            assert(size_reduced_entry(b, k, j));
        }
    }
    assert forall|i: nat| 1 <= i < k + 1 implies #[trigger] lovasz_fits(b, p, q, i) && lovasz_holds(
        b,
        p,
        q,
        i,
    ) by {
        if i < k {
            assert(lovasz_fits(b, p, q, i));
        }
    }
}

/// A copy of the basis.
pub fn copy_basis(b: &Vec<Vec<i64>>) -> (r: Vec<Vec<i64>>)
    ensures
        r@.len() == b@.len(),
        forall|s: int| 0 <= s < b@.len() ==> #[trigger] r@[s]@ == b@[s]@,
        basis_view(r@) == basis_view(b@),
{
    let mut r: Vec<Vec<i64>> = Vec::new();
    let mut i: usize = 0;
    while i < b.len()
        invariant
            i <= b@.len(),
            r@.len() == i,
            forall|s: int| 0 <= s < i ==> #[trigger] r@[s]@ == b@[s]@,
        decreases b@.len() - i,
    {
        let mut c: Vec<i64> = Vec::new();
        let mut t: usize = 0;
        while t < b[i].len()
            invariant
                i < b@.len(),
                t <= b@[i as int]@.len(),
                c@ == b@[i as int]@.subrange(0, t as int),
            decreases b@[i as int]@.len() - t,
        {
            c.push(b[i][t]);
            t += 1;
            assert(c@ =~= b@[i as int]@.subrange(0, t as int));
        }
        assert(c@ =~= b@[i as int]@);
        r.push(c);
        i += 1;
    }
    assert(basis_view(r@) =~= basis_view(b@)) by {
        assert forall|s: int| 0 <= s < b@.len() implies #[trigger] basis_view(r@)[s] == basis_view(
            b@,
        )[s] by {
            assert(r@[s]@ == b@[s]@);
        }
    }
    r
}

/// LLL reduction of the columns of `basis` with `delta = delta_num / delta_den`.
///
/// Each step recomputes the Gram-Schmidt data of the current basis, with
/// `k` the first column not yet known to be reduced. If some coefficient
/// `mu(k, j)` exceeds 1/2 in absolute value, column `k` loses the nearest
/// integer multiple of column `j` for the largest such `j`. Otherwise, if
/// columns `k - 1` and `k` meet the Lovász condition, `k` advances; if not,
/// they are exchanged and `k` steps back (never below 1). At most `max_steps`
/// steps are taken.
pub fn lll(basis: &Vec<Vec<i64>>, delta_num: u64, delta_den: u64, max_steps: u64) -> (r: Result<
    Vec<Vec<i64>>,
    LatticeError,
>)
    ensures
        ({
            let b0 = basis_view(basis@);
            let p = delta_num as int;
            let q = delta_den as int;
            &&& result_view(r) == lll_result(b0, p, q, max_steps as nat)
            &&& r == Err::<Vec<Vec<i64>>, _>(LatticeError::InvalidDelta) <==> !delta_ok(p, q)
            &&& r == Err::<Vec<Vec<i64>>, _>(LatticeError::Dimension) <==> delta_ok(p, q)
                && !shape_ok(b0)
            &&& r is Ok ==> lattice_equivalent(b0, basis_view(r->Ok_0@)) && lll_reduced(
                basis_view(r->Ok_0@),
                p,
                q,
            )
            &&& delta_ok(p, q) && shape_ok(b0) && lll_reduced(b0, p, q) && max_steps + 1 >= b0.len()
                ==> r is Ok && basis_view(r->Ok_0@) == b0
        }),
{
    let ghost b0 = basis_view(basis@);
    let p: i128 = delta_num as i128;
    let q: i128 = delta_den as i128;
    if !(q > 0 && 4 * p > q && p <= q) {
        return Err(LatticeError::InvalidDelta);
    }
    if !check_shape(basis) {
        return Err(LatticeError::Dimension);
    }
    let n = basis.len();
    if n < 2 {
        match gram_data(basis) {
            Ok(_) => {},
            Err(e) => {
                return Err(e);
            },
        }
        let out = copy_basis(basis);
        proof {
            let none = Seq::<ColumnOp>::empty();
            assert(apply_ops(b0, none) == b0);
            assert(ops_valid(none, b0.len()));
        }
        return Ok(out);
    }
    let m = basis[0].len();
    let mut b = copy_basis(basis);
    let ghost mut ops: Seq<ColumnOp> = Seq::empty();
    let ghost fixed = lll_reduced(b0, p as int, q as int) && max_steps + 1 >= n;
    let mut k: usize = 1;
    let mut steps: u64 = 0;
    proof {
        assert(columns_of_len(b0, m as nat));
        assert(apply_ops(b0, ops) == b0);
    }
    while k < n
        invariant
            b0 == basis_view(basis@),
            delta_ok(p as int, q as int),
            p as int == delta_num as int,
            q as int == delta_den as int,
            shape_ok(b0),
            n == b0.len(),
            n >= 2,
            m == b0[0].len(),
            columns_of_len(b0, m as nat),
            1 <= k <= n,
            b@.len() == n,
            columns_of_len(basis_view(b@), m as nat),
            ops_valid(ops, n as nat),
            basis_view(b@) == apply_ops(b0, ops),
            reduced_prefix(basis_view(b@), p as int, q as int, k as nat),
            k >= n ==> gs_ok(basis_view(b@)),
            fixed == (lll_reduced(b0, p as int, q as int) && max_steps + 1 >= n),
            fixed ==> basis_view(b@) == b0 && steps + 1 == k,
            steps <= max_steps,
            lll_run(basis_view(b@), p as int, q as int, k as nat, (max_steps - steps) as nat)
                == lll_run(b0, p as int, q as int, 1, max_steps as nat),
        decreases max_steps - steps,
    {
        if steps >= max_steps {
            return Err(LatticeError::StepLimit);
        }
        steps += 1;
        let ghost bv = basis_view(b@);
        let g = match gram_data(&b) {
            Ok(g) => g,
            Err(e) => {
                return Err(e);
            },
        };
        let mut j: usize = k;
        let mut bad: bool = false;
        while j > 0 && !bad
            invariant
                gram_matches(g, bv),
                gs_ok(bv),
                bv.len() == n,
                1 <= k < n,
                j <= k,
                !bad ==> forall|c: nat| j <= c < k ==> #[trigger] size_reduced_entry(bv, k as nat, c),
                bad ==> j < k && !size_reduced_entry(bv, k as nat, j as nat),
                !bad ==> last_unreduced(bv, k as nat, k as nat) == last_unreduced(bv, k as nat, j as nat),
                bad ==> last_unreduced(bv, k as nat, k as nat) == Some(j as nat),
            decreases j,
        {
            let lam = g.lam[k][j - 1];
            let dj = g.d[j];
            assert(gs_d(bv, j as nat) > 0);
            if !is_size_reduced(lam, dj) {
                bad = true;
            }
            j -= 1;
        }
        if bad {
            assert(gs_d(bv, (j + 1) as nat) > 0);
            let c = round_half_div(g.lam[k][j], g.d[j + 1]);
            assert(b@[k as int]@.len() == b@[j as int]@.len()) by {
                assert(bv[k as int].len() == m);
                assert(bv[j as int].len() == m);
            }
            let w = match sub_mul_column(&b[k], &b[j], c) {
                Some(w) => w,
                None => {
                    return Err(LatticeError::Overflow);
                },
            };
            b.set(k, w);
            proof {
                let op = ColumnOp::SubMul { k: k as nat, j: j as nat, c: c as int };
                assert(op_valid(op, n as nat));
                lemma_apply_ops_push(b0, ops, op);
                let old_ops = ops;
                ops = ops.push(op);
                assert(ops_valid(ops, n as nat)) by {
                    assert forall|s: int| 0 <= s < ops.len() implies op_valid(
                        #[trigger] ops[s],
                        n as nat,
                    ) by {
                        if s < old_ops.len() {
                            assert(ops[s] == old_ops[s]);
                        }
                    }
                }
                assert(basis_view(b@) =~= apply_op(bv, op));
                lemma_apply_op_shape(bv, op, m as nat);
                lemma_reduced_prefix_local(bv, basis_view(b@), p as int, q as int, k as nat);
                if fixed {
                    assert(size_reduced_entry(b0, k as nat, j as nat));
                }
            }
        } else {
            assert(k == 1 || gs_d(bv, (k - 1) as nat) > 0);
            let h = match lovasz_test(g.d[k + 1], g.d[k], g.d[k - 1], g.lam[k][k - 1], p, q) {
                Some(h) => h,
                None => {
                    proof {
                        if fixed {
                            assert(lovasz_fits(b0, p as int, q as int, k as nat));
                        }
                    }
                    return Err(LatticeError::Overflow);
                },
            };
            if h {
                proof {
                    assert(forall|c: nat| c < k ==> #[trigger] size_reduced_entry(bv, k as nat, c));
                    lemma_extend_prefix(bv, p as int, q as int, k as nat);
                }
                k += 1;
            } else {
                let mut tmp: Vec<i64> = Vec::new();
                b.set_and_swap(k, &mut tmp);
                b.set_and_swap(k - 1, &mut tmp);
                b.set(k, tmp);
                proof {
                    let op = ColumnOp::Swap { k: k as nat };
                    assert(op_valid(op, n as nat));
                    lemma_apply_ops_push(b0, ops, op);
                    let old_ops = ops;
                    ops = ops.push(op);
                    assert(ops_valid(ops, n as nat)) by {
                        assert forall|s: int| 0 <= s < ops.len() implies op_valid(
                            #[trigger] ops[s],
                            n as nat,
                        ) by {
                            if s < old_ops.len() {
                                assert(ops[s] == old_ops[s]);
                            }
                        }
                    }
                    assert(basis_view(b@) =~= apply_op(bv, op));
                    lemma_apply_op_shape(bv, op, m as nat);
                    let nk: nat = if k > 1 { (k - 1) as nat } else { 1 };
                    let bn = basis_view(b@);
                    if k > 1 {
                        assert forall|i: nat| 1 <= i < nk implies #[trigger] lovasz_fits(
                            bv,
                            p as int,
                            q as int,
                            i,
                        ) && lovasz_holds(bv, p as int, q as int, i) by {
                            assert(lovasz_fits(bv, p as int, q as int, i));
                        }
                        assert(reduced_prefix(bv, p as int, q as int, nk));
                        assert forall|c: int| 0 <= c < nk implies #[trigger] bv[c] == bn[c] by {}
                        lemma_reduced_prefix_local(bv, bn, p as int, q as int, nk);
                    } else {
                        assert(reduced_prefix(bn, p as int, q as int, 1));
                    }
                    if fixed {
                        assert(lovasz_fits(b0, p as int, q as int, k as nat));
                        assert(lovasz_holds(b0, p as int, q as int, k as nat));
                    }
                }
                k = if k > 1 {
                    k - 1
                } else {
                    1
                };
            }
        }
    }
    proof {
        assert(lattice_equivalent(b0, basis_view(b@)));
    }
    Ok(b)
}

proof fn lemma_last_unreduced(b: Seq<Seq<int>>, k: nat, t: nat)
    ensures
        last_unreduced(b, k, t) is None <==> forall|c: nat| c < t ==> #[trigger] size_reduced_entry(
            b,
            k,
            c,
        ),
        last_unreduced(b, k, t) matches Some(j) ==> j < t && !size_reduced_entry(b, k, j),
    decreases t,
{
    if t > 0 {
        lemma_last_unreduced(b, k, (t - 1) as nat);
    }
}

/// A shape-preserving step keeps the basis an m x n matrix with n <= m.
proof fn lemma_op_keeps_shape(b: Seq<Seq<int>>, op: ColumnOp)
    requires
        shape_ok(b),
        b.len() >= 1,
        op_valid(op, b.len()),
    ensures
        shape_ok(apply_op(b, op)),
        apply_op(b, op).len() == b.len(),
{
    let m = b[0].len();
    assert(columns_of_len(b, m));
    lemma_apply_op_shape(b, op, m);
    let b2 = apply_op(b, op);
    assert(b2[0].len() == m);
}

/// Whatever the reduction returns is LLL-reduced.
proof fn lemma_run_reduced(b: Seq<Seq<int>>, p: int, q: int, k: nat, fuel: nat)
    requires
        shape_ok(b),
        b.len() >= 2,
        1 <= k <= b.len(),
        reduced_prefix(b, p, q, k),
        k >= b.len() ==> gs_ok(b),
    ensures
        lll_run(b, p, q, k, fuel) matches Ok(r) ==> lll_reduced(r, p, q) && shape_ok(r) && r.len()
            == b.len(),
    decreases fuel,
{
    if k < b.len() && fuel > 0 {
        if gs_error(b) is None {
            lemma_last_unreduced(b, k, k);
            match last_unreduced(b, k, k) {
                Some(j) => {
                    let c = round_half(gs_lam(b, k, j), gs_d(b, j + 1));
                    let op = ColumnOp::SubMul { k, j, c };
                    let b2 = apply_op(b, op);
                    lemma_op_keeps_shape(b, op);
                    assert forall|i: int| 0 <= i < k implies #[trigger] b[i] == b2[i] by {}
                    lemma_reduced_prefix_local(b, b2, p, q, k);
                    lemma_run_reduced(b2, p, q, k, (fuel - 1) as nat);
                },
                None => {
                    if lovasz_fits(b, p, q, k) && lovasz_holds(b, p, q, k) {
                        lemma_extend_prefix(b, p, q, k);
                        lemma_run_reduced(b, p, q, k + 1, (fuel - 1) as nat);
                    } else if lovasz_fits(b, p, q, k) {
                        let op = ColumnOp::Swap { k };
                        let b2 = apply_op(b, op);
                        lemma_op_keeps_shape(b, op);
                        let nk: nat = if k > 1 { (k - 1) as nat } else { 1 };
                        if k > 1 {
                            assert forall|i: nat| 1 <= i < nk implies #[trigger] lovasz_fits(
                                b,
                                p,
                                q,
                                i,
                            ) && lovasz_holds(b, p, q, i) by {
                                assert(lovasz_fits(b, p, q, i));
                            }
                            assert forall|i: int| 0 <= i < nk implies #[trigger] b[i] == b2[i] by {}
                            lemma_reduced_prefix_local(b, b2, p, q, nk);
                        }
                        lemma_run_reduced(b2, p, q, nk, (fuel - 1) as nat);
                    }
                },
            }
        }
    }
}

/// A reduced basis is a fixed point of the reduction, given one step per
/// remaining column.
proof fn lemma_run_fixed(b: Seq<Seq<int>>, p: int, q: int, k: nat, fuel: nat)
    requires
        shape_ok(b),
        lll_reduced(b, p, q),
        1 <= k <= b.len(),
        fuel + k >= b.len(),
    ensures
        lll_run(b, p, q, k, fuel) == Ok::<Seq<Seq<int>>, LatticeError>(b),
    decreases fuel,
{
    if k < b.len() {
        lemma_no_bad_row(b);
        lemma_last_unreduced(b, k, k);
        assert forall|c: nat| c < k implies #[trigger] size_reduced_entry(b, k, c) by {}
        assert(lovasz_fits(b, p, q, k));
        lemma_run_fixed(b, p, q, k + 1, (fuel - 1) as nat);
    }
}

/// Reducing the result of a reduction again, with the same delta and at
/// least one step per column, returns it unchanged.
pub proof fn lemma_reduction_idempotent(b: Seq<Seq<int>>, p: int, q: int, steps: nat, steps2: nat)
    requires
        lll_result(b, p, q, steps) is Ok,
        steps2 + 1 >= b.len(),
    ensures
        lll_result(lll_result(b, p, q, steps)->Ok_0, p, q, steps2) == lll_result(b, p, q, steps),
{
    let r = lll_result(b, p, q, steps)->Ok_0;
    if b.len() >= 2 {
        lemma_run_reduced(b, p, q, 1, steps);
        lemma_run_fixed(r, p, q, 1, steps2);
    }
}

proof fn lemma_push_valid(ops: Seq<ColumnOp>, op: ColumnOp, n: nat)
    requires
        ops_valid(ops, n),
        op_valid(op, n),
    ensures
        ops_valid(ops.push(op), n),
{
    assert forall|s: int| 0 <= s < ops.push(op).len() implies op_valid(#[trigger] ops.push(op)[s], n) by {
        if s < ops.len() {
            assert(ops.push(op)[s] == ops[s]);
        }
    }
}

/// Every basis the reduction passes through, and so the one it returns, is
/// reached from `b0` by elementary unimodular column operations.
proof fn lemma_run_equivalent(
    b0: Seq<Seq<int>>,
    ops: Seq<ColumnOp>,
    p: int,
    q: int,
    k: nat,
    fuel: nat,
)
    requires
        ops_valid(ops, b0.len()),
        apply_ops(b0, ops).len() == b0.len(),
        b0.len() >= 2,
        1 <= k,
    ensures
        lll_run(apply_ops(b0, ops), p, q, k, fuel) matches Ok(r) ==> lattice_equivalent(b0, r),
    decreases fuel,
{
    let b = apply_ops(b0, ops);
    if k >= b.len() {
        assert(ops_valid(ops, b0.len()) && b == apply_ops(b0, ops));
    } else if fuel > 0 {
        if gs_error(b) is None {
            lemma_last_unreduced(b, k, k);
            let next = lll_step(b, p, q, k);
            if next is Ok && next->Ok_0.0 != b {
                let op = match last_unreduced(b, k, k) {
                    Some(j) => ColumnOp::SubMul { k, j, c: round_half(gs_lam(b, k, j), gs_d(b, j + 1)) },
                    None => ColumnOp::Swap { k },
                };
                assert(op_valid(op, b0.len()));
                lemma_push_valid(ops, op, b0.len());
                lemma_apply_ops_push(b0, ops, op);
                assert(apply_op(b, op).len() == b.len());
                lemma_run_equivalent(b0, ops.push(op), p, q, next->Ok_0.1, (fuel - 1) as nat);
            } else if next is Ok {
                lemma_run_equivalent(b0, ops, p, q, next->Ok_0.1, (fuel - 1) as nat);
            }
        }
    }
}

/// The basis a reduction returns spans the same lattice as the input: it
/// is the input transformed by column swaps and integer column additions.
pub proof fn lemma_reduction_equivalent(b: Seq<Seq<int>>, p: int, q: int, steps: nat)
    requires
        lll_result(b, p, q, steps) is Ok,
    ensures
        lattice_equivalent(b, lll_result(b, p, q, steps)->Ok_0),
{
    let none = Seq::<ColumnOp>::empty();
    assert(apply_ops(b, none) == b);
    assert(ops_valid(none, b.len()));
    if b.len() >= 2 {
        lemma_run_equivalent(b, none, p, q, 1, steps);
    }
}

} // verus!
