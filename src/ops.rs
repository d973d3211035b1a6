//! Elementary unimodular column operations and lattice equivalence.
use vstd::prelude::*;

verus! {

/// An elementary unimodular column operation on a basis.
pub enum ColumnOp {
    /// Exchange columns `k - 1` and `k`.
    Swap { k: nat },
    /// Replace column `k` by column `k` minus `c` times column `j`.
    SubMul { k: nat, j: nat, c: int },
}

/// `u - c * v`, entry by entry.
pub open spec fn sub_mul(u: Seq<int>, v: Seq<int>, c: int) -> Seq<int> {
    Seq::new(u.len(), |t: int| u[t] - c * v[t])
}

/// The operation applies to a basis of `n` columns and is invertible.
pub open spec fn op_valid(op: ColumnOp, n: nat) -> bool {
    match op {
        ColumnOp::Swap { k } => 1 <= k < n,
        ColumnOp::SubMul { k, j, c } => k < n && j < n && k != j,
    }
}

pub open spec fn ops_valid(ops: Seq<ColumnOp>, n: nat) -> bool {
    forall|s: int| 0 <= s < ops.len() ==> op_valid(#[trigger] ops[s], n)
}

pub open spec fn apply_op(b: Seq<Seq<int>>, op: ColumnOp) -> Seq<Seq<int>> {
    match op {
        ColumnOp::Swap { k } => b.update(k - 1, b[k as int]).update(k as int, b[k - 1]),
        ColumnOp::SubMul { k, j, c } => b.update(k as int, sub_mul(b[k as int], b[j as int], c)),
    }
}

/// The basis obtained by applying `ops` in order.
pub open spec fn apply_ops(b: Seq<Seq<int>>, ops: Seq<ColumnOp>) -> Seq<Seq<int>>
    decreases ops.len(),
{
    if ops.len() == 0 {
        b
    } else {
        apply_op(apply_ops(b, ops.drop_last()), ops.last())
    }
}

pub open spec fn inverse_op(op: ColumnOp) -> ColumnOp {
    match op {
        ColumnOp::Swap { k } => ColumnOp::Swap { k },
        ColumnOp::SubMul { k, j, c } => ColumnOp::SubMul { k, j, c: -c },
    }
}

/// The operations that undo `ops`: each one inverted, in reverse order.
pub open spec fn inverse_ops(ops: Seq<ColumnOp>) -> Seq<ColumnOp> {
    Seq::new(ops.len(), |s: int| inverse_op(ops[ops.len() - 1 - s]))
}

/// `r` spans the same lattice as `b`: it is obtained from `b` by a sequence
/// of column swaps and additions of integer multiples of other columns, each
/// of them an integer matrix of determinant plus or minus one.
pub open spec fn lattice_equivalent(b: Seq<Seq<int>>, r: Seq<Seq<int>>) -> bool {
    exists|ops: Seq<ColumnOp>| ops_valid(ops, b.len()) && r == apply_ops(b, ops)
}

/// All columns have length `m`.
pub open spec fn columns_of_len(b: Seq<Seq<int>>, m: nat) -> bool {
    forall|i: int| 0 <= i < b.len() ==> #[trigger] b[i].len() == m
}

pub proof fn lemma_apply_op_shape(b: Seq<Seq<int>>, op: ColumnOp, m: nat)
    requires
        op_valid(op, b.len()),
        columns_of_len(b, m),
    ensures
        apply_op(b, op).len() == b.len(),
        columns_of_len(apply_op(b, op), m),
{
}

proof fn lemma_inverse_op(b: Seq<Seq<int>>, op: ColumnOp, m: nat)
    requires
        op_valid(op, b.len()),
        columns_of_len(b, m),
    ensures
        apply_op(apply_op(b, op), inverse_op(op)) == b,
{
    let r = apply_op(apply_op(b, op), inverse_op(op));
    match op {
        ColumnOp::Swap { k } => {
            assert(r =~= b);
        },
        ColumnOp::SubMul { k, j, c } => {
            let nk = sub_mul(b[k as int], b[j as int], c);
            assert forall|t: int| 0 <= t < m implies #[trigger] sub_mul(nk, b[j as int], -c)[t]
                == b[k as int][t] by {
                let x = b[k as int][t];
                let y = b[j as int][t];
                assert((x - c * y) - (-c) * y == x) by (nonlinear_arith);
            }
            assert(sub_mul(nk, b[j as int], -c) =~= b[k as int]);
            assert(r =~= b);
        },
    }
}

proof fn lemma_apply_ops_shape(b: Seq<Seq<int>>, ops: Seq<ColumnOp>, m: nat)
    requires
        ops_valid(ops, b.len()),
        columns_of_len(b, m),
    ensures
        apply_ops(b, ops).len() == b.len(),
        columns_of_len(apply_ops(b, ops), m),
    decreases ops.len(),
{
    if ops.len() > 0 {
        let pre = ops.drop_last();
        assert(ops_valid(pre, b.len())) by {
            assert forall|s: int| 0 <= s < pre.len() implies op_valid(#[trigger] pre[s], b.len()) by {
                assert(pre[s] == ops[s]);
            }
        }
        lemma_apply_ops_shape(b, pre, m);
        assert(op_valid(ops[ops.len() - 1], b.len()));
        lemma_apply_op_shape(apply_ops(b, pre), ops.last(), m);
    }
}

pub proof fn lemma_apply_ops_push(b: Seq<Seq<int>>, ops: Seq<ColumnOp>, op: ColumnOp)
    ensures
        apply_ops(b, ops.push(op)) == apply_op(apply_ops(b, ops), op),
{
    assert(ops.push(op).drop_last() =~= ops);
}

/// Applying `ops` and then their inverses gives back the basis.
proof fn lemma_undo(b: Seq<Seq<int>>, ops: Seq<ColumnOp>, m: nat)
    requires
        ops_valid(ops, b.len()),
        columns_of_len(b, m),
    ensures
        apply_ops(apply_ops(b, ops), inverse_ops(ops)) == b,
    decreases ops.len(),
{
    if ops.len() > 0 {
        let pre = ops.drop_last();
        let op = ops.last();
        assert(ops_valid(pre, b.len())) by {
            assert forall|s: int| 0 <= s < pre.len() implies op_valid(#[trigger] pre[s], b.len()) by {
                assert(pre[s] == ops[s]);
            }
        }
        assert(op_valid(ops[ops.len() - 1], b.len()));
        lemma_apply_ops_shape(b, pre, m);
        let mid = apply_ops(b, pre);
        // inverse_ops(ops) is inverse_op(op) followed by inverse_ops(pre)
        let inv = inverse_ops(ops);
        lemma_split_apply(apply_ops(b, ops), inverse_op(op), inverse_ops(pre));
        assert(inv =~= seq![inverse_op(op)] + inverse_ops(pre));
        lemma_inverse_op(mid, op, m);
        lemma_undo(b, pre, m);
    }
}

/// Applying `seq![op] + rest` is applying `op`, then `rest`.
proof fn lemma_split_apply(b: Seq<Seq<int>>, op: ColumnOp, rest: Seq<ColumnOp>)
    ensures
        apply_ops(b, seq![op] + rest) == apply_ops(apply_op(b, op), rest),
    decreases rest.len(),
{
    if rest.len() == 0 {
        assert(seq![op] + rest =~= seq![op]);
        assert(seq![op].drop_last() =~= Seq::<ColumnOp>::empty());
        assert(apply_ops(b, seq![op]) == apply_op(apply_ops(b, seq![op].drop_last()), op));
    } else {
        let all = seq![op] + rest;
        assert(all.drop_last() =~= seq![op] + rest.drop_last());
        assert(all.last() == rest.last());
        lemma_split_apply(b, op, rest.drop_last());
        assert(apply_ops(b, all) == apply_op(apply_ops(b, all.drop_last()), all.last()));
        assert(apply_ops(apply_op(b, op), rest) == apply_op(
            apply_ops(apply_op(b, op), rest.drop_last()),
            rest.last(),
        ));
    }
}

/// Lattice equivalence is symmetric: the inverse operations are valid and
/// carry the reduced basis back to the starting one, so each basis is an
/// integer combination of the other.
pub proof fn lemma_lattice_equivalent_symmetric(b: Seq<Seq<int>>, r: Seq<Seq<int>>, m: nat)
    requires
        columns_of_len(b, m),
        lattice_equivalent(b, r),
    ensures
        lattice_equivalent(r, b),
{
    let ops = choose|ops: Seq<ColumnOp>| ops_valid(ops, b.len()) && r == apply_ops(b, ops);
    lemma_undo(b, ops, m);
    lemma_apply_ops_shape(b, ops, m);
    let inv = inverse_ops(ops);
    assert(ops_valid(inv, r.len())) by {
        assert forall|s: int| 0 <= s < inv.len() implies op_valid(#[trigger] inv[s], r.len()) by {
            assert(op_valid(ops[ops.len() - 1 - s], b.len()));
        }
    }
}

} // verus!
