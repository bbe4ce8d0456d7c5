//! Why the walk through the last column rebuilds the block.
//!
//! The step of the walk, taken from any row of the sorted rotations, leads
//! to a row that holds the same rotation moved one byte back. Rows that
//! hold equal rotations, which a periodic block has, may be told apart by
//! neither side, and need not be: every statement here is about the
//! rotation that a row holds, never about the offset that names it.

use vstd::prelude::*;
use crate::rotation::{
    rotation, pred_offset, lex_lt_at, lex_le, is_permutation, is_rotation_order,
    lemma_permutation_onto, lemma_rotation_orders_agree,
};
use crate::counting::{lemma_count_take, lemma_count_take_next, lemma_count_below_monotone};
use crate::transform::{
    last_column, is_bwt_by, is_bwt, lf_step, lf_walk, inverse_bwt, lemma_lf_step_bound,
};

verus! {

/// The rotation that starts one byte earlier is the last byte moved to the
/// front.
pub proof fn lemma_pred_rotation(x: Seq<u8>, i: int)
    requires
        0 <= i < x.len(),
    ensures
        rotation(x, pred_offset(x.len() as int, i))[0] == x[pred_offset(x.len() as int, i)],
        rotation(x, i)[x.len() - 1] == x[pred_offset(x.len() as int, i)],
        forall|e: int|
            0 <= e < x.len() - 1 ==> #[trigger] rotation(x, pred_offset(x.len() as int, i))[e + 1]
                == rotation(x, i)[e],
{
}

/// Moving the last byte to the front keeps the order of two rotations that
/// end in the same byte.
proof fn lemma_pred_keeps_order(x: Seq<u8>, i: int, j: int)
    requires
        0 <= i < x.len(),
        0 <= j < x.len(),
        x[pred_offset(x.len() as int, i)] == x[pred_offset(x.len() as int, j)],
        lex_le(rotation(x, i), rotation(x, j)),
    ensures
        lex_le(
            rotation(x, pred_offset(x.len() as int, i)),
            rotation(x, pred_offset(x.len() as int, j)),
        ),
        rotation(x, i) == rotation(x, j) ==> rotation(x, pred_offset(x.len() as int, i))
            == rotation(x, pred_offset(x.len() as int, j)),
{
    let n = x.len() as int;
    let s = rotation(x, i);
    let t = rotation(x, j);
    let s1 = rotation(x, pred_offset(n, i));
    let t1 = rotation(x, pred_offset(n, j));
    lemma_pred_rotation(x, i);
    lemma_pred_rotation(x, j);
    if s == t {
        assert forall|e: int| 0 <= e < n implies s1[e] == t1[e] by {
            if e > 0 {
                assert(s1[(e - 1) + 1] == s[e - 1]);
                assert(t1[(e - 1) + 1] == t[e - 1]);
            }
        }
        assert(s1 =~= t1);
    } else {
        let d = choose|d: int| lex_lt_at(s, t, d);
        if d + 1 < n {
            assert forall|e: int| 0 <= e < d + 1 implies s1[e] == t1[e] by {
                if e > 0 {
                    assert(s1[(e - 1) + 1] == s[e - 1]);
                    assert(t1[(e - 1) + 1] == t[e - 1]);
                }
            }
            assert(s1[d + 1] == s[d]);
            assert(t1[d + 1] == t[d]);
            assert(lex_lt_at(s1, t1, d + 1));
        }
    }
}

/// The step of the walk orders the rows by their byte in the column, and
/// rows with one byte by their place in the column.
proof fn lemma_lf_step_order(l: Seq<u8>, k1: int, k2: int)
    requires
        0 <= k1 < l.len(),
        0 <= k2 < l.len(),
        l[k1] < l[k2] || (l[k1] == l[k2] && k1 < k2),
    ensures
        lf_step(l, k1) < lf_step(l, k2),
{
    let b1 = l[k1] as int;
    let b2 = l[k2] as int;
    lemma_lf_step_bound(l, k1);
    if b1 < b2 {
        lemma_count_below_monotone(l, b1, b2);
    } else {
        lemma_count_take_next(l, k1, b1);
        lemma_count_take(l, k1 + 1, k2, b1);
    }
}

/// The rows from which the step leads to each row, as a sequence: entry
/// `k` is the row that the step reaches from row `k`.
spec fn lf_rows(l: Seq<u8>) -> Seq<u32> {
    Seq::new(l.len(), |k: int| lf_step(l, k) as u32)
}

/// The step of the walk is a permutation of the rows.
proof fn lemma_lf_rows_permutation(l: Seq<u8>)
    requires
        l.len() <= u32::MAX,
    ensures
        is_permutation(lf_rows(l)),
        forall|k: int| 0 <= k < l.len() ==> #[trigger] lf_rows(l)[k] == lf_step(l, k),
{
    let rows = lf_rows(l);
    assert forall|k: int| 0 <= k < rows.len() implies #[trigger] rows[k] < rows.len() && rows[k]
        == lf_step(l, k) by {
        lemma_lf_step_bound(l, k);
    }
    assert forall|i: int, j: int| 0 <= i < j < rows.len() implies #[trigger] rows[i]
        != #[trigger] rows[j] by {
        lemma_lf_step_bound(l, i);
        lemma_lf_step_bound(l, j);
        if l[i] <= l[j] {
            lemma_lf_step_order(l, i, j);
        } else {
            lemma_lf_step_order(l, j, i);
        }
    }
}

/// The row from which the step leads to row `m`.
spec fn lf_source(l: Seq<u8>, m: int) -> int {
    choose|k: int| 0 <= k < l.len() && #[trigger] lf_rows(l)[k] == m
}

/// Each row is reached from one row, and from no other.
proof fn lemma_lf_source(l: Seq<u8>, m: int)
    requires
        l.len() <= u32::MAX,
        0 <= m < l.len(),
    ensures
        0 <= lf_source(l, m) < l.len(),
        lf_step(l, lf_source(l, m)) == m,
        forall|k: int| 0 <= k < l.len() && lf_step(l, k) == m ==> k == lf_source(l, m),
{
    lemma_lf_rows_permutation(l);
    lemma_permutation_onto(lf_rows(l), m);
    let src = lf_source(l, m);
    assert forall|k: int| 0 <= k < l.len() && lf_step(l, k) == m implies k == src by {
        if k != src {
            assert(lf_rows(l)[k] == lf_rows(l)[src]);
        }
    }
}

/// The offsets of the rotations moved one byte back, each put at the row
/// to which the step leads from its own row.
spec fn stepped_order(x: Seq<u8>, ord: Seq<u32>) -> Seq<u32> {
    Seq::new(
        x.len(),
        |m: int| pred_offset(x.len() as int, ord[lf_source(last_column(x, ord), m)] as int) as u32,
    )
}

/// Putting each rotation, moved one byte back, at the row to which the
/// step leads gives a rotation order again.
proof fn lemma_stepped_order(x: Seq<u8>, ord: Seq<u32>)
    requires
        0 < x.len() <= u32::MAX,
        is_rotation_order(x, ord),
    ensures
        is_rotation_order(x, stepped_order(x, ord)),
{
    let n = x.len() as int;
    let l = last_column(x, ord);
    let st = stepped_order(x, ord);
    assert forall|m: int| 0 <= m < n implies #[trigger] st[m] < n && st[m] == pred_offset(
        n,
        ord[lf_source(l, m)] as int,
    ) by {
        lemma_lf_source(l, m);
        assert(ord[lf_source(l, m)] < ord.len());
    }
    assert forall|m1: int, m2: int| 0 <= m1 < m2 < n implies #[trigger] st[m1] != #[trigger] st[m2]
        && lex_le(rotation(x, st[m1] as int), rotation(x, st[m2] as int)) by {
        lemma_lf_source(l, m1);
        lemma_lf_source(l, m2);
        let k1 = lf_source(l, m1);
        let k2 = lf_source(l, m2);
        let i1 = ord[k1] as int;
        let i2 = ord[k2] as int;
        assert(ord[k1] < ord.len());
        assert(ord[k2] < ord.len());
        assert(k1 != k2);
        assert(i1 != i2) by {
            if k1 < k2 {
                assert(ord[k1] != ord[k2]);
            } else {
                assert(ord[k2] != ord[k1]);
            }
        }
        assert(st[m1] == pred_offset(n, i1));
        assert(st[m2] == pred_offset(n, i2));
        lemma_pred_rotation(x, i1);
        lemma_pred_rotation(x, i2);
        assert(l[k1] == x[pred_offset(n, i1)]);
        assert(l[k2] == x[pred_offset(n, i2)]);
        if l[k2] < l[k1] || (l[k2] == l[k1] && k2 < k1) {
            lemma_lf_step_order(l, k2, k1);
        }
        if l[k1] < l[k2] {
            assert(lex_lt_at(rotation(x, st[m1] as int), rotation(x, st[m2] as int), 0));
        } else {
            assert(lex_le(rotation(x, ord[k1] as int), rotation(x, ord[k2] as int)));
            lemma_pred_keeps_order(x, i1, i2);
        }
    }
}

/// From any row of the sorted rotations, the step leads to a row that
/// holds the same rotation moved one byte back.
proof fn lemma_step_moves_back(x: Seq<u8>, ord: Seq<u32>, k: int)
    requires
        0 < x.len() <= u32::MAX,
        is_rotation_order(x, ord),
        0 <= k < x.len(),
    ensures
        0 <= lf_step(last_column(x, ord), k) < x.len(),
        rotation(x, ord[lf_step(last_column(x, ord), k)] as int) == rotation(
            x,
            pred_offset(x.len() as int, ord[k] as int),
        ),
{
    let l = last_column(x, ord);
    let m = lf_step(l, k);
    lemma_lf_step_bound(l, k);
    lemma_lf_source(l, m);
    lemma_stepped_order(x, ord);
    lemma_rotation_orders_agree(x, ord, stepped_order(x, ord), m);
    assert(ord[k] < ord.len());
}

/// The offset at which the walk stands, as a rotation, after `t` steps
/// from the row of the block itself.
spec fn walked_offset(n: int, t: int) -> int {
    if t == 0 {
        0
    } else {
        n - t
    }
}

/// After `t` steps from a row that holds the block itself, the walk is at
/// a row that holds the block rotated back by `t` bytes.
proof fn lemma_walk_rotation(x: Seq<u8>, ord: Seq<u32>, primary: int, t: nat)
    requires
        0 < x.len() <= u32::MAX,
        is_rotation_order(x, ord),
        0 <= primary < x.len(),
        ord[primary] == 0,
        t < x.len(),
    ensures
        0 <= lf_walk(last_column(x, ord), primary, t) < x.len(),
        rotation(x, ord[lf_walk(last_column(x, ord), primary, t)] as int) == rotation(
            x,
            walked_offset(x.len() as int, t as int),
        ),
    decreases t,
{
    let n = x.len() as int;
    let l = last_column(x, ord);
    if t > 0 {
        let before = lf_walk(l, primary, (t - 1) as nat);
        lemma_walk_rotation(x, ord, primary, (t - 1) as nat);
        lemma_step_moves_back(x, ord, before);
        let i = ord[before] as int;
        let j = walked_offset(n, t - 1);
        assert(ord[before] < ord.len());
        lemma_pred_rotation(x, i);
        lemma_pred_rotation(x, j);
        lemma_pred_keeps_order(x, i, j);
        assert(pred_offset(n, j) == walked_offset(n, t as int));
    }
}

/// The inverse transform undoes the forward transform: whatever block `x`
/// the column and the row were made from, the walk spells `x`. This holds
/// of the empty block, of a block of equal bytes and of any other periodic
/// block, and whichever row of those that hold `x` was named.
pub proof fn lemma_bwt_round_trip(x: Seq<u8>, column: Seq<u8>, primary: int)
    requires
        x.len() <= u32::MAX,
        is_bwt(x, column, primary),
    ensures
        inverse_bwt(column, primary) == x,
{
    let n = x.len() as int;
    if n == 0 {
        assert(inverse_bwt(column, primary) =~= x);
    } else {
        let ord = choose|ord: Seq<u32>| is_bwt_by(x, ord, column, primary);
        let out = inverse_bwt(column, primary);
        assert forall|j: int| 0 <= j < n implies out[j] == x[j] by {
            let t = (n - 1 - j) as nat;
            lemma_walk_rotation(x, ord, primary, t);
            let row = lf_walk(column, primary, t);
            let i = ord[row] as int;
            let back = walked_offset(n, t as int);
            assert(ord[row] < ord.len());
            lemma_pred_rotation(x, i);
            lemma_pred_rotation(x, back);
            assert(column[row] == x[pred_offset(n, i)]);
            assert(pred_offset(n, back) == j);
        }
        assert(out =~= x);
    }
}

/// The block has one last column: two transforms of one block, made from
/// whichever rotation orders, hold the same column, and name rows that
/// hold the same rotation.
pub proof fn lemma_bwt_unique(
    x: Seq<u8>,
    column1: Seq<u8>,
    primary1: int,
    column2: Seq<u8>,
    primary2: int,
)
    requires
        is_bwt(x, column1, primary1),
        is_bwt(x, column2, primary2),
    ensures
        column1 == column2,
{
    let n = x.len() as int;
    if n == 0 {
        assert(column1 =~= column2);
    } else {
        let o1 = choose|ord: Seq<u32>| is_bwt_by(x, ord, column1, primary1);
        let o2 = choose|ord: Seq<u32>| is_bwt_by(x, ord, column2, primary2);
        assert forall|k: int| 0 <= k < n implies column1[k] == column2[k] by {
            lemma_rotation_orders_agree(x, o1, o2, k);
            assert(o1[k] < o1.len());
            assert(o2[k] < o2.len());
            lemma_pred_rotation(x, o1[k] as int);
            lemma_pred_rotation(x, o2[k] as int);
        }
        assert(column1 =~= column2);
    }
}

} // verus!
