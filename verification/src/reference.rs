//! The transform and its inverse done the long way: every rotation is
//! written out in full and the rows are sorted as strings.
//!
//! These forms cost a square of the block's length in space and more in
//! time. They are here to hold `bwt` and `ibwt` against.

use vstd::prelude::*;
use crate::rotation::{
    rotation, pred_offset, agree_upto, lex_lt, lex_lt_at, lex_le, is_permutation,
    is_rotation_order, is_sorted_order, lemma_lex_total, lemma_lex_lt_asym, lemma_lex_le_trans,
    lemma_permutation_onto, lemma_rotation_orders_agree, lemma_sorted_orders_agree,
};
use crate::transform::{last_column, is_bwt, is_bwt_by};
use crate::inversion::{lemma_pred_rotation, lemma_bwt_round_trip};

verus! {

/// No row of the sorted rotations of `x` above row `row` holds `x` itself.
pub open spec fn is_first_row(x: Seq<u8>, row: int) -> bool {
    forall|ord: Seq<u32>, k: int|
        is_rotation_order(x, ord) && 0 <= k < row ==> rotation(x, #[trigger] ord[k] as int) != x
}

/// The rows never decrease.
spec fn rows_sorted(rows: Seq<Vec<u8>>, upto: int) -> bool {
    forall|i: int, j: int| 0 <= i < j < upto ==> lex_le(#[trigger] rows[i]@, #[trigger] rows[j]@)
}

/// All rows have `width` bytes.
spec fn rows_have_width(rows: Seq<Vec<u8>>, width: int) -> bool {
    forall|k: int| 0 <= k < rows.len() ==> (#[trigger] rows[k])@.len() == width
}

/// `from` names each index below `n` once.
spec fn is_rearrangement(from: Seq<int>, n: int) -> bool {
    &&& from.len() == n
    &&& forall|k: int| 0 <= k < n ==> 0 <= #[trigger] from[k] < n
    &&& forall|i: int, j: int| 0 <= i < j < n ==> #[trigger] from[i] != #[trigger] from[j]
}

/// Row `k` of `after` is row `from[k]` of `before`.
spec fn rows_moved(before: Seq<Vec<u8>>, after: Seq<Vec<u8>>, from: Seq<int>) -> bool {
    &&& after.len() == before.len()
    &&& is_rearrangement(from, before.len() as int)
    &&& forall|k: int| 0 <= k < after.len() ==> (#[trigger] after[k])@ == before[from[k]]@
}

/// A prefix of the smaller of two strings is not above the same prefix of
/// the greater.
proof fn lemma_prefix_keeps_order(s: Seq<u8>, t: Seq<u8>, m: int)
    requires
        s.len() == t.len(),
        0 <= m <= s.len(),
        lex_le(s, t),
    ensures
        lex_le(s.take(m), t.take(m)),
{
    if s != t {
        let d = choose|d: int| lex_lt_at(s, t, d);
        if d < m {
            assert(lex_lt_at(s.take(m), t.take(m), d));
        } else {
            assert(s.take(m) =~= t.take(m));
        }
    }
}

/// Exchanging two offsets whose rotations are equal keeps a rotation
/// order, and keeps its last column.
proof fn lemma_exchange_equal_rows(x: Seq<u8>, ord: Seq<u32>, a: int, b: int)
    requires
        is_rotation_order(x, ord),
        0 <= a < x.len(),
        0 <= b < x.len(),
        rotation(x, ord[a] as int) == rotation(x, ord[b] as int),
    ensures
        is_rotation_order(x, ord.update(a, ord[b]).update(b, ord[a])),
        last_column(x, ord.update(a, ord[b]).update(b, ord[a])) == last_column(x, ord),
{
    let n = x.len() as int;
    let other = ord.update(a, ord[b]).update(b, ord[a]);
    assert forall|k: int| 0 <= k < n implies rotation(x, #[trigger] other[k] as int) == rotation(
        x,
        ord[k] as int,
    ) && other[k] < n by {
        assert(ord[k] < ord.len());
        assert(ord[a] < ord.len());
        assert(ord[b] < ord.len());
    }
    assert forall|i: int, j: int| 0 <= i < j < n implies #[trigger] other[i] != #[trigger] other[j]
        && lex_le(rotation(x, other[i] as int), rotation(x, other[j] as int)) by {
        let si = if i == a { b } else if i == b { a } else { i };
        let sj = if j == a { b } else if j == b { a } else { j };
        assert(other[i] == ord[si]);
        assert(other[j] == ord[sj]);
        if si < sj {
            assert(ord[si] != ord[sj]);
        } else {
            assert(ord[sj] != ord[si]);
        }
        assert(lex_le(rotation(x, ord[i] as int), rotation(x, ord[j] as int)));
    }
    assert forall|k: int| 0 <= k < n implies last_column(x, other)[k] == last_column(x, ord)[k] by {
        assert(ord[k] < ord.len());
        assert(other[k] < n);
        lemma_pred_rotation(x, ord[k] as int);
        lemma_pred_rotation(x, other[k] as int);
    }
    assert(last_column(x, other) =~= last_column(x, ord));
}

/// Whether row `a` is strictly greater than row `b`, two rows of one length.
fn row_greater(a: &Vec<u8>, b: &Vec<u8>) -> (r: bool)
    requires
        a@.len() == b@.len(),
    ensures
        r == lex_lt(b@, a@),
{
    let n = a.len();
    let mut e: usize = 0;
    while e < n
        invariant
            n == a@.len(),
            n == b@.len(),
            e <= n,
            agree_upto(a@, b@, e as int),
        decreases n - e,
    {
        if a[e] != b[e] {
            proof {
                if a[e as int] > b[e as int] {
                    assert(lex_lt_at(b@, a@, e as int));
                } else {
                    assert(lex_lt_at(a@, b@, e as int));
                    lemma_lex_lt_asym(a@, b@);
                }
            }
            return a[e] > b[e];
        }
        e += 1;
    }
    proof {
        assert(a@ =~= b@);
        if lex_lt(b@, a@) {
            lemma_lex_lt_asym(b@, a@);
        }
    }
    false
}

/// Whether `row` holds the bytes of `data`.
fn row_equals(row: &Vec<u8>, data: &[u8]) -> (r: bool)
    ensures
        r == (row@ == data@),
{
    if row.len() != data.len() {
        return false;
    }
    let n = row.len();
    let mut e: usize = 0;
    while e < n
        invariant
            n == row@.len(),
            n == data@.len(),
            e <= n,
            forall|k: int| 0 <= k < e ==> row@[k] == data@[k],
        decreases n - e,
    {
        if row[e] != data[e] {
            return false;
        }
        e += 1;
    }
    assert(row@ =~= data@);
    true
}

/// Sorts rows of one length, and says from which index each row came.
fn sort_rows(rows: &mut Vec<Vec<u8>>, Ghost(width): Ghost<int>) -> (from: Ghost<Seq<int>>)
    requires
        rows_have_width(old(rows)@, width),
    ensures
        rows_have_width(final(rows)@, width),
        rows_moved(old(rows)@, final(rows)@, from@),
        rows_sorted(final(rows)@, final(rows)@.len() as int),
{
    let n = rows.len();
    let ghost mut from: Seq<int> = Seq::new(n as nat, |k: int| k);
    if n == 0 {
        return Ghost(from);
    }
    let mut i: usize = 1;
    while i < n
        invariant
            n == rows@.len(),
            1 <= i <= n,
            rows_have_width(rows@, width),
            rows_moved(old(rows)@, rows@, from),
            rows_sorted(rows@, i as int),
        decreases n - i,
    {
        let mut j: usize = i;
        while j > 0 && row_greater(&rows[j - 1], &rows[j])
            invariant
                n == rows@.len(),
                0 <= j <= i < n,
                rows_have_width(rows@, width),
                rows_moved(old(rows)@, rows@, from),
                forall|p: int, q: int|
                    0 <= p < q <= i && p != j && q != j ==> lex_le(
                        #[trigger] rows@[p]@,
                        #[trigger] rows@[q]@,
                    ),
                forall|q: int| j < q <= i ==> lex_lt(rows@[j as int]@, #[trigger] rows@[q]@),
            decreases j,
        {
            let ghost before = rows@;
            let row = rows.remove(j);
            rows.insert(j - 1, row);
            proof {
                assert(rows@ =~= before.update(j - 1, before[j as int]).update(
                    j as int,
                    before[j - 1],
                ));
                from = from.update(j - 1, from[j as int]).update(j as int, from[j - 1]);
            }
            j -= 1;
        }
        proof {
            assert forall|p: int, q: int| 0 <= p < q < i + 1 implies lex_le(
                #[trigger] rows@[p]@,
                #[trigger] rows@[q]@,
            ) by {
                if q == j {
                    let below = rows@[j - 1]@;
                    let here = rows@[j as int]@;
                    lemma_lex_total(below, here);
                    if p < j - 1 {
                        lemma_lex_le_trans(rows@[p]@, below, here);
                    }
                }
            }
        }
        i += 1;
    }
    Ghost(from)
}

/// The rotation of `data` that starts at `offset`, written out.
fn rotation_row(data: &[u8], offset: usize) -> (row: Vec<u8>)
    requires
        offset < data@.len(),
    ensures
        row@ == rotation(data@, offset as int),
{
    let n = data.len();
    let mut row: Vec<u8> = Vec::with_capacity(n);
    let mut k: usize = offset;
    while k < n
        invariant
            offset <= k <= n,
            n == data@.len(),
            row@.len() == k - offset,
            forall|d: int| 0 <= d < k - offset ==> #[trigger] row@[d] == data@[offset + d],
        decreases n - k,
    {
        row.push(data[k]);
        k += 1;
    }
    let mut k: usize = 0;
    while k < offset
        invariant
            k <= offset < n,
            n == data@.len(),
            row@.len() == n - offset + k,
            forall|d: int| 0 <= d < n - offset ==> #[trigger] row@[d] == data@[offset + d],
            forall|d: int| n - offset <= d < n - offset + k ==> #[trigger] row@[d] == data@[d - (n - offset)],
        decreases offset - k,
    {
        row.push(data[k]);
        k += 1;
    }
    assert(row@ =~= rotation(data@, offset as int));
    row
}

/// The forward transform done the long way: all rotations are written
/// out and sorted as strings; the column is the last byte of each row, and
/// the row returned is the first that holds `data` itself.
pub fn bwt_ref(data: &[u8]) -> (r: (Vec<u8>, u32))
    requires
        data@.len() <= u32::MAX,
    ensures
        is_bwt(data@, r.0@, r.1 as int),
        is_first_row(data@, r.1 as int),
{
    let n = data.len();
    if n == 0 {
        return (Vec::new(), 0);
    }
    let ghost x = data@;
    let mut matrix: Vec<Vec<u8>> = Vec::new();
    let mut t: usize = 0;
    while t < n
        invariant
            x == data@,
            n == x.len(),
            0 < n <= u32::MAX,
            t <= n,
            matrix@.len() == t,
            forall|k: int| 0 <= k < t ==> (#[trigger] matrix@[k])@ == rotation(x, n - 1 - k),
        decreases n - t,
    {
        let row = rotation_row(data, n - 1 - t);
        matrix.push(row);
        t += 1;
    }
    let ghost unsorted = matrix@;
    let Ghost(from) = sort_rows(&mut matrix, Ghost(n as int));
    let ghost ord: Seq<u32> = Seq::new(n as nat, |k: int| (n - 1 - from[k]) as u32);
    proof {
        assert forall|k: int| 0 <= k < n implies (#[trigger] matrix@[k])@ == rotation(
            x,
            ord[k] as int,
        ) by {
            assert(matrix@[k]@ == unsorted[from[k]]@);
        }
        assert(is_permutation(ord));
        assert forall|i: int, j: int| 0 <= i < j < n implies lex_le(
            rotation(x, #[trigger] ord[i] as int),
            rotation(x, #[trigger] ord[j] as int),
        ) by {
            assert(lex_le(matrix@[i]@, matrix@[j]@));
        }
        assert(is_rotation_order(x, ord));
        lemma_permutation_onto(ord, 0);
    }
    let ghost home: int = choose|k: int| 0 <= k < ord.len() && #[trigger] ord[k] == 0;
    proof {
        assert(rotation(x, 0) =~= x);
    }
    let mut idx: usize = 0;
    while !row_equals(&matrix[idx], data)
        invariant
            x == data@,
            n == x.len(),
            matrix@.len() == n,
            0 <= idx <= home < n,
            matrix@[home]@ == x,
            forall|k: int| 0 <= k < idx ==> (#[trigger] matrix@[k])@ != x,
        decreases n - idx,
    {
        idx += 1;
    }
    let mut last_col: Vec<u8> = Vec::with_capacity(n);
    let mut k: usize = 0;
    while k < n
        invariant
            x == data@,
            n == x.len(),
            0 < n,
            k <= n,
            matrix@.len() == n,
            forall|q: int| 0 <= q < n ==> (#[trigger] matrix@[q])@ == rotation(x, ord[q] as int),
            last_col@.len() == k,
            forall|q: int| 0 <= q < k ==> #[trigger] last_col@[q] == rotation(x, ord[q] as int)[n - 1],
        decreases n - k,
    {
        let row = &matrix[k];
        last_col.push(row[n - 1]);
        k += 1;
    }
    proof {
        assert forall|q: int| 0 <= q < n implies last_col@[q] == last_column(x, ord)[q] by {
            assert(ord[q] < ord.len());
            lemma_pred_rotation(x, ord[q] as int);
        }
        assert(last_col@ =~= last_column(x, ord));
        lemma_exchange_equal_rows(x, ord, idx as int, home);
        let named = ord.update(idx as int, ord[home]).update(home, ord[idx as int]);
        assert(is_bwt_by(x, named, last_col@, idx as int));
        assert forall|other: Seq<u32>, q: int|
            is_rotation_order(x, other) && 0 <= q < idx implies rotation(
            x,
            #[trigger] other[q] as int,
        ) != x by {
            lemma_rotation_orders_agree(x, other, ord, q);
            assert(matrix@[q]@ != x);
        }
    }
    (last_col, idx as u32)
}

/// The rows as strings.
spec fn rows_as_strings(rows: Seq<Vec<u8>>) -> Seq<Seq<u8>> {
    Seq::new(rows.len(), |k: int| rows[k]@)
}

/// One round of the long inverse: where the rows held the first `r` bytes
/// of the sorted rotations, putting the column before them and sorting
/// gives the first `r + 1` bytes of the sorted rotations.
proof fn lemma_round_extends_rows(
    x: Seq<u8>,
    ord: Seq<u32>,
    l: Seq<u8>,
    primary: int,
    r: int,
    pre: Seq<Seq<u8>>,
    post: Seq<Seq<u8>>,
    from: Seq<int>,
)
    requires
        0 < x.len() <= u32::MAX,
        is_bwt_by(x, ord, l, primary),
        0 <= r < x.len(),
        pre.len() == x.len(),
        forall|k: int|
            0 <= k < x.len() ==> #[trigger] pre[k] == seq![l[k]] + rotation(x, ord[k] as int).take(
                r,
            ),
        post.len() == x.len(),
        is_rearrangement(from, x.len() as int),
        forall|k: int| 0 <= k < x.len() ==> #[trigger] post[k] == pre[from[k]],
        forall|i: int, j: int|
            0 <= i < j < x.len() ==> lex_le(#[trigger] post[i], #[trigger] post[j]),
    ensures
        forall|k: int|
            0 <= k < x.len() ==> #[trigger] post[k] == rotation(x, ord[k] as int).take(r + 1),
{
    let n = x.len() as int;
    let keys = Seq::new(n as nat, |i: int| rotation(x, i).take(r + 1));
    let off = Seq::new(n as nat, |k: int| pred_offset(n, ord[from[k]] as int) as u32);
    assert forall|k: int| 0 <= k < n implies #[trigger] pre[k] == keys[pred_offset(
        n,
        ord[k] as int,
    )] by {
        assert(ord[k] < ord.len());
        let i = ord[k] as int;
        lemma_pred_rotation(x, i);
        let moved = rotation(x, pred_offset(n, i));
        assert forall|e: int| 0 <= e < r + 1 implies pre[k][e] == moved[e] by {
            if e > 0 {
                assert(moved[(e - 1) + 1] == rotation(x, i)[e - 1]);
            }
        }
        assert(pre[k] =~= moved.take(r + 1));
    }
    assert forall|k: int| 0 <= k < n implies #[trigger] off[k] < n && post[k] == keys[off[k] as int] by {
        assert(ord[from[k]] < ord.len());
        assert(post[k] == pre[from[k]]);
    }
    assert forall|i: int, j: int| 0 <= i < j < n implies #[trigger] off[i] != #[trigger] off[j] by {
        let a = from[i];
        let b = from[j];
        assert(ord[a] < ord.len() && ord[b] < ord.len());
        if a < b {
            assert(ord[a] != ord[b]);
        } else {
            assert(ord[b] != ord[a]);
        }
    }
    assert(is_sorted_order(keys, off)) by {
        assert forall|i: int, j: int| 0 <= i < j < n implies lex_le(
            keys[#[trigger] off[i] as int],
            keys[#[trigger] off[j] as int],
        ) by {
            assert(lex_le(post[i], post[j]));
        }
    }
    assert(is_sorted_order(keys, ord)) by {
        assert forall|i: int, j: int| 0 <= i < j < n implies lex_le(
            keys[#[trigger] ord[i] as int],
            keys[#[trigger] ord[j] as int],
        ) by {
            assert(ord[i] < ord.len() && ord[j] < ord.len());
            lemma_prefix_keeps_order(rotation(x, ord[i] as int), rotation(x, ord[j] as int), r + 1);
        }
    }
    assert forall|k: int| 0 <= k < n implies #[trigger] post[k] == rotation(x, ord[k] as int).take(
        r + 1,
    ) by {
        lemma_sorted_orders_agree(keys, off, ord, k);
        assert(ord[k] < ord.len());
    }
}

/// A transform of a block has the length of the block.
proof fn lemma_bwt_length(x: Seq<u8>, column: Seq<u8>, primary: int)
    requires
        is_bwt(x, column, primary),
    ensures
        column.len() == x.len(),
{
    if x.len() > 0 {
        let ord = choose|ord: Seq<u32>| is_bwt_by(x, ord, column, primary);
    }
}

/// `byte` followed by the bytes of `row`.
fn prepended(byte: u8, row: &Vec<u8>) -> (longer: Vec<u8>)
    ensures
        longer@ == seq![byte] + row@,
{
    let n = row.len();
    let mut longer: Vec<u8> = Vec::new();
    longer.push(byte);
    let mut e: usize = 0;
    while e < n
        invariant
            n == row@.len(),
            e <= n,
            longer@ == seq![byte] + row@.take(e as int),
        decreases n - e,
    {
        longer.push(row[e]);
        e += 1;
        assert(longer@ =~= seq![byte] + row@.take(e as int));
    }
    assert(row@.take(n as int) =~= row@);
    longer
}

/// The inverse transform done the long way: as many times as the column
/// has bytes, the column is put before the rows and the rows are sorted;
/// the block is then the row at `start`.
///
/// Of a column and a row that are the transform of some block, the result
/// is that block.
pub fn ibwt_ref(data: &[u8], start: u32) -> (out: Vec<u8>)
    requires
        data@.len() <= u32::MAX,
        data@.len() > 0 ==> start < data@.len(),
    ensures
        out@.len() == data@.len(),
        forall|x: Seq<u8>| is_bwt(x, data@, start as int) ==> out@ == x,
{
    let n = data.len();
    let ghost l = data@;
    if n == 0 {
        let out: Vec<u8> = Vec::new();
        proof {
            assert forall|x: Seq<u8>| is_bwt(x, l, start as int) implies out@ == x by {
                lemma_bwt_length(x, l, start as int);
                assert(out@ =~= x);
            }
        }
        return out;
    }
    let ghost valid = exists|x: Seq<u8>| is_bwt(x, l, start as int);
    let ghost x = choose|x: Seq<u8>| is_bwt(x, l, start as int);
    let ghost ord = choose|ord: Seq<u32>| is_bwt_by(x, ord, l, start as int);
    proof {
        if valid {
            lemma_bwt_length(x, l, start as int);
        }
    }
    let mut matrix: Vec<Vec<u8>> = Vec::new();
    let mut k: usize = 0;
    while k < n
        invariant
            k <= n,
            matrix@.len() == k,
            rows_have_width(matrix@, 0),
        decreases n - k,
    {
        matrix.push(Vec::new());
        k += 1;
    }
    let mut round: usize = 0;
    proof {
        if valid {
            assert forall|k: int| 0 <= k < n implies (#[trigger] matrix@[k])@ == rotation(
                x,
                ord[k] as int,
            ).take(0) by {
                assert(matrix@[k]@ =~= rotation(x, ord[k] as int).take(0));
            }
        }
    }
    while round < n
        invariant
            l == data@,
            n == l.len(),
            0 < n <= u32::MAX,
            round <= n,
            matrix@.len() == n,
            rows_have_width(matrix@, round as int),
            valid ==> x.len() == n && is_bwt_by(x, ord, l, start as int),
            valid ==> forall|k: int|
                0 <= k < n ==> (#[trigger] matrix@[k])@ == rotation(x, ord[k] as int).take(
                    round as int,
                ),
        decreases n - round,
    {
        let mut next: Vec<Vec<u8>> = Vec::new();
        let mut k: usize = 0;
        while k < n
            invariant
                l == data@,
                n == l.len(),
                k <= n,
                matrix@.len() == n,
                rows_have_width(matrix@, round as int),
                next@.len() == k,
                forall|q: int| 0 <= q < k ==> (#[trigger] next@[q])@ == seq![l[q]] + matrix@[q]@,
            decreases n - k,
        {
            let row = prepended(data[k], &matrix[k]);
            next.push(row);
            k += 1;
        }
        let ghost before = matrix@;
        let ghost pre = rows_as_strings(next@);
        matrix = next;
        let Ghost(from) = sort_rows(&mut matrix, Ghost(round + 1));
        proof {
            if valid {
                let post = rows_as_strings(matrix@);
                assert forall|k: int| 0 <= k < n implies #[trigger] pre[k] == seq![l[k]] + rotation(
                    x,
                    ord[k] as int,
                ).take(round as int) by {
                    assert(before[k]@ == rotation(x, ord[k] as int).take(round as int));
                }
                assert forall|i: int, j: int| 0 <= i < j < n implies lex_le(
                    #[trigger] post[i],
                    #[trigger] post[j],
                ) by {
                    assert(lex_le(matrix@[i]@, matrix@[j]@));
                }
                lemma_round_extends_rows(x, ord, l, start as int, round as int, pre, post, from);
                assert forall|k: int| 0 <= k < n implies (#[trigger] matrix@[k])@ == rotation(
                    x,
                    ord[k] as int,
                ).take(round + 1) by {
                    assert(post[k] == rotation(x, ord[k] as int).take(round + 1));
                }
            }
        }
        round += 1;
    }
    let out = matrix.remove(start as usize);
    proof {
        assert forall|y: Seq<u8>| is_bwt(y, l, start as int) implies out@ == y by {
            lemma_bwt_length(y, l, start as int);
            lemma_bwt_round_trip(y, l, start as int);
            lemma_bwt_round_trip(x, l, start as int);
            assert(rotation(x, 0).take(n as int) =~= x);
        }
    }
    out
}

} // verus!
