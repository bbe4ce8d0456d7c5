//! The Burrows-Wheeler transform of a block and its inverse.
//!
//! The forward transform sorts the rotations of the block and keeps the
//! last byte of each, with the row at which the block itself stands. The
//! inverse rebuilds the block from that column and that row alone, walking
//! backwards through the block by counting.

use vstd::prelude::*;
use crate::rotation::{pred_offset, is_rotation_order, lemma_permutation_onto};
use crate::sorter::matrix_sort;
use crate::inversion::lemma_bwt_round_trip;
use crate::counting::{
    count_eq, count_below, is_histogram, placed_by_counts, sorted, lemma_count_take,
    lemma_count_take_next, lemma_count_below_step, lemma_placed_run,
};

verus! {

/// The last byte of each rotation of `x`, in the order in which `ord` lists
/// the rotations: the byte that stands just before each offset.
pub open spec fn last_column(x: Seq<u8>, ord: Seq<u32>) -> Seq<u8> {
    Seq::new(x.len(), |k: int| x[pred_offset(x.len() as int, ord[k] as int)])
}

/// `column` and `primary` are the transform of `x` as the rotation order
/// `ord` gives it.
pub open spec fn is_bwt_by(x: Seq<u8>, ord: Seq<u32>, column: Seq<u8>, primary: int) -> bool {
    &&& is_rotation_order(x, ord)
    &&& column == last_column(x, ord)
    &&& 0 <= primary < x.len()
    &&& ord[primary] == 0
}

/// `column` and `primary` are a Burrows-Wheeler transform of `x`: the last
/// column of the sorted rotations of `x`, and a row at which `x` itself
/// stands. The empty block has the empty column and row 0.
pub open spec fn is_bwt(x: Seq<u8>, column: Seq<u8>, primary: int) -> bool {
    if x.len() == 0 {
        column.len() == 0 && primary == 0
    } else {
        exists|ord: Seq<u32>| is_bwt_by(x, ord, column, primary)
    }
}

/// The row of the sorted first column to which row `i` of the last column
/// `l` leads: past every byte smaller than `l[i]`, and past as many copies
/// of `l[i]` as stand before row `i`.
pub open spec fn lf_step(l: Seq<u8>, i: int) -> int {
    (count_below(l, l[i] as int) + count_eq(l.take(i), l[i] as int)) as int
}

/// The row reached from `start` after `t` steps.
pub open spec fn lf_walk(l: Seq<u8>, start: int, t: nat) -> int
    decreases t,
{
    if t == 0 {
        start
    } else {
        lf_step(l, lf_walk(l, start, (t - 1) as nat))
    }
}

/// The block that the walk from row `start` spells out of the column `l`,
/// last byte first.
pub open spec fn inverse_bwt(l: Seq<u8>, start: int) -> Seq<u8> {
    Seq::new(l.len(), |j: int| l[lf_walk(l, start, (l.len() - 1 - j) as nat)])
}

/// A step from a row of the column leads to a row of the column.
pub proof fn lemma_lf_step_bound(l: Seq<u8>, i: int)
    requires
        0 <= i < l.len(),
    ensures
        0 <= lf_step(l, i) < l.len(),
        count_eq(l.take(i), l[i] as int) < count_eq(l, l[i] as int),
{
    let b = l[i] as int;
    lemma_count_take_next(l, i, b);
    lemma_count_take(l, i + 1, l.len() as int, b);
    assert(l.take(l.len() as int) =~= l);
    lemma_count_below_step(l, b);
    lemma_count_below_step(l, b + 1);
}

/// The forward transform: the last column of the sorted rotations of
/// `data`, and the row at which the rotation that starts at offset 0
/// stands.
pub fn bwt(data: &[u8]) -> (r: (Vec<u8>, u32))
    requires
        data@.len() <= u32::MAX,
    ensures
        is_bwt(data@, r.0@, r.1 as int),
        r.0@.len() == data@.len(),
        data@.len() > 0 ==> r.1 < data@.len(),
        inverse_bwt(r.0@, r.1 as int) == data@,
{
    let n = data.len();
    if n == 0 {
        let column: Vec<u8> = Vec::new();
        proof {
            lemma_bwt_round_trip(data@, column@, 0);
        }
        return (column, 0);
    }
    let matrix = matrix_sort(data);
    let mut idx: u32 = 0;
    let mut last_col: Vec<u8> = Vec::with_capacity(n);
    let mut i: usize = 0;
    while i < n
        invariant
            n == data@.len(),
            0 < n <= u32::MAX,
            i <= n,
            is_rotation_order(data@, matrix@),
            last_col@.len() == i,
            forall|k: int|
                0 <= k < i ==> #[trigger] last_col@[k] == data@[pred_offset(
                    n as int,
                    matrix@[k] as int,
                )],
            forall|k: int| 0 <= k < i && #[trigger] matrix@[k] == 0 ==> idx == k,
        decreases n - i,
    {
        let row = matrix[i] as usize;
        assert(matrix@[i as int] < matrix@.len());
        if row == 0 {
            idx = i as u32;
        }
        let before: usize = if row == 0 { n - 1 } else { row - 1 };
        last_col.push(data[before]);
        i += 1;
    }
    proof {
        lemma_permutation_onto(matrix@, 0);
        assert(last_col@ =~= last_column(data@, matrix@));
        assert(is_bwt_by(data@, matrix@, last_col@, idx as int));
        lemma_bwt_round_trip(data@, last_col@, idx as int);
    }
    (last_col, idx)
}

/// How many of the first `m` entries of `counts` are not zero.
spec fn count_present(counts: Seq<u32>, m: int) -> nat
    decreases m,
{
    if m <= 0 {
        0
    } else {
        count_present(counts, m - 1) + if counts[m - 1] > 0 { 1nat } else { 0nat }
    }
}

/// How many of the first `m` entries of `first` have been set.
spec fn count_set(first: Seq<u32>, m: int) -> nat
    decreases m,
{
    if m <= 0 {
        0
    } else {
        count_set(first, m - 1) + if first[m - 1] != u32::MAX { 1nat } else { 0nat }
    }
}

/// Where no entry has been set, the number of set entries is zero.
proof fn lemma_count_set_none(first: Seq<u32>, m: int)
    requires
        0 <= m <= first.len(),
        forall|b: int| 0 <= b < m ==> #[trigger] first[b] == u32::MAX,
    ensures
        count_set(first, m) == 0,
    decreases m,
{
    if m > 0 {
        lemma_count_set_none(first, m - 1);
    }
}

/// Setting one entry that was not set adds one to the number of set
/// entries beyond it, and none below it.
proof fn lemma_count_set_update(first: Seq<u32>, b: int, v: u32, m: int)
    requires
        0 <= b < first.len(),
        first[b] == u32::MAX,
        v != u32::MAX,
        0 <= m <= first.len(),
    ensures
        count_set(first.update(b, v), m) == count_set(first, m) + if b < m { 1nat } else { 0nat },
    decreases m,
{
    if m > 0 {
        lemma_count_set_update(first, b, v, m - 1);
    }
}

/// Where only bytes that occur have an entry set, no more entries are set
/// than bytes occur; and when as many are set, every byte that occurs has
/// its entry set.
proof fn lemma_count_set_full(first: Seq<u32>, counts: Seq<u32>, m: int, b: int)
    requires
        first.len() == 256,
        counts.len() == 256,
        0 <= m <= 256,
        forall|c: int| 0 <= c < 256 && #[trigger] first[c] != u32::MAX ==> counts[c] > 0,
    ensures
        count_set(first, m) <= count_present(counts, m),
        0 <= b < m && counts[b] > 0 && first[b] == u32::MAX ==> count_set(first, m)
            < count_present(counts, m),
    decreases m,
{
    if m > 0 {
        lemma_count_set_full(first, counts, m - 1, b);
    }
}

/// The number of byte values that occur, from their histogram.
fn distinct_bytes(counts: &[u32; 256]) -> (total: usize)
    ensures
        total == count_present(counts@, 256),
        total <= 256,
{
    let mut total: usize = 0;
    let mut b: usize = 0;
    while b < 256
        invariant
            b <= 256,
            total == count_present(counts@, b as int),
            total <= b,
        decreases 256 - b,
    {
        if counts[b] > 0 {
            total += 1;
        }
        b += 1;
    }
    total
}

/// The inverse transform: the block of which `data` is the last column and
/// `start` the row at which the block itself stands.
///
/// The result is what the walk from `start` spells, for any column and any
/// row of it; `lemma_bwt_round_trip` shows that on a transform this is the
/// block that was transformed.
pub fn ibwt(data: &[u8], start: u32) -> (out: Vec<u8>)
    requires
        data@.len() <= u32::MAX,
        data@.len() > 0 ==> start < data@.len(),
    ensures
        out@ == inverse_bwt(data@, start as int),
{
    let n = data.len();
    if n == 0 {
        let out: Vec<u8> = Vec::new();
        assert(out@ =~= inverse_bwt(data@, start as int));
        return out;
    }
    let ghost l = data@;

    // For each row, how many copies of its byte stand above it.
    let mut shortcut: Vec<u32> = Vec::new();
    let mut counts: [u32; 256] = [0u32; 256];
    let mut i: usize = 0;
    while i < n
        invariant
            l == data@,
            n == l.len(),
            i <= n <= u32::MAX,
            shortcut@.len() == i,
            forall|b: int| 0 <= b < 256 ==> #[trigger] counts@[b] == count_eq(l.take(i as int), b),
            forall|k: int|
                0 <= k < i ==> #[trigger] shortcut@[k] == count_eq(l.take(k), l[k] as int),
        decreases n - i,
    {
        let current_byte = data[i] as usize;
        shortcut.push(counts[current_byte]);
        proof {
            lemma_count_below_step(l.take(i as int), current_byte as int);
            assert forall|b: int| 0 <= b < 256 implies count_eq(l.take(i + 1), b) == count_eq(
                l.take(i as int),
                b,
            ) + if b == current_byte { 1nat } else { 0nat } by {
                lemma_count_take_next(l, i as int, b);
            }
        }
        counts[current_byte] = counts[current_byte] + 1;
        i += 1;
    }
    assert(l.take(n as int) =~= l);
    assert(is_histogram(counts@, l));

    // The sorted first column, and for each byte the row at which its run starts.
    let mut first_occ: [u32; 256] = [u32::MAX; 256];
    let total_distinct = distinct_bytes(&counts);
    let mut num_distinct: usize = 0;
    let first_col = sorted(data, &counts);
    let mut i: usize = 0;
    proof {
        lemma_count_set_none(first_occ@, 256);
    }
    while i < n && num_distinct < total_distinct
        invariant
            l == data@,
            n == l.len(),
            i <= n <= u32::MAX,
            is_histogram(counts@, l),
            placed_by_counts(first_col@, l),
            total_distinct == count_present(counts@, 256),
            num_distinct == count_set(first_occ@, 256),
            forall|b: int|
                0 <= b < 256 && #[trigger] first_occ@[b] != u32::MAX ==> counts@[b] > 0
                    && first_occ@[b] == count_below(l, b),
            forall|k: int| 0 <= k < i ==> first_occ@[#[trigger] first_col@[k] as int] != u32::MAX,
        decreases n - i,
    {
        let idx = first_col[i] as usize;
        if first_occ[idx] == u32::MAX {
            proof {
                // Row i is where the run of this byte starts.
                let at = count_below(l, idx as int) as int;
                lemma_count_below_step(l, idx as int);
                if at < i {
                    lemma_placed_run(first_col@, l, idx as int, at);
                    assert(first_occ@[first_col@[at] as int] != u32::MAX);
                }
                lemma_count_set_update(first_occ@, idx as int, i as u32, 256);
                lemma_count_set_full(first_occ@.update(idx as int, i as u32), counts@, 256, 0);
            }
            first_occ[idx] = i as u32;
            num_distinct += 1;
        }
        i += 1;
    }
    proof {
        assert forall|b: int| 0 <= b < 256 && counts@[b] > 0 implies #[trigger] first_occ@[b]
            == count_below(l, b) by {
            if first_occ@[b] == u32::MAX {
                lemma_count_set_full(first_occ@, counts@, 256, b);
                // The scan ran to the end, so the run of b was passed.
                lemma_count_below_step(l, b);
                lemma_placed_run(first_col@, l, b, count_below(l, b) as int);
                assert(first_occ@[first_col@[count_below(l, b) as int] as int] != u32::MAX);
            }
        }
    }

    // The walk, which yields the block last byte first.
    let mut output = first_col;
    let mut local_idx: usize = start as usize;
    let mut i: usize = 0;
    while i < n
        invariant
            l == data@,
            n == l.len(),
            i <= n <= u32::MAX,
            is_histogram(counts@, l),
            shortcut@.len() == n,
            forall|k: int|
                0 <= k < n ==> #[trigger] shortcut@[k] == count_eq(l.take(k), l[k] as int),
            forall|b: int|
                0 <= b < 256 && counts@[b] > 0 ==> #[trigger] first_occ@[b] == count_below(l, b),
            output@.len() == n,
            local_idx < n,
            start < n,
            local_idx == lf_walk(l, start as int, i as nat),
            forall|j: int|
                n - i <= j < n ==> #[trigger] output@[j] == l[lf_walk(
                    l,
                    start as int,
                    (n - 1 - j) as nat,
                )],
        decreases n - i,
    {
        let next_byte = data[local_idx];
        output[n - i - 1] = next_byte;
        proof {
            lemma_lf_step_bound(l, local_idx as int);
        }
        local_idx = first_occ[next_byte as usize] as usize + shortcut[local_idx] as usize;
        i += 1;
    }
    assert(output@ =~= inverse_bwt(l, start as int));
    output
}

} // verus!
