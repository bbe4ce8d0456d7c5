//! Sorting the cyclic rotations of a block without copying any of them.
//!
//! A rotation is handled through the offset at which it starts. The
//! production sorter is a ternary quicksort over the byte at the current
//! depth; a plain comparison sort over whole rotations stands beside it as
//! a reference of its own.

use vstd::prelude::*;
use crate::rotation::{
    rot_key, rotation, agree_upto, lex_lt, lex_lt_at, lex_le, is_permutation, is_rotation_order,
    lemma_lex_total, lemma_lex_lt_asym, lemma_lex_le_trans, lemma_permutation_onto,
    lemma_rotation_orders_agree,
};

verus! {

/// The rotation at `h` agrees with the rotation at `rep` on its first `d` bytes.
spec fn shares_prefix(x: Seq<u8>, h: int, rep: int, d: int) -> bool {
    agree_upto(rotation(x, h), rotation(x, rep), d)
}

/// `b` holds what `a` holds at every index outside `lo..hi`.
spec fn same_outside(a: Seq<u32>, b: Seq<u32>, lo: int, hi: int) -> bool {
    &&& a.len() == b.len()
    &&& forall|k: int| 0 <= k < a.len() && !(lo <= k < hi) ==> #[trigger] b[k] == a[k]
}

/// The rotations listed at the indices `lo..hi` of `a` never decrease.
spec fn sorted_between(x: Seq<u8>, a: Seq<u32>, lo: int, hi: int) -> bool {
    forall|i: int, j: int|
        lo <= i < j < hi ==> lex_le(
            rotation(x, #[trigger] a[i] as int),
            rotation(x, #[trigger] a[j] as int),
        )
}

/// A permutation that was rearranged only inside `lo..hi` holds there, at
/// every index, an offset that it held there before.
proof fn lemma_stays_in_range(a: Seq<u32>, b: Seq<u32>, lo: int, hi: int, k: int)
    requires
        is_permutation(a),
        is_permutation(b),
        same_outside(a, b, lo, hi),
        0 <= lo <= k < hi <= a.len(),
    ensures
        exists|k0: int| lo <= k0 < hi && #[trigger] a[k0] == b[k],
{
    assert(b[k] < b.len());
    lemma_permutation_onto(a, b[k] as int);
    let k0 = choose|k0: int| 0 <= k0 < a.len() && #[trigger] a[k0] == b[k] as int;
    if !(lo <= k0 < hi) {
        assert(b[k0] == a[k0]);
        assert(b[k0] != b[k]);
    }
}

/// What holds of every offset listed in `lo..hi` still holds of every
/// offset listed there after a rearrangement inside `lo..hi`.
proof fn lemma_range_keeps(a: Seq<u32>, b: Seq<u32>, lo: int, hi: int, p: spec_fn(u32) -> bool)
    requires
        is_permutation(a),
        is_permutation(b),
        same_outside(a, b, lo, hi),
        0 <= lo <= hi <= a.len(),
        forall|k: int| lo <= k < hi ==> p(#[trigger] a[k]),
    ensures
        forall|k: int| lo <= k < hi ==> p(#[trigger] b[k]),
{
    assert forall|k: int| lo <= k < hi implies p(#[trigger] b[k]) by {
        lemma_stays_in_range(a, b, lo, hi, k);
        let k0 = choose|k0: int| lo <= k0 < hi && #[trigger] a[k0] == b[k];
        assert(p(a[k0]));
    }
}

/// Two rotations that agree on their first `d` bytes are ordered by byte `d`.
proof fn lemma_lt_by_key(x: Seq<u8>, h1: int, h2: int, rep: int, d: int)
    requires
        0 <= d < x.len(),
        shares_prefix(x, h1, rep, d),
        shares_prefix(x, h2, rep, d),
        rot_key(x, h1, d) < rot_key(x, h2, d),
    ensures
        lex_lt(rotation(x, h1), rotation(x, h2)),
{
    let s = rotation(x, h1);
    let t = rotation(x, h2);
    let r = rotation(x, rep);
    assert forall|e: int| 0 <= e < d implies s[e] == t[e] by {
        assert(s[e] == r[e]);
        assert(t[e] == r[e]);
    }
    assert(lex_lt_at(s, t, d));
}

/// Byte `d` of the rotation that starts at offset `h`.
fn key_at(data: &[u8], h: u32, d: usize) -> (r: u8)
    requires
        h < data@.len(),
        d < data@.len(),
    ensures
        r == rot_key(data@, h as int, d as int),
        r == rotation(data@, h as int)[d as int],
{
    let n = data.len();
    let h = h as usize;
    if d < n - h {
        data[h + d]
    } else {
        data[d - (n - h)]
    }
}

/// Exchanges the handles at `i` and `j`.
fn swap_handles(a: &mut Vec<u32>, i: usize, j: usize)
    requires
        i < old(a)@.len(),
        j < old(a)@.len(),
    ensures
        final(a)@ == old(a)@.update(i as int, old(a)@[j as int]).update(j as int, old(a)@[i as int]),
{
    let t: u32 = a[i];
    a[i] = a[j];
    a[j] = t;
}

/// The median of three bytes: the one that is left when the least and the
/// greatest are taken away.
spec fn median_of(a: u8, b: u8, c: u8) -> u8 {
    if a <= b {
        if b <= c {
            b
        } else if a <= c {
            c
        } else {
            a
        }
    } else {
        if a <= c {
            a
        } else if b <= c {
            c
        } else {
            b
        }
    }
}

/// The median of `a`, `b` and `c`: one of the three, with two of them not
/// above it and two of them not below it.
fn median(a: u8, b: u8, c: u8) -> (r: u8)
    ensures
        r == median_of(a, b, c),
        r == a || r == b || r == c,
        (if a <= r { 1int } else { 0 }) + (if b <= r { 1int } else { 0 }) + (if c <= r {
            1int
        } else {
            0
        }) >= 2,
        (if a >= r { 1int } else { 0 }) + (if b >= r { 1int } else { 0 }) + (if c >= r {
            1int
        } else {
            0
        }) >= 2,
{
    if a <= b {
        if b <= c {
            b
        } else if a <= c {
            c
        } else {
            a
        }
    } else {
        if a <= c {
            a
        } else if b <= c {
            c
        } else {
            b
        }
    }
}

/// The pivot byte for `lo..hi` at depth `d`: the median of byte `d` of the
/// rotations at the first, the middle and the last handle of the range.
fn pivot(data: &[u8], a: &Vec<u32>, lo: usize, hi: usize, d: usize) -> (p: u8)
    requires
        a@.len() == data@.len(),
        is_permutation(a@),
        lo < hi <= a@.len(),
        d < data@.len(),
    ensures
        exists|t: int| lo <= t < hi && rot_key(data@, #[trigger] a@[t] as int, d as int) == p,
        p == median_of(
            rot_key(data@, a@[lo as int] as int, d as int),
            rot_key(data@, a@[lo + (hi - lo) / 2] as int, d as int),
            rot_key(data@, a@[hi - 1] as int, d as int),
        ),
{
    let li: usize = lo;
    let mi: usize = lo + (hi - lo) / 2;
    let ri: usize = hi - 1;
    let l = key_at(data, a[li], d);
    let m = key_at(data, a[mi], d);
    let r = key_at(data, a[ri], d);
    let p = median(l, m, r);
    proof {
        if p == l {
            assert(rot_key(data@, a@[li as int] as int, d as int) == p);
        } else if p == m {
            assert(rot_key(data@, a@[mi as int] as int, d as int) == p);
        } else {
            assert(rot_key(data@, a@[ri as int] as int, d as int) == p);
        }
    }
    p
}

/// Rearranges `lo..hi` into three runs by byte `d` of each rotation: first
/// those below `p`, then those equal to `p`, then those above it. Returns
/// where the middle run starts and where it ends.
fn partition(data: &[u8], a: &mut Vec<u32>, lo: usize, hi: usize, d: usize, p: u8) -> (r: (
    usize,
    usize,
))
    requires
        old(a)@.len() == data@.len(),
        is_permutation(old(a)@),
        lo < hi <= old(a)@.len(),
        d < data@.len(),
        exists|t: int| lo <= t < hi && rot_key(data@, #[trigger] old(a)@[t] as int, d as int) == p,
    ensures
        final(a)@.len() == data@.len(),
        is_permutation(final(a)@),
        same_outside(old(a)@, final(a)@, lo as int, hi as int),
        lo <= r.0 < r.1 <= hi,
        forall|k: int| lo <= k < r.0 ==> rot_key(data@, #[trigger] final(a)@[k] as int, d as int) < p,
        forall|k: int|
            r.0 <= k < r.1 ==> rot_key(data@, #[trigger] final(a)@[k] as int, d as int) == p,
        forall|k: int| r.1 <= k < hi ==> rot_key(data@, #[trigger] final(a)@[k] as int, d as int) > p,
{
    let mut i: usize = lo;
    let mut j: usize = lo;
    let mut k: usize = hi;
    let ghost mut w: int = choose|t: int|
        lo <= t < hi && rot_key(data@, #[trigger] old(a)@[t] as int, d as int) == p;
    while j < k
        invariant
            a@.len() == data@.len(),
            is_permutation(a@),
            same_outside(old(a)@, a@, lo as int, hi as int),
            lo <= i <= j <= k <= hi <= a@.len(),
            d < data@.len(),
            i <= w < k,
            rot_key(data@, a@[w] as int, d as int) == p,
            forall|q: int| lo <= q < i ==> rot_key(data@, #[trigger] a@[q] as int, d as int) < p,
            forall|q: int| i <= q < j ==> rot_key(data@, #[trigger] a@[q] as int, d as int) == p,
            forall|q: int| k <= q < hi ==> rot_key(data@, #[trigger] a@[q] as int, d as int) > p,
        decreases k - j,
    {
        let key = key_at(data, a[j], d);
        if key < p {
            swap_handles(a, i, j);
            proof {
                if w == i {
                    w = j as int;
                }
            }
            i += 1;
            j += 1;
        } else if key == p {
            j += 1;
        } else {
            k -= 1;
            swap_handles(a, j, k);
            proof {
                if w == k {
                    w = j as int;
                }
            }
        }
    }
    (i, j)
}

/// Whether the rotation at `a` is strictly greater than the rotation at
/// `b`, given that the two agree on their first `d` bytes.
fn rotation_greater(data: &[u8], a: u32, b: u32, d: usize) -> (r: bool)
    requires
        a < data@.len(),
        b < data@.len(),
        d <= data@.len(),
        agree_upto(rotation(data@, a as int), rotation(data@, b as int), d as int),
    ensures
        r == lex_lt(rotation(data@, b as int), rotation(data@, a as int)),
{
    let n = data.len();
    let ghost s = rotation(data@, a as int);
    let ghost t = rotation(data@, b as int);
    let mut e: usize = d;
    while e < n
        invariant
            n == data@.len(),
            a < n,
            b < n,
            d <= e <= n,
            s == rotation(data@, a as int),
            t == rotation(data@, b as int),
            agree_upto(s, t, e as int),
        decreases n - e,
    {
        let ka = key_at(data, a, e);
        let kb = key_at(data, b, e);
        if ka != kb {
            proof {
                if ka > kb {
                    assert(lex_lt_at(t, s, e as int));
                } else {
                    assert(lex_lt_at(s, t, e as int));
                    lemma_lex_lt_asym(s, t);
                }
            }
            return ka > kb;
        }
        e += 1;
    }
    proof {
        assert(s =~= t);
        if lex_lt(t, s) {
            lemma_lex_lt_asym(t, s);
        }
    }
    false
}

/// Insertion sort of `lo..hi` by whole rotations, which all agree with the
/// rotation at `rep` on their first `d` bytes.
fn isort(data: &[u8], a: &mut Vec<u32>, lo: usize, hi: usize, d: usize, Ghost(rep): Ghost<int>)
    requires
        old(a)@.len() == data@.len(),
        is_permutation(old(a)@),
        lo <= hi <= old(a)@.len(),
        d <= data@.len(),
        forall|k: int|
            lo <= k < hi ==> shares_prefix(data@, #[trigger] old(a)@[k] as int, rep, d as int),
    ensures
        final(a)@.len() == data@.len(),
        is_permutation(final(a)@),
        same_outside(old(a)@, final(a)@, lo as int, hi as int),
        sorted_between(data@, final(a)@, lo as int, hi as int),
{
    if lo == hi {
        return ;
    }
    let mut i: usize = lo + 1;
    while i < hi
        invariant
            a@.len() == data@.len(),
            is_permutation(a@),
            same_outside(old(a)@, a@, lo as int, hi as int),
            lo < i <= hi <= a@.len(),
            d <= data@.len(),
            forall|k: int|
                lo <= k < hi ==> shares_prefix(data@, #[trigger] a@[k] as int, rep, d as int),
            sorted_between(data@, a@, lo as int, i as int),
        decreases hi - i,
    {
        let mut j: usize = i;
        while j > lo && rotation_greater(data, a[j - 1], a[j], d)
            invariant
                a@.len() == data@.len(),
                is_permutation(a@),
                same_outside(old(a)@, a@, lo as int, hi as int),
                lo <= j <= i < hi <= a@.len(),
                d <= data@.len(),
                forall|k: int|
                    lo <= k < hi ==> shares_prefix(data@, #[trigger] a@[k] as int, rep, d as int),
                forall|p: int, q: int|
                    lo <= p < q <= i && p != j && q != j ==> lex_le(
                        rotation(data@, #[trigger] a@[p] as int),
                        rotation(data@, #[trigger] a@[q] as int),
                    ),
                forall|q: int|
                    j < q <= i ==> lex_lt(
                        rotation(data@, a@[j as int] as int),
                        rotation(data@, #[trigger] a@[q] as int),
                    ),
            decreases j,
        {
            swap_handles(a, j, j - 1);
            j -= 1;
        }
        proof {
            let x = data@;
            assert forall|p: int, q: int| lo <= p < q < i + 1 implies lex_le(
                rotation(x, #[trigger] a@[p] as int),
                rotation(x, #[trigger] a@[q] as int),
            ) by {
                if q == j {
                    let below = rotation(x, a@[j - 1] as int);
                    let here = rotation(x, a@[j as int] as int);
                    lemma_lex_total(below, here);
                    if p < j - 1 {
                        lemma_lex_le_trans(rotation(x, a@[p] as int), below, here);
                    }
                } else if p == j {
                }
            }
        }
        i += 1;
    }
}

/// Every two rotations listed in `lo0..hi0` are in order, but for those
/// that are both listed in `lo..hi`.
spec fn ordered_around(x: Seq<u8>, a: Seq<u32>, lo0: int, hi0: int, lo: int, hi: int) -> bool {
    forall|p: int, q: int|
        lo0 <= p < q < hi0 && !(lo <= p && q < hi) ==> lex_le(
            rotation(x, #[trigger] a[p] as int),
            rotation(x, #[trigger] a[q] as int),
        )
}

/// A rearrangement inside `lo..hi` keeps in order what was in order around
/// `lo..hi`.
proof fn lemma_order_around_kept(
    x: Seq<u8>,
    a: Seq<u32>,
    b: Seq<u32>,
    lo0: int,
    hi0: int,
    lo: int,
    hi: int,
)
    requires
        is_permutation(a),
        is_permutation(b),
        same_outside(a, b, lo, hi),
        0 <= lo0 <= lo <= hi <= hi0 <= a.len(),
        ordered_around(x, a, lo0, hi0, lo, hi),
    ensures
        ordered_around(x, b, lo0, hi0, lo, hi),
{
    assert forall|p: int, q: int| lo0 <= p < q < hi0 && !(lo <= p && q < hi) implies lex_le(
        rotation(x, #[trigger] b[p] as int),
        rotation(x, #[trigger] b[q] as int),
    ) by {
        let p0 = if lo <= p < hi {
            lemma_stays_in_range(a, b, lo, hi, p);
            choose|k0: int| lo <= k0 < hi && #[trigger] a[k0] == b[p]
        } else {
            p
        };
        let q0 = if lo <= q < hi {
            lemma_stays_in_range(a, b, lo, hi, q);
            choose|k0: int| lo <= k0 < hi && #[trigger] a[k0] == b[q]
        } else {
            q
        };
        assert(b[p] == a[p0]);
        assert(b[q] == a[q0]);
        assert(lex_le(rotation(x, a[p0] as int), rotation(x, a[q0] as int)));
    }
}

/// Sorts `lo0..hi0` by whole rotations, which all agree with the rotation
/// at `rep` on their first `d` bytes.
///
/// A range of ten handles or more is split three ways on byte `d`. The
/// middle run is sorted at depth `d + 1`. Of the two outer runs the shorter
/// is sorted by a call at depth `d` and the longer is taken up in the next
/// turn of the loop, so that the calls at one depth nest no deeper than the
/// logarithm of the length. What is left goes to the insertion sort.
fn sort_range(data: &[u8], a: &mut Vec<u32>, lo0: usize, hi0: usize, d: usize, Ghost(rep): Ghost<int>)
    requires
        old(a)@.len() == data@.len(),
        is_permutation(old(a)@),
        lo0 <= hi0 <= old(a)@.len(),
        d <= data@.len(),
        forall|k: int|
            lo0 <= k < hi0 ==> shares_prefix(data@, #[trigger] old(a)@[k] as int, rep, d as int),
    ensures
        final(a)@.len() == data@.len(),
        is_permutation(final(a)@),
        same_outside(old(a)@, final(a)@, lo0 as int, hi0 as int),
        sorted_between(data@, final(a)@, lo0 as int, hi0 as int),
    decreases data@.len() - d, hi0 - lo0,
{
    let ghost x = data@;
    let n = data.len();
    if d >= n {
        proof {
            assert forall|i: int, j: int| lo0 <= i < j < hi0 implies lex_le(
                rotation(x, #[trigger] a@[i] as int),
                rotation(x, #[trigger] a@[j] as int),
            ) by {
                assert(shares_prefix(x, a@[i] as int, rep, d as int));
                assert(shares_prefix(x, a@[j] as int, rep, d as int));
                assert(rotation(x, a@[i] as int) =~= rotation(x, a@[j] as int));
            }
        }
        return ;
    }
    let mut lo: usize = lo0;
    let mut hi: usize = hi0;
    while hi - lo >= 10
        invariant
            x == data@,
            n == x.len(),
            d < n,
            a@.len() == n,
            is_permutation(a@),
            same_outside(old(a)@, a@, lo0 as int, hi0 as int),
            lo0 <= lo <= hi <= hi0 <= n,
            forall|k: int| lo <= k < hi ==> shares_prefix(x, #[trigger] a@[k] as int, rep, d as int),
            ordered_around(x, a@, lo0 as int, hi0 as int, lo as int, hi as int),
        decreases hi - lo,
    {
        let p = pivot(data, a, lo, hi, d);
        let ghost a0 = a@;
        let (i, j) = partition(data, a, lo, hi, d, p);
        let ghost a1 = a@;
        let ghost mid = a1[i as int] as int;
        let ghost below = |h: u32|
            shares_prefix(x, h as int, rep, d as int) && rot_key(x, h as int, d as int) < p;
        let ghost level = |h: u32|
            shares_prefix(x, h as int, rep, d as int) && rot_key(x, h as int, d as int) == p;
        let ghost above = |h: u32|
            shares_prefix(x, h as int, rep, d as int) && rot_key(x, h as int, d as int) > p;
        proof {
            lemma_order_around_kept(x, a0, a1, lo0 as int, hi0 as int, lo as int, hi as int);
            lemma_range_keeps(
                a0,
                a1,
                lo as int,
                hi as int,
                |h: u32| shares_prefix(x, h as int, rep, d as int),
            );
            assert forall|k: int| lo <= k < i implies below(#[trigger] a1[k]) by {}
            assert forall|k: int| i <= k < j implies level(#[trigger] a1[k]) by {}
            assert forall|k: int| j <= k < hi implies above(#[trigger] a1[k]) by {}
            assert forall|k: int| i <= k < j implies shares_prefix(
                x,
                #[trigger] a1[k] as int,
                mid,
                d + 1,
            ) by {
                assert(level(a1[k]));
                assert(level(a1[i as int]));
                let s = rotation(x, a1[k] as int);
                let t = rotation(x, mid);
                let r = rotation(x, rep);
                assert forall|e: int| 0 <= e < d + 1 implies s[e] == t[e] by {
                    if e < d {
                        assert(s[e] == r[e]);
                        assert(t[e] == r[e]);
                    }
                }
            }
        }
        sort_range(data, a, i, j, d + 1, Ghost(mid));
        let ghost a2 = a@;
        proof {
            lemma_order_around_kept(x, a1, a2, lo0 as int, hi0 as int, lo as int, hi as int);
            lemma_range_keeps(a1, a2, i as int, j as int, level);
            assert forall|k: int| lo <= k < i implies below(#[trigger] a2[k]) by {
                assert(a2[k] == a1[k]);
            }
            assert forall|k: int| j <= k < hi implies above(#[trigger] a2[k]) by {
                assert(a2[k] == a1[k]);
            }
        }
        if i - lo < hi - j {
            sort_range(data, a, lo, i, d, Ghost(rep));
        } else {
            sort_range(data, a, j, hi, d, Ghost(rep));
        }
        let ghost a3 = a@;
        proof {
            lemma_order_around_kept(x, a2, a3, lo0 as int, hi0 as int, lo as int, hi as int);
            if i - lo < hi - j {
                lemma_range_keeps(a2, a3, lo as int, i as int, below);
                assert forall|k: int| j <= k < hi implies above(#[trigger] a3[k]) by {
                    assert(a3[k] == a2[k]);
                }
            } else {
                lemma_range_keeps(a2, a3, j as int, hi as int, above);
                assert forall|k: int| lo <= k < i implies below(#[trigger] a3[k]) by {
                    assert(a3[k] == a2[k]);
                }
            }
            assert forall|k: int| i <= k < j implies level(#[trigger] a3[k]) by {
                assert(a3[k] == a2[k]);
            }
            // The run that was sorted and the middle run are now in order
            // among themselves and against the run that is left.
            let (lo1, hi1) = if i - lo < hi - j {
                (j as int, hi as int)
            } else {
                (lo as int, i as int)
            };
            assert forall|q1: int, q2: int|
                lo0 <= q1 < q2 < hi0 && !(lo1 <= q1 && q2 < hi1) implies lex_le(
                rotation(x, #[trigger] a3[q1] as int),
                rotation(x, #[trigger] a3[q2] as int),
            ) by {
                let h1 = a3[q1] as int;
                let h2 = a3[q2] as int;
                if !(lo <= q1 && q2 < hi) {
                } else if q2 < i {
                } else if q1 < i {
                    assert(below(a3[q1]));
                    if q2 < j {
                        assert(level(a3[q2]));
                    } else {
                        assert(above(a3[q2]));
                    }
                    lemma_lt_by_key(x, h1, h2, rep, d as int);
                } else if q2 < j {
                    assert(a3[q1] == a2[q1]);
                    assert(a3[q2] == a2[q2]);
                } else if q1 < j {
                    assert(level(a3[q1]));
                    assert(above(a3[q2]));
                    lemma_lt_by_key(x, h1, h2, rep, d as int);
                } else {
                }
            }
            assert forall|k: int| 0 <= k < n && !(lo0 <= k < hi0) implies #[trigger] a3[k] == old(
                a,
            )@[k] by {
                assert(a3[k] == a2[k]);
                assert(a2[k] == a1[k]);
                assert(a1[k] == a0[k]);
            }
        }
        if i - lo < hi - j {
            lo = j;
        } else {
            hi = i;
        }
    }
    let ghost a4 = a@;
    isort(data, a, lo, hi, d, Ghost(rep));
    proof {
        lemma_order_around_kept(x, a4, a@, lo0 as int, hi0 as int, lo as int, hi as int);
        assert forall|k: int| 0 <= k < n && !(lo0 <= k < hi0) implies #[trigger] a@[k] == old(
            a,
        )@[k] by {
            assert(a@[k] == a4[k]);
        }
    }
}

/// The offsets `0, 1, ..., n - 1` in this order.
fn identity_order(n: usize) -> (a: Vec<u32>)
    requires
        n <= u32::MAX,
    ensures
        a@.len() == n,
        forall|k: int| 0 <= k < n ==> #[trigger] a@[k] == k,
        is_permutation(a@),
{
    let mut a: Vec<u32> = Vec::new();
    let mut i: usize = 0;
    while i < n
        invariant
            i <= n <= u32::MAX,
            a@.len() == i,
            forall|k: int| 0 <= k < i ==> #[trigger] a@[k] == k,
        decreases n - i,
    {
        a.push(i as u32);
        i += 1;
    }
    a
}

/// Sorts the cyclic rotations of `data` with a ternary quicksort over the
/// byte at the current depth, and returns their offsets in sorted order.
///
/// The result is a rotation order of `data`. Rotations that are equal as
/// strings, which a periodic block has, come in no particular order among
/// themselves.
pub fn matrix_sort(data: &[u8]) -> (matrix: Vec<u32>)
    requires
        data@.len() <= u32::MAX,
    ensures
        is_rotation_order(data@, matrix@),
{
    let n = data.len();
    let mut matrix = identity_order(n);
    sort_range(data, &mut matrix, 0, n, 0, Ghost(0));
    matrix
}

/// Whether the rotation at `a` is strictly greater than the rotation at
/// `b`, found by walking through both from their starts, each walk going
/// back to offset 0 when it reaches the end of the block.
fn naive_greater(data: &[u8], a: u32, b: u32) -> (r: bool)
    requires
        a < data@.len(),
        b < data@.len(),
    ensures
        r == lex_lt(rotation(data@, b as int), rotation(data@, a as int)),
{
    let n = data.len();
    let ghost s = rotation(data@, a as int);
    let ghost t = rotation(data@, b as int);
    let mut at_a: usize = a as usize;
    let mut at_b: usize = b as usize;
    let mut e: usize = 0;
    while e < n
        invariant
            n == data@.len(),
            a < n,
            b < n,
            e <= n,
            s == rotation(data@, a as int),
            t == rotation(data@, b as int),
            at_a == if a + e <= n { a + e } else { a + e - n },
            at_b == if b + e <= n { b + e } else { b + e - n },
            agree_upto(s, t, e as int),
        decreases n - e,
    {
        if at_a >= n {
            at_a = 0;
        }
        if at_b >= n {
            at_b = 0;
        }
        let ka = data[at_a];
        let kb = data[at_b];
        assert(ka == s[e as int]);
        assert(kb == t[e as int]);
        if ka != kb {
            proof {
                if ka > kb {
                    assert(lex_lt_at(t, s, e as int));
                } else {
                    assert(lex_lt_at(s, t, e as int));
                    lemma_lex_lt_asym(s, t);
                }
            }
            return ka > kb;
        }
        at_a += 1;
        at_b += 1;
        e += 1;
    }
    proof {
        assert(s =~= t);
        if lex_lt(t, s) {
            lemma_lex_lt_asym(t, s);
        }
    }
    false
}

/// Sorts the cyclic rotations of `data` by comparing whole rotations pair
/// by pair, and returns their offsets in sorted order.
///
/// This is the reference to hold `matrix_sort` against: a plain insertion
/// sort with a comparison that reads every byte of both rotations until
/// they differ. It is far slower, and shares nothing with the splitting by
/// depth.
pub fn naive_matrix_sort(data: &[u8]) -> (matrix: Vec<u32>)
    requires
        data@.len() <= u32::MAX,
    ensures
        is_rotation_order(data@, matrix@),
{
    let n = data.len();
    let mut matrix = identity_order(n);
    if n == 0 {
        return matrix;
    }
    let mut i: usize = 1;
    while i < n
        invariant
            n == data@.len(),
            matrix@.len() == n,
            is_permutation(matrix@),
            1 <= i <= n,
            sorted_between(data@, matrix@, 0, i as int),
        decreases n - i,
    {
        let mut j: usize = i;
        while j > 0 && naive_greater(data, matrix[j - 1], matrix[j])
            invariant
                n == data@.len(),
                matrix@.len() == n,
                is_permutation(matrix@),
                0 <= j <= i < n,
                forall|p: int, q: int|
                    0 <= p < q <= i && p != j && q != j ==> lex_le(
                        rotation(data@, #[trigger] matrix@[p] as int),
                        rotation(data@, #[trigger] matrix@[q] as int),
                    ),
                forall|q: int|
                    j < q <= i ==> lex_lt(
                        rotation(data@, matrix@[j as int] as int),
                        rotation(data@, #[trigger] matrix@[q] as int),
                    ),
            decreases j,
        {
            swap_handles(&mut matrix, j, j - 1);
            j -= 1;
        }
        proof {
            let x = data@;
            assert forall|p: int, q: int| 0 <= p < q < i + 1 implies lex_le(
                rotation(x, #[trigger] matrix@[p] as int),
                rotation(x, #[trigger] matrix@[q] as int),
            ) by {
                if q == j {
                    let below = rotation(x, matrix@[j - 1] as int);
                    let here = rotation(x, matrix@[j as int] as int);
                    lemma_lex_total(below, here);
                    if p < j - 1 {
                        lemma_lex_le_trans(rotation(x, matrix@[p] as int), below, here);
                    }
                }
            }
        }
        i += 1;
    }
    matrix
}

/// The production sorter and the reference sorter list equal rotations row
/// by row, whatever order each gives to rotations that are equal as
/// strings. In particular the byte at which row `m` starts is the same
/// under both orders.
pub proof fn lemma_sorters_agree(x: Seq<u8>, production: Seq<u32>, reference: Seq<u32>, m: int)
    requires
        is_rotation_order(x, production),
        is_rotation_order(x, reference),
        0 <= m < x.len(),
    ensures
        rotation(x, production[m] as int) == rotation(x, reference[m] as int),
        x[production[m] as int] == x[reference[m] as int],
{
    lemma_rotation_orders_agree(x, production, reference, m);
    assert(production[m] < production.len());
    assert(reference[m] < reference.len());
    assert(rotation(x, production[m] as int)[0] == x[production[m] as int]);
    assert(rotation(x, reference[m] as int)[0] == x[reference[m] as int]);
}

} // verus!
