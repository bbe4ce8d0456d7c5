//! Cyclic rotations of a block and their lexicographic order.
//!
//! A rotation is never materialised by the executable code: it is named by
//! the offset at which it starts. The definitions here give those offsets
//! their meaning.

use vstd::prelude::*;
use vstd::set_lib::*;

verus! {

/// Byte `d` of the rotation of `x` that starts at offset `i`: with `n` the
/// length of `x`, and `i` and `d` below `n`, this is `x[(i + d) mod n]`.
pub open spec fn rot_key(x: Seq<u8>, i: int, d: int) -> u8 {
    if i + d < x.len() {
        x[i + d]
    } else {
        x[i + d - x.len()]
    }
}

/// The rotation of `x` that starts at offset `i`: `x[i], x[i + 1], ...`,
/// wrapping round to `x[i - 1]`.
pub open spec fn rotation(x: Seq<u8>, i: int) -> Seq<u8> {
    Seq::new(x.len(), |d: int| rot_key(x, i, d))
}

/// The offset of the rotation that starts one byte earlier than the
/// rotation at `i`: `(i + n - 1) mod n`.
pub open spec fn pred_offset(n: int, i: int) -> int {
    if i == 0 {
        n - 1
    } else {
        i - 1
    }
}

/// `s` and `t` hold the same bytes at every index below `d`.
pub open spec fn agree_upto(s: Seq<u8>, t: Seq<u8>, d: int) -> bool {
    forall|e: int| 0 <= e < d ==> s[e] == t[e]
}

/// `s` and `t` first differ at index `d`, and `s` holds the smaller byte there.
pub open spec fn lex_lt_at(s: Seq<u8>, t: Seq<u8>, d: int) -> bool {
    &&& 0 <= d < s.len()
    &&& d < t.len()
    &&& agree_upto(s, t, d)
    &&& s[d] < t[d]
}

/// Strict lexicographic order on byte strings of one length.
pub open spec fn lex_lt(s: Seq<u8>, t: Seq<u8>) -> bool {
    exists|d: int| lex_lt_at(s, t, d)
}

/// Lexicographic order on byte strings of one length.
pub open spec fn lex_le(s: Seq<u8>, t: Seq<u8>) -> bool {
    s == t || lex_lt(s, t)
}

/// Two strings of one length that agree up to `d` are equal, or one of them
/// is strictly smaller.
proof fn lemma_lex_scan(s: Seq<u8>, t: Seq<u8>, d: int)
    requires
        s.len() == t.len(),
        0 <= d <= s.len(),
        agree_upto(s, t, d),
    ensures
        s == t || lex_lt(s, t) || lex_lt(t, s),
    decreases s.len() - d,
{
    if d == s.len() {
        assert(s =~= t);
    } else if s[d] < t[d] {
        assert(lex_lt_at(s, t, d));
    } else if t[d] < s[d] {
        assert(lex_lt_at(t, s, d));
    } else {
        lemma_lex_scan(s, t, d + 1);
    }
}

/// The order is total on strings of one length.
pub proof fn lemma_lex_total(s: Seq<u8>, t: Seq<u8>)
    requires
        s.len() == t.len(),
    ensures
        lex_le(s, t) || lex_lt(t, s),
{
    lemma_lex_scan(s, t, 0);
}

/// A string that is strictly smaller than another is neither equal to it
/// nor greater.
pub proof fn lemma_lex_lt_asym(s: Seq<u8>, t: Seq<u8>)
    requires
        lex_lt(s, t),
    ensures
        !lex_le(t, s),
        s != t,
{
    let d1 = choose|d: int| lex_lt_at(s, t, d);
    if lex_lt(t, s) {
        let d2 = choose|d: int| lex_lt_at(t, s, d);
        if d1 < d2 {
            assert(t[d1] == s[d1]);
        } else if d2 < d1 {
            assert(s[d2] == t[d2]);
        }
    }
}

/// The strict order is transitive, also through one non-strict step.
pub proof fn lemma_lex_lt_trans(r: Seq<u8>, s: Seq<u8>, t: Seq<u8>)
    requires
        lex_le(r, s),
        lex_le(s, t),
        lex_lt(r, s) || lex_lt(s, t),
    ensures
        lex_lt(r, t),
{
    if r == s || s == t {
    } else {
        let d1 = choose|d: int| lex_lt_at(r, s, d);
        let d2 = choose|d: int| lex_lt_at(s, t, d);
        if d1 <= d2 {
            assert forall|e: int| 0 <= e < d1 implies r[e] == t[e] by {
                assert(r[e] == s[e]);
                assert(s[e] == t[e]);
            }
            assert(lex_lt_at(r, t, d1));
        } else {
            assert forall|e: int| 0 <= e < d2 implies r[e] == t[e] by {
                assert(r[e] == s[e]);
                assert(s[e] == t[e]);
            }
            assert(r[d2] == s[d2]);
            assert(lex_lt_at(r, t, d2));
        }
    }
}

/// The order is transitive.
pub proof fn lemma_lex_le_trans(r: Seq<u8>, s: Seq<u8>, t: Seq<u8>)
    requires
        lex_le(r, s),
        lex_le(s, t),
    ensures
        lex_le(r, t),
{
    if r == s || s == t {
    } else {
        lemma_lex_lt_trans(r, s, t);
    }
}

/// `ord` holds every offset below its length exactly once.
pub open spec fn is_permutation(ord: Seq<u32>) -> bool {
    &&& forall|k: int| 0 <= k < ord.len() ==> #[trigger] ord[k] < ord.len()
    &&& forall|i: int, j: int| 0 <= i < j < ord.len() ==> #[trigger] ord[i] != #[trigger] ord[j]
}

/// The rotations of `x`, taken in the order in which `ord` lists their
/// offsets, never decrease.
pub open spec fn rotations_sorted(x: Seq<u8>, ord: Seq<u32>) -> bool {
    forall|i: int, j: int|
        0 <= i < j < ord.len() ==> lex_le(
            rotation(x, #[trigger] ord[i] as int),
            rotation(x, #[trigger] ord[j] as int),
        )
}

/// `ord` is a rotation order of `x`: a permutation of the offsets of `x`
/// that lists the rotations in non-decreasing lexicographic order.
pub open spec fn is_rotation_order(x: Seq<u8>, ord: Seq<u32>) -> bool {
    &&& ord.len() == x.len()
    &&& is_permutation(ord)
    &&& rotations_sorted(x, ord)
}

/// A permutation reaches every offset.
pub proof fn lemma_permutation_onto(ord: Seq<u32>, v: int)
    requires
        is_permutation(ord),
        0 <= v < ord.len(),
    ensures
        exists|k: int| 0 <= k < ord.len() && #[trigger] ord[k] == v,
{
    let n = ord.len() as int;
    let vals = Seq::new(ord.len(), |k: int| ord[k] as int);
    assert(vals.no_duplicates());
    vals.unique_seq_to_set();
    lemma_int_range(0, n);
    assert(vals.to_set().subset_of(set_int_range(0, n))) by {
        assert forall|w: int| vals.to_set().contains(w) implies set_int_range(0, n).contains(
            w,
        ) by {
            let k = choose|k: int| 0 <= k < vals.len() && vals[k] == w;
            assert(ord[k] < ord.len());
        }
    }
    lemma_len_subset(vals.to_set(), set_int_range(0, n));
    lemma_subset_equality(vals.to_set(), set_int_range(0, n));
    assert(set_int_range(0, n).contains(v));
    assert(vals.contains(v));
    let k = choose|k: int| 0 <= k < vals.len() && vals[k] == v;
    assert(ord[k] == v);
}

/// The strings `keys[ord[0]], keys[ord[1]], ...` never decrease.
pub open spec fn sorted_by_keys(keys: Seq<Seq<u8>>, ord: Seq<u32>) -> bool {
    forall|i: int, j: int|
        0 <= i < j < ord.len() ==> lex_le(
            keys[#[trigger] ord[i] as int],
            keys[#[trigger] ord[j] as int],
        )
}

/// `ord` lists the indices of `keys`, each once, so that the keys never
/// decrease; the keys are strings of one length.
pub open spec fn is_sorted_order(keys: Seq<Seq<u8>>, ord: Seq<u32>) -> bool {
    &&& ord.len() == keys.len()
    &&& is_permutation(ord)
    &&& sorted_by_keys(keys, ord)
    &&& forall|i: int, j: int|
        0 <= i < keys.len() && 0 <= j < keys.len() ==> (#[trigger] keys[i]).len() == (
        #[trigger] keys[j]).len()
}

/// No row of one sorted order is strictly below the same row of another.
proof fn lemma_sorted_orders_not_below(keys: Seq<Seq<u8>>, o1: Seq<u32>, o2: Seq<u32>, m: int)
    requires
        is_sorted_order(keys, o1),
        is_sorted_order(keys, o2),
        0 <= m < keys.len(),
    ensures
        !lex_lt(keys[o1[m] as int], keys[o2[m] as int]),
{
    let r1 = keys[o1[m] as int];
    let r2 = keys[o2[m] as int];
    if lex_lt(r1, r2) {
        // The first m + 1 entries of o1 all lie among the first m of o2.
        let head1 = Seq::new((m + 1) as nat, |k: int| o1[k] as int);
        let head2 = Seq::new(m as nat, |k: int| o2[k] as int);
        assert(head1.no_duplicates());
        head1.unique_seq_to_set();
        head2.lemma_cardinality_of_set();
        assert(head1.to_set().subset_of(head2.to_set())) by {
            assert forall|w: int| head1.to_set().contains(w) implies head2.to_set().contains(
                w,
            ) by {
                let j = choose|j: int| 0 <= j < head1.len() && head1[j] == w;
                assert(o1[j] < o1.len());
                lemma_permutation_onto(o2, w);
                let k = choose|k: int| 0 <= k < o2.len() && o2[k] == w;
                let rw = keys[w];
                assert(lex_le(rw, r1)) by {
                    if j < m {
                        assert(lex_le(keys[o1[j] as int], keys[o1[m] as int]));
                    }
                }
                lemma_lex_lt_trans(rw, r1, r2);
                if k >= m {
                    assert(lex_le(r2, rw)) by {
                        if k > m {
                            assert(lex_le(keys[o2[m] as int], keys[o2[k] as int]));
                        }
                    }
                    lemma_lex_lt_asym(rw, r2);
                }
                assert(head2[k] == w);
            }
        }
        lemma_len_subset(head1.to_set(), head2.to_set());
    }
}

/// Any two sorted orders of the same keys list equal keys row by row: they
/// can differ only in how they arrange the indices of equal keys.
pub proof fn lemma_sorted_orders_agree(keys: Seq<Seq<u8>>, o1: Seq<u32>, o2: Seq<u32>, m: int)
    requires
        is_sorted_order(keys, o1),
        is_sorted_order(keys, o2),
        0 <= m < keys.len(),
    ensures
        keys[o1[m] as int] == keys[o2[m] as int],
{
    lemma_sorted_orders_not_below(keys, o1, o2, m);
    lemma_sorted_orders_not_below(keys, o2, o1, m);
    assert(o1[m] < o1.len());
    assert(o2[m] < o2.len());
    lemma_lex_total(keys[o1[m] as int], keys[o2[m] as int]);
}

/// All rotations of `x`, the one that starts at offset `i` at index `i`.
pub open spec fn all_rotations(x: Seq<u8>) -> Seq<Seq<u8>> {
    Seq::new(x.len(), |i: int| rotation(x, i))
}

/// Any two rotation orders of one block list equal rotations row by row:
/// they can differ only in how they arrange the offsets of rotations that
/// are equal as strings.
pub proof fn lemma_rotation_orders_agree(x: Seq<u8>, o1: Seq<u32>, o2: Seq<u32>, m: int)
    requires
        is_rotation_order(x, o1),
        is_rotation_order(x, o2),
        0 <= m < x.len(),
    ensures
        rotation(x, o1[m] as int) == rotation(x, o2[m] as int),
{
    let keys = all_rotations(x);
    assert(is_sorted_order(keys, o1)) by {
        assert forall|i: int, j: int| 0 <= i < j < o1.len() implies lex_le(
            keys[#[trigger] o1[i] as int],
            keys[#[trigger] o1[j] as int],
        ) by {
            assert(o1[i] < o1.len() && o1[j] < o1.len());
        }
    }
    assert(is_sorted_order(keys, o2)) by {
        assert forall|i: int, j: int| 0 <= i < j < o2.len() implies lex_le(
            keys[#[trigger] o2[i] as int],
            keys[#[trigger] o2[j] as int],
        ) by {
            assert(o2[i] < o2.len() && o2[j] < o2.len());
        }
    }
    lemma_sorted_orders_agree(keys, o1, o2, m);
    assert(o1[m] < o1.len());
    assert(o2[m] < o2.len());
}

} // verus!
