//! Byte histograms and the counting sort that is built on them.

use vstd::prelude::*;
use vstd::seq_lib::*;
use vstd::relations::*;

verus! {

/// How many entries of `s` equal `b`.
pub open spec fn count_eq(s: Seq<u8>, b: int) -> nat
    decreases s.len(),
{
    if s.len() == 0 {
        0
    } else {
        count_eq(s.drop_last(), b) + if s.last() == b { 1nat } else { 0nat }
    }
}

/// How many entries of `s` are below `b`.
pub open spec fn count_below(s: Seq<u8>, b: int) -> nat
    decreases s.len(),
{
    if s.len() == 0 {
        0
    } else {
        count_below(s.drop_last(), b) + if s.last() < b { 1nat } else { 0nat }
    }
}

/// `counts` is the histogram of `s`: entry `b` says how often byte `b` occurs.
pub open spec fn is_histogram(counts: Seq<u32>, s: Seq<u8>) -> bool {
    &&& counts.len() == 256
    &&& forall|b: int| 0 <= b < 256 ==> #[trigger] counts[b] == count_eq(s, b)
}

/// The bytes of `s` never decrease.
pub open spec fn is_ascending(s: Seq<u8>) -> bool {
    forall|i: int, j: int| 0 <= i < j < s.len() ==> #[trigger] s[i] <= #[trigger] s[j]
}

/// Every index of `t` lies in the run that the counts of `s` give to the
/// byte found there: after all smaller bytes of `s`, before all larger ones.
pub open spec fn placed_by_counts(t: Seq<u8>, s: Seq<u8>) -> bool {
    &&& t.len() == s.len()
    &&& forall|k: int|
        0 <= k < t.len() ==> count_below(s, #[trigger] t[k] as int) <= k < count_below(
            s,
            t[k] + 1,
        )
}

/// Appending one byte adds one to the counts that it falls under.
pub proof fn lemma_count_push(s: Seq<u8>, v: u8, b: int)
    ensures
        count_eq(s.push(v), b) == count_eq(s, b) + if v == b { 1nat } else { 0nat },
        count_below(s.push(v), b) == count_below(s, b) + if v < b { 1nat } else { 0nat },
{
    assert(s.push(v).drop_last() =~= s);
}

/// The counts of a prefix grow with the prefix, by at most its growth.
pub proof fn lemma_count_take(s: Seq<u8>, i: int, j: int, b: int)
    requires
        0 <= i <= j <= s.len(),
    ensures
        count_eq(s.take(i), b) <= count_eq(s.take(j), b) <= count_eq(s.take(i), b) + (j - i),
        count_below(s.take(i), b) <= count_below(s.take(j), b) <= count_below(s.take(i), b) + (j
            - i),
    decreases j - i,
{
    if i < j {
        lemma_count_take(s, i, j - 1, b);
        assert(s.take(j) =~= s.take(j - 1).push(s[j - 1]));
        lemma_count_push(s.take(j - 1), s[j - 1], b);
    }
}

/// Taking one more entry into a prefix adds that entry to the counts.
pub proof fn lemma_count_take_next(s: Seq<u8>, i: int, b: int)
    requires
        0 <= i < s.len(),
    ensures
        count_eq(s.take(i + 1), b) == count_eq(s.take(i), b) + if s[i] == b { 1nat } else { 0nat },
        count_below(s.take(i + 1), b) == count_below(s.take(i), b) + if s[i] < b {
            1nat
        } else {
            0nat
        },
{
    assert(s.take(i + 1) =~= s.take(i).push(s[i]));
    lemma_count_push(s.take(i), s[i], b);
}

/// The bytes below `b + 1` are those below `b` and those equal to `b`; no
/// count exceeds the length.
pub proof fn lemma_count_below_step(s: Seq<u8>, b: int)
    ensures
        count_below(s, b + 1) == count_below(s, b) + count_eq(s, b),
        count_below(s, b) <= s.len(),
        count_eq(s, b) <= s.len(),
        b <= 0 ==> count_below(s, b) == 0,
        b >= 256 ==> count_below(s, b) == s.len(),
    decreases s.len(),
{
    if s.len() > 0 {
        lemma_count_below_step(s.drop_last(), b);
    }
}

/// A larger bound counts more bytes below it: all those below the smaller
/// bound, and all those equal to it.
pub proof fn lemma_count_below_monotone(s: Seq<u8>, b: int, c: int)
    requires
        b < c,
    ensures
        count_below(s, b) + count_eq(s, b) <= count_below(s, c),
    decreases c - b,
{
    lemma_count_below_step(s, b);
    if b + 1 < c {
        lemma_count_below_monotone(s, b + 1, c);
        lemma_count_below_step(s, b + 1);
    }
}

/// The count of a byte is its multiplicity in the multiset of the bytes.
pub proof fn lemma_count_eq_multiset(s: Seq<u8>, v: u8)
    ensures
        count_eq(s, v as int) == s.to_multiset().count(v),
    decreases s.len(),
{
    broadcast use group_to_multiset_ensures;

    if s.len() == 0 {
        assert(s.to_multiset().len() == 0);
    } else {
        lemma_count_eq_multiset(s.drop_last(), v);
        assert(s.drop_last().push(s.last()) =~= s);
    }
}

/// A smaller bound counts no more bytes below it.
pub proof fn lemma_count_below_le(s: Seq<u8>, b: int, c: int)
    requires
        b <= c,
    ensures
        count_below(s, b) <= count_below(s, c),
{
    if b < c {
        lemma_count_below_monotone(s, b, c);
    }
}

/// Bytes that are placed by the counts of `s` never decrease.
pub proof fn lemma_placed_ascending(t: Seq<u8>, s: Seq<u8>)
    requires
        placed_by_counts(t, s),
    ensures
        is_ascending(t),
{
    assert forall|i: int, j: int| 0 <= i < j < t.len() implies #[trigger] t[i] <= #[trigger] t[j] by {
        if t[i] > t[j] {
            lemma_count_below_le(s, t[j] + 1, t[i] as int);
        }
    }
}

/// Where the bytes are placed by the counts of `s`, the run of byte `b`
/// holds `b` at each of its indices.
pub proof fn lemma_placed_run(t: Seq<u8>, s: Seq<u8>, b: int, k: int)
    requires
        placed_by_counts(t, s),
        0 <= b < 256,
        count_below(s, b) <= k < count_below(s, b + 1),
    ensures
        k < t.len(),
        t[k] == b,
{
    lemma_count_below_step(s, b + 1);
    let c = t[k] as int;
    if c < b {
        lemma_count_below_le(s, c + 1, b);
    } else if c > b {
        lemma_count_below_le(s, b + 1, c);
    }
}

/// Two ascending arrangements of the same bytes are equal: the result of
/// the counting sort is the result of any comparison sort of the same
/// bytes.
pub proof fn lemma_ascending_unique(a: Seq<u8>, b: Seq<u8>)
    requires
        is_ascending(a),
        is_ascending(b),
        a.to_multiset() == b.to_multiset(),
    ensures
        a == b,
{
    let leq = |x: u8, y: u8| x <= y;
    assert(total_ordering(leq));
    assert(sorted_by(a, leq));
    assert(sorted_by(b, leq));
    lemma_sorted_unique(a, b, leq);
}

/// The histogram of `data`: for each byte value, how often it occurs.
pub fn histogram(data: &[u8]) -> (counts: [u32; 256])
    requires
        data@.len() <= u32::MAX,
    ensures
        is_histogram(counts@, data@),
{
    let n = data.len();
    let mut counts: [u32; 256] = [0u32; 256];
    let mut i: usize = 0;
    while i < n
        invariant
            n == data@.len(),
            i <= n <= u32::MAX,
            forall|b: int|
                0 <= b < 256 ==> #[trigger] counts@[b] == count_eq(data@.take(i as int), b),
        decreases n - i,
    {
        let current_byte = data[i] as usize;
        proof {
            lemma_count_below_step(data@.take(i as int), current_byte as int);
            assert forall|b: int| 0 <= b < 256 implies count_eq(data@.take(i + 1), b) == count_eq(
                data@.take(i as int),
                b,
            ) + if b == current_byte { 1nat } else { 0nat } by {
                lemma_count_take_next(data@, i as int, b);
            }
        }
        counts[current_byte] = counts[current_byte] + 1;
        i += 1;
    }
    assert(data@.take(n as int) =~= data@);
    counts
}

/// The counting sort: the bytes of `data` in ascending order, written run
/// by run from the histogram `counts` of `data`.
pub fn sorted(data: &[u8], counts: &[u32; 256]) -> (out: Vec<u8>)
    requires
        is_histogram(counts@, data@),
    ensures
        is_ascending(out@),
        out@.to_multiset() == data@.to_multiset(),
        placed_by_counts(out@, data@),
{
    let mut out: Vec<u8> = Vec::with_capacity(data.len());
    let mut b: usize = 0;
    proof {
        lemma_count_below_step(data@, 0);
    }
    while b < 256
        invariant
            b <= 256,
            is_histogram(counts@, data@),
            out@.len() == count_below(data@, b as int),
            forall|k: int|
                0 <= k < out@.len() ==> count_below(data@, #[trigger] out@[k] as int) <= k
                    < count_below(data@, out@[k] + 1),
            forall|v: int|
                0 <= v < 256 ==> #[trigger] count_eq(out@, v) == if v < b {
                    count_eq(data@, v)
                } else {
                    0
                },
        decreases 256 - b,
    {
        let count: u32 = counts[b];
        let mut c: u32 = 0;
        proof {
            lemma_count_below_step(data@, b as int);
        }
        while c < count
            invariant
                b < 256,
                c <= count,
                count == count_eq(data@, b as int),
                count_below(data@, b + 1) == count_below(data@, b as int) + count,
                out@.len() == count_below(data@, b as int) + c,
                forall|k: int|
                    0 <= k < out@.len() ==> count_below(data@, #[trigger] out@[k] as int) <= k
                        < count_below(data@, out@[k] + 1),
                forall|v: int|
                    0 <= v < 256 ==> #[trigger] count_eq(out@, v) == if v < b {
                        count_eq(data@, v)
                    } else if v == b {
                        c as nat
                    } else {
                        0
                    },
            decreases count - c,
        {
            proof {
                assert forall|v: int| 0 <= v < 256 implies #[trigger] count_eq(
                    out@.push(b as u8),
                    v,
                ) == if v < b {
                    count_eq(data@, v)
                } else if v == b {
                    (c + 1) as nat
                } else {
                    0
                } by {
                    lemma_count_push(out@, b as u8, v);
                }
            }
            out.push(b as u8);
            c += 1;
        }
        b += 1;
    }
    proof {
        lemma_count_below_step(data@, 256);
        lemma_placed_ascending(out@, data@);
        assert forall|v: u8| out@.to_multiset().count(v) == data@.to_multiset().count(v) by {
            lemma_count_eq_multiset(out@, v);
            lemma_count_eq_multiset(data@, v);
            assert(count_eq(out@, v as int) == count_eq(data@, v as int));
        }
        assert(out@.to_multiset() =~= data@.to_multiset());
    }
    out
}

} // verus!
