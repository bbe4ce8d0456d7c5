//! Run-length preprocessing: runs of equal bytes are cut down to four
//! copies and a count, before the block is sorted.
//!
//! A run of one to three bytes is written as it is. A run of four or more,
//! up to 255, is written as four copies and one byte that holds the length
//! less four. A longer run is written as several such runs, one after the
//! other.

use vstd::prelude::*;

verus! {

/// The longest a single run may be.
pub const MAX_RUN: usize = 255;

/// Where the scan for the end of the run of `s[0]` stops when it stands at
/// `k`: at the first byte that differs, at the end of `s`, or at `cap`.
pub open spec fn run_end(s: Seq<u8>, k: int, cap: int) -> int
    decreases s.len() - k,
{
    if 0 <= k < s.len() && k < cap && s[k] == s[0] {
        run_end(s, k + 1, cap)
    } else {
        k
    }
}

/// The length of the run of equal bytes at the start of `s`, counted no
/// further than `cap`.
pub open spec fn run_len(s: Seq<u8>, cap: int) -> int {
    run_end(s, 0, cap)
}

/// `len` copies of `b`.
pub open spec fn repeated(b: u8, len: int) -> Seq<u8> {
    Seq::new(len as nat, |k: int| b)
}

/// The encoded form of a run of `len` copies of `b`, for `len` from 1 to 255.
pub open spec fn run_unit(b: u8, len: int) -> Seq<u8> {
    if len < 4 {
        repeated(b, len)
    } else {
        repeated(b, 4).push((len - 4) as u8)
    }
}

/// The scan stops at `r` exactly when the bytes before `r` equal `s[0]` and
/// `r` is the cap, the end, or a byte that differs.
pub proof fn lemma_run_end_is(s: Seq<u8>, k: int, cap: int, r: int)
    requires
        0 <= k <= r <= s.len(),
        r <= cap,
        forall|j: int| 0 <= j < r ==> #[trigger] s[j] == s[0],
        r == cap || r == s.len() || s[r] != s[0],
    ensures
        run_end(s, k, cap) == r,
    decreases r - k,
{
    if k < r {
        lemma_run_end_is(s, k + 1, cap, r);
    }
}

/// What the scan finds from `k` on, given that the bytes before `k` equal
/// `s[0]`.
pub proof fn lemma_run_end_bounds(s: Seq<u8>, k: int, cap: int)
    requires
        0 <= k <= s.len(),
        k <= cap,
        forall|j: int| 0 <= j < k ==> #[trigger] s[j] == s[0],
    ensures
        k <= run_end(s, k, cap) <= s.len(),
        run_end(s, k, cap) <= cap,
        forall|j: int| 0 <= j < run_end(s, k, cap) ==> #[trigger] s[j] == s[0],
        run_end(s, k, cap) == cap || run_end(s, k, cap) == s.len() || s[run_end(s, k, cap)]
            != s[0],
    decreases s.len() - k,
{
    if k < s.len() && k < cap && s[k] == s[0] {
        lemma_run_end_bounds(s, k + 1, cap);
    }
}

/// The run at the start of a string that is not empty has at least one
/// byte and at most `cap`, all equal, and ends at the cap, at the end of
/// the string or before a byte that differs.
pub proof fn lemma_run_len(s: Seq<u8>, cap: int)
    requires
        s.len() > 0,
        cap >= 1,
    ensures
        1 <= run_len(s, cap) <= s.len(),
        run_len(s, cap) <= cap,
        forall|j: int| 0 <= j < run_len(s, cap) ==> #[trigger] s[j] == s[0],
        run_len(s, cap) == cap || run_len(s, cap) == s.len() || s[run_len(s, cap)] != s[0],
{
    lemma_run_end_bounds(s, 0, cap);
}

/// The encoding of `s`: its runs, each no longer than 255, one unit per run.
pub open spec fn rle_encode(s: Seq<u8>) -> Seq<u8>
    decreases s.len(),
{
    if s.len() == 0 {
        Seq::empty()
    } else {
        proof {
            lemma_run_len(s, MAX_RUN as int);
        }
        run_unit(s[0], run_len(s, MAX_RUN as int)) + rle_encode(s.skip(run_len(s, MAX_RUN as int)))
    }
}

/// How many of the first bytes of a window of four equal the first: one,
/// two or three.
pub open spec fn equal_prefix(e: Seq<u8>) -> int {
    if e[1] != e[0] {
        1
    } else if e[2] != e[0] {
        2
    } else {
        3
    }
}

/// The decoding of `e`, read in windows of four bytes.
///
/// Four equal bytes with a byte after them are a run, and that byte holds
/// its length less four. Four equal bytes at the very end are four bytes.
/// Any other window gives the equal bytes at its start, as they are. Fewer
/// than four bytes at the end are taken as they are.
pub open spec fn rle_decode(e: Seq<u8>) -> Seq<u8>
    decreases e.len(),
{
    if e.len() < 4 {
        e
    } else if e[0] == e[1] && e[0] == e[2] && e[0] == e[3] {
        if e.len() == 4 {
            e
        } else {
            repeated(e[0], 4 + e[4]) + rle_decode(e.skip(5))
        }
    } else {
        e.take(equal_prefix(e)) + rle_decode(e.skip(equal_prefix(e)))
    }
}

/// The encoding starts with the byte that the input starts with.
pub proof fn lemma_rle_encode_first(s: Seq<u8>)
    requires
        s.len() > 0,
    ensures
        rle_encode(s).len() > 0,
        rle_encode(s)[0] == s[0],
{
    lemma_run_len(s, MAX_RUN as int);
}

/// Decoding undoes encoding, for every input.
pub proof fn lemma_rle_round_trip(x: Seq<u8>)
    ensures
        rle_decode(rle_encode(x)) == x,
    decreases x.len(),
{
    if x.len() == 0 {
        assert(rle_encode(x) =~= x);
    } else {
        let r = run_len(x, MAX_RUN as int);
        let b = x[0];
        let rest = x.skip(r);
        let e = rle_encode(rest);
        let u = rle_encode(x);
        lemma_run_len(x, MAX_RUN as int);
        lemma_rle_round_trip(rest);
        assert(u == run_unit(b, r) + e);
        assert(x =~= repeated(b, r) + rest);
        if rest.len() > 0 {
            lemma_rle_encode_first(rest);
            assert(rest[0] == x[r]);
        }
        if r >= 4 {
            assert(u[4] == r - 4);
            assert(u.skip(5) =~= e);
            assert(rle_decode(u) == repeated(b, r) + rle_decode(e));
        } else if u.len() < 4 {
            assert(u =~= repeated(b, r) + e);
        } else {
            assert(u[r] == e[0]);
            assert(u.take(r) =~= repeated(b, r));
            assert(u.skip(r) =~= e);
            assert(equal_prefix(u) == r);
        }
    }
}

/// Four equal bytes with nothing after them decode to themselves: no
/// length is read where none can stand.
pub proof fn lemma_rle_decode_four_at_end(b: u8)
    ensures
        rle_decode(repeated(b, 4)) == repeated(b, 4),
{
}

/// Appends `count` copies of `b` to `out`.
fn push_run(out: &mut Vec<u8>, b: u8, count: usize)
    ensures
        final(out)@ == old(out)@ + repeated(b, count as int),
{
    let mut k: usize = 0;
    while k < count
        invariant
            k <= count,
            out@ == old(out)@ + repeated(b, k as int),
        decreases count - k,
    {
        out.push(b);
        k += 1;
        assert(out@ =~= old(out)@ + repeated(b, k as int));
    }
}

/// Appends to `out` the encoded form of a run of `len` copies of `b`.
fn push_unit(out: &mut Vec<u8>, b: u8, len: usize)
    requires
        1 <= len <= MAX_RUN,
    ensures
        final(out)@ == old(out)@ + run_unit(b, len as int),
{
    if len < 4 {
        push_run(out, b, len);
    } else {
        push_run(out, b, 4);
        out.push((len - 4) as u8);
        assert(out@ =~= old(out)@ + run_unit(b, len as int));
    }
}

/// Encodes `data` in one pass: each run of equal bytes, measured up to 255,
/// is written as at most four copies, followed by its length less four
/// where it has four bytes or more.
pub fn initial_encode(data: &[u8]) -> (out: Vec<u8>)
    ensures
        out@ == rle_encode(data@),
        rle_decode(out@) == data@,
{
    let n = data.len();
    let mut out: Vec<u8> = Vec::new();
    let mut i: usize = 0;
    assert(data@.skip(0) =~= data@);
    while i < n
        invariant
            n == data@.len(),
            i <= n,
            out@ + rle_encode(data@.skip(i as int)) == rle_encode(data@),
        decreases n - i,
    {
        let ghost s = data@.skip(i as int);
        let b = data[i];
        let mut r: usize = 1;
        while r < MAX_RUN && r < n - i && data[i + r] == b
            invariant
                n == data@.len(),
                i < n,
                s == data@.skip(i as int),
                b == s[0],
                1 <= r <= MAX_RUN,
                r <= n - i,
                forall|j: int| 0 <= j < r ==> #[trigger] s[j] == s[0],
            decreases n - i - r,
        {
            r += 1;
        }
        proof {
            lemma_run_end_is(s, 0, MAX_RUN as int, r as int);
            assert(s.skip(r as int) =~= data@.skip(i + r));
        }
        let ghost before = out@;
        push_unit(&mut out, b, r);
        proof {
            assert(rle_encode(s) == run_unit(b, r as int) + rle_encode(s.skip(r as int)));
            assert(out@ + rle_encode(data@.skip(i + r)) =~= before + rle_encode(s));
        }
        i += r;
    }
    proof {
        assert(out@ =~= out@ + rle_encode(data@.skip(n as int)));
        lemma_rle_round_trip(data@);
    }
    out
}

/// Decodes what `initial_encode` or an `Encoder` wrote.
///
/// The input is read in windows of four bytes. Four equal bytes that have
/// a byte after them stand for a run, whose length is four more than that
/// byte. Four equal bytes at the very end of the input are four bytes and
/// no more. Of any other window, the equal bytes at its start are copied;
/// fewer than four bytes at the end are copied as they are.
pub fn initial_decode(encoded: &[u8]) -> (out: Vec<u8>)
    ensures
        out@ == rle_decode(encoded@),
{
    let n = encoded.len();
    let mut out: Vec<u8> = Vec::new();
    let mut i: usize = 0;
    assert(encoded@.skip(0) =~= encoded@);
    while n - i >= 4
        invariant
            n == encoded@.len(),
            i <= n,
            out@ + rle_decode(encoded@.skip(i as int)) == rle_decode(encoded@),
        decreases n - i,
    {
        let ghost e = encoded@.skip(i as int);
        let ghost before = out@;
        let a = encoded[i];
        let b = encoded[i + 1];
        let c = encoded[i + 2];
        let d = encoded[i + 3];
        if a == b && a == c && a == d {
            if n - i > 4 {
                let run: usize = 4 + encoded[i + 4] as usize;
                push_run(&mut out, a, run);
                proof {
                    assert(e.skip(5) =~= encoded@.skip(i + 5));
                    assert(out@ + rle_decode(encoded@.skip(i + 5)) =~= before + rle_decode(e));
                }
                i += 5;
            } else {
                push_run(&mut out, a, 4);
                proof {
                    assert(e =~= repeated(a, 4));
                    assert(encoded@.skip(i + 4) =~= Seq::<u8>::empty());
                    assert(out@ + rle_decode(encoded@.skip(i + 4)) =~= before + rle_decode(e));
                }
                i += 4;
            }
        } else {
            let run: usize = if a != b { 1 } else if a != c { 2 } else { 3 };
            push_run(&mut out, a, run);
            proof {
                assert(e.take(run as int) =~= repeated(a, run as int));
                assert(e.skip(run as int) =~= encoded@.skip(i + run));
                assert(out@ + rle_decode(encoded@.skip(i + run)) =~= before + rle_decode(e));
            }
            i += run;
        }
    }
    while i < n
        invariant
            n == encoded@.len(),
            n - i < 4,
            i <= n,
            out@ + encoded@.skip(i as int) == rle_decode(encoded@),
        decreases n - i,
    {
        let ghost before = out@;
        out.push(encoded[i]);
        assert(out@ + encoded@.skip(i + 1) =~= before + encoded@.skip(i as int));
        i += 1;
    }
    assert(out@ =~= out@ + encoded@.skip(n as int));
    out
}

/// Where the last run of `s` starts, when `s` is read run by run from its
/// start, each run no longer than 255.
pub open spec fn last_run_start(s: Seq<u8>) -> int
    decreases s.len(),
{
    if s.len() == 0 {
        0
    } else {
        proof {
            lemma_run_len(s, MAX_RUN as int);
        }
        if run_len(s, MAX_RUN as int) == s.len() {
            0
        } else {
            run_len(s, MAX_RUN as int) + last_run_start(s.skip(run_len(s, MAX_RUN as int)))
        }
    }
}

/// What an encoder has written out when it has taken `s`: the units of all
/// runs of `s` but the last, which it still holds back.
pub open spec fn emitted(s: Seq<u8>) -> Seq<u8> {
    rle_encode(s.take(last_run_start(s)))
}

/// How many bytes of `data` an encoder takes that has taken `taken` before
/// and was made for `cap` bytes: it takes the next byte as long as it has
/// written out fewer than `cap` bytes.
pub open spec fn accepted(taken: Seq<u8>, data: Seq<u8>, cap: int) -> int
    decreases data.len(),
{
    if data.len() == 0 || emitted(taken).len() >= cap {
        0
    } else {
        1 + accepted(taken.push(data[0]), data.drop_first(), cap)
    }
}

/// The last run of a string that is not empty: it has from 1 to 255 bytes,
/// all equal, and the encoding of the string is the encoding of what
/// stands before that run, followed by the unit of that run.
pub proof fn lemma_last_run(s: Seq<u8>)
    requires
        s.len() > 0,
    ensures
        0 <= last_run_start(s) < s.len(),
        s.len() - last_run_start(s) <= MAX_RUN,
        forall|k: int| last_run_start(s) <= k < s.len() ==> #[trigger] s[k] == s.last(),
        rle_encode(s) == emitted(s) + run_unit(s.last(), s.len() - last_run_start(s)),
    decreases s.len(),
{
    let cap = MAX_RUN as int;
    let r = run_len(s, cap);
    lemma_run_len(s, cap);
    if r == s.len() {
        assert(s.take(0) =~= Seq::<u8>::empty());
        assert(s.skip(r) =~= Seq::<u8>::empty());
        assert(s[r - 1] == s[0]);
        assert(rle_encode(s) =~= emitted(s) + run_unit(s.last(), s.len() - 0));
    } else {
        let rest = s.skip(r);
        lemma_last_run(rest);
        let at = last_run_start(rest);
        let head = s.take(r + at);
        assert(rest.last() == s.last());
        assert forall|k: int| r + at <= k < s.len() implies #[trigger] s[k] == s.last() by {
            assert(rest[k - r] == rest.last());
        }
        lemma_run_end_is(head, 0, cap, r);
        assert(head.skip(r) =~= rest.take(at));
        assert(rle_encode(head) == run_unit(s[0], r) + emitted(rest));
        assert(rle_encode(s) =~= rle_encode(head) + run_unit(s.last(), s.len() - (r + at)));
    }
}

/// How the last run moves when one byte is appended: the byte joins the
/// last run where it equals the bytes of that run and the run is shorter
/// than 255, and starts a run of its own otherwise.
pub proof fn lemma_last_run_push(s: Seq<u8>, b: u8)
    requires
        s.len() > 0,
    ensures
        last_run_start(s.push(b)) == if b == s.last() && s.len() - last_run_start(s) < MAX_RUN {
            last_run_start(s)
        } else {
            s.len() as int
        },
    decreases s.len(),
{
    let cap = MAX_RUN as int;
    let r = run_len(s, cap);
    let sp = s.push(b);
    lemma_run_len(s, cap);
    if r == s.len() {
        assert(s[r - 1] == s[0]);
        if b == s[0] && r < cap {
            lemma_run_end_is(sp, 0, cap, r + 1);
        } else {
            lemma_run_end_is(sp, 0, cap, r);
            let tail = sp.skip(r);
            assert(tail =~= seq![b]);
            lemma_run_end_is(tail, 0, cap, 1);
            assert(last_run_start(tail) == 0);
            assert(last_run_start(sp) == r + last_run_start(tail));
        }
    } else {
        let rest = s.skip(r);
        lemma_run_end_is(sp, 0, cap, r);
        assert(sp.skip(r) =~= rest.push(b));
        lemma_last_run_push(rest, b);
        assert(rest.last() == s.last());
        assert(last_run_start(s) == r + last_run_start(rest));
        assert(last_run_start(sp) == r + last_run_start(rest.push(b)));
    }
}

/// What an encoder has written out after it took one more byte: nothing
/// new where the byte joined the last run, and the unit of the last run
/// where the byte started a run of its own.
pub proof fn lemma_emitted_push(s: Seq<u8>, b: u8)
    ensures
        s.len() == 0 ==> emitted(s.push(b)) == Seq::<u8>::empty() && last_run_start(s.push(b))
            == 0,
        s.len() > 0 && b == s.last() && s.len() - last_run_start(s) < MAX_RUN ==> emitted(
            s.push(b),
        ) == emitted(s),
        s.len() > 0 && !(b == s.last() && s.len() - last_run_start(s) < MAX_RUN) ==> emitted(
            s.push(b),
        ) == rle_encode(s),
{
    let sp = s.push(b);
    if s.len() == 0 {
        lemma_run_end_is(sp, 0, MAX_RUN as int, 1);
        assert(sp.take(0) =~= Seq::<u8>::empty());
    } else {
        lemma_last_run_push(s, b);
        lemma_last_run(s);
        if b == s.last() && s.len() - last_run_start(s) < MAX_RUN {
            assert(sp.take(last_run_start(s)) =~= s.take(last_run_start(s)));
        } else {
            assert(sp.take(s.len() as int) =~= s);
        }
    }
}

/// An encoder that takes its input slice by slice and stops taking when
/// the block that it writes has reached the size it was made for.
pub struct Encoder {
    block: Vec<u8>,
    max_size: usize,
    in_len: usize,
    in_char: u16,
    taken: Ghost<Seq<u8>>,
}

impl Encoder {
    /// All bytes that the encoder has taken so far, in order.
    pub closed spec fn consumed(&self) -> Seq<u8> {
        self.taken@
    }

    /// The size of block for which the encoder was made.
    pub closed spec fn capacity(&self) -> usize {
        self.max_size
    }

    /// The block as written out so far.
    pub closed spec fn written(&self) -> Seq<u8> {
        self.block@
    }

    /// The encoder holds back exactly the last run of what it has taken,
    /// and has written out the units of all runs before it.
    pub closed spec fn wf(&self) -> bool {
        &&& self.block@ == emitted(self.taken@)
        &&& if self.taken@.len() == 0 {
            self.in_len == 0 && self.in_char == 256
        } else {
            &&& self.in_char == self.taken@.last()
            &&& self.in_len == self.taken@.len() - last_run_start(self.taken@)
        }
    }

    /// An encoder that has taken nothing, for blocks of `block_size` bytes.
    pub fn new(block_size: usize) -> (enc: Self)
        ensures
            enc.wf(),
            enc.consumed() == Seq::<u8>::empty(),
            enc.written() == Seq::<u8>::empty(),
            enc.capacity() == block_size,
    {
        let enc = Encoder {
            block: Vec::new(),
            max_size: block_size,
            in_len: 0,
            in_char: 256,
            taken: Ghost(Seq::empty()),
        };
        assert(enc.taken@.take(0) =~= Seq::<u8>::empty());
        enc
    }

    /// Takes bytes from the start of `data`, one by one, as long as fewer
    /// than `capacity` bytes have been written out, and returns how many it
    /// took. A byte that is taken joins the run that is held back, or ends
    /// it: then the unit of that run is written out, so that the block may
    /// grow past `capacity` by the remainder of one unit.
    pub fn encode(&mut self, data: &[u8]) -> (read: usize)
        requires
            old(self).wf(),
        ensures
            final(self).wf(),
            final(self).capacity() == old(self).capacity(),
            read <= data@.len(),
            read == accepted(old(self).consumed(), data@, old(self).capacity() as int),
            final(self).consumed() == old(self).consumed() + data@.take(read as int),
            final(self).written() == emitted(final(self).consumed()),
            read < data@.len() ==> final(self).written().len() >= old(self).capacity(),
            read > 0 ==> final(self).written().len() < old(self).capacity() + 5,
    {
        let mut i: usize = 0;
        assert(data@.skip(0) =~= data@);
        assert(self.taken@ + data@.take(0) =~= self.taken@);
        while i < data.len() && self.block.len() < self.max_size
            invariant
                i <= data@.len(),
                self.wf(),
                self.max_size == old(self).max_size,
                self.taken@ == old(self).taken@ + data@.take(i as int),
                i > 0 ==> self.block@.len() < self.max_size + 5,
                accepted(old(self).taken@, data@, self.max_size as int) == i + accepted(
                    self.taken@,
                    data@.skip(i as int),
                    self.max_size as int,
                ),
            decreases data@.len() - i,
        {
            let b = data[i] as u16;
            let ghost s = self.taken@;
            let ghost sp = s.push(data@[i as int]);
            let ghost before = self.block@;
            proof {
                lemma_emitted_push(s, data@[i as int]);
                if s.len() > 0 {
                    lemma_last_run(s);
                    lemma_last_run_push(s, data@[i as int]);
                }
                assert(data@.skip(i as int).drop_first() =~= data@.skip(i + 1));
                assert(old(self).taken@ + data@.take(i + 1) =~= sp);
            }
            if b != self.in_char && self.in_len == 1 {
                let ib = self.in_char as u8;
                self.block.push(ib);
                self.in_char = b;
                proof {
                    assert(self.block@ =~= before + run_unit(ib, 1));
                }
            } else if b != self.in_char || self.in_len == MAX_RUN {
                if self.in_char < 256 {
                    self.add_pair();
                }
                self.in_char = b;
                self.in_len = 1;
            } else {
                self.in_len += 1;
            }
            proof {
                self.taken@ = sp;
                assert(self.block@ == emitted(sp));
                assert(self.in_char == sp.last());
                assert(self.in_len == sp.len() - last_run_start(sp));
            }
            i += 1;
        }
        proof {
            assert(data@.skip(data@.len() as int) =~= Seq::<u8>::empty());
        }
        i
    }

    /// Writes out the run that is held back, and returns the block: the
    /// encoding of all that was taken.
    pub fn finish(self) -> (block: Vec<u8>)
        requires
            self.wf(),
        ensures
            block@ == rle_encode(self.consumed()),
            rle_decode(block@) == self.consumed(),
    {
        proof {
            lemma_rle_round_trip(self.taken@);
            if self.taken@.len() > 0 {
                lemma_last_run(self.taken@);
            } else {
                assert(self.taken@.take(0) =~= Seq::<u8>::empty());
            }
        }
        let mut enc = self;
        enc.flush();
        enc.block
    }

    /// Whether no run is held back: whether nothing has been taken yet.
    pub fn is_empty(&self) -> (empty: bool)
        requires
            self.wf(),
        ensures
            empty == (self.consumed().len() == 0),
    {
        proof {
            if self.taken@.len() > 0 {
                lemma_last_run(self.taken@);
            }
        }
        self.in_char > 255 || self.in_len == 0
    }

    /// Writes out the unit of the run that is held back, if there is one.
    fn flush(&mut self)
        requires
            old(self).in_char < 256 ==> 1 <= old(self).in_len <= MAX_RUN,
        ensures
            final(self).block@ == old(self).block@ + if old(self).in_char < 256 {
                run_unit(old(self).in_char as u8, old(self).in_len as int)
            } else {
                Seq::<u8>::empty()
            },
            final(self).max_size == old(self).max_size,
            final(self).in_len == old(self).in_len,
            final(self).in_char == old(self).in_char,
            final(self).taken == old(self).taken,
    {
        if self.in_char < 256 {
            self.add_pair();
        } else {
            assert(self.block@ =~= self.block@ + Seq::<u8>::empty());
        }
    }

    /// Writes out the unit of the run that is held back: at most four
    /// copies of its byte, and its length less four where it has four
    /// bytes or more.
    fn add_pair(&mut self)
        requires
            old(self).in_char < 256,
            1 <= old(self).in_len <= MAX_RUN,
        ensures
            final(self).block@ == old(self).block@ + run_unit(
                old(self).in_char as u8,
                old(self).in_len as int,
            ),
            final(self).max_size == old(self).max_size,
            final(self).in_len == old(self).in_len,
            final(self).in_char == old(self).in_char,
            final(self).taken == old(self).taken,
    {
        let ch = self.in_char as u8;
        push_unit(&mut self.block, ch, self.in_len);
    }
}

} // verus!
