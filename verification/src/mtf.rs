//! The move-to-front recoding: each byte is written as its distance from
//! the front of a table of all 256 byte values, and is then moved to the
//! front of that table.

use vstd::prelude::*;
use vstd::set_lib::*;
use vstd::std_specs::iter::IteratorSpec;

verus! {

/// The table that every encoder and decoder starts from: byte `i` at index `i`.
pub open spec fn identity_table() -> Seq<u8> {
    Seq::new(256, |i: int| i as u8)
}

/// `t` is a table: it holds 256 bytes and none of them twice, so every
/// byte value once.
pub open spec fn is_table(t: Seq<u8>) -> bool {
    &&& t.len() == 256
    &&& forall|i: int, j: int| 0 <= i < j < 256 ==> #[trigger] t[i] != #[trigger] t[j]
}

/// The table `t` after the byte at index `idx` has moved to the front: the
/// bytes that stood before it stand one index further back, and those
/// behind it stand where they stood.
pub open spec fn move_to_front(t: Seq<u8>, idx: int) -> Seq<u8> {
    Seq::new(
        t.len(),
        |k: int|
            if k == 0 {
                t[idx]
            } else if k <= idx {
                t[k - 1]
            } else {
                t[k]
            },
    )
}

/// The index at which the table `t` holds the byte `b`.
pub open spec fn position(t: Seq<u8>, b: u8) -> int {
    choose|i: int| 0 <= i < t.len() && t[i] == b
}

/// The distances that encoding `x` gives, starting from the table `t`.
pub open spec fn mtf_encode(t: Seq<u8>, x: Seq<u8>) -> Seq<u8>
    decreases x.len(),
{
    if x.len() == 0 {
        Seq::empty()
    } else {
        seq![position(t, x[0]) as u8] + mtf_encode(
            move_to_front(t, position(t, x[0])),
            x.drop_first(),
        )
    }
}

/// The bytes that decoding the distances `y` gives, starting from the
/// table `t`.
pub open spec fn mtf_decode(t: Seq<u8>, y: Seq<u8>) -> Seq<u8>
    decreases y.len(),
{
    if y.len() == 0 {
        Seq::empty()
    } else {
        seq![t[y[0] as int]] + mtf_decode(move_to_front(t, y[0] as int), y.drop_first())
    }
}

/// A table holds every byte value, at one index only.
pub proof fn lemma_position(t: Seq<u8>, b: u8)
    requires
        is_table(t),
    ensures
        0 <= position(t, b) < 256,
        t[position(t, b)] == b,
        forall|i: int| 0 <= i < 256 && t[i] == b ==> i == position(t, b),
{
    let vals = Seq::new(256, |k: int| t[k] as int);
    assert(vals.no_duplicates());
    vals.unique_seq_to_set();
    lemma_int_range(0, 256);
    assert(vals.to_set().subset_of(set_int_range(0, 256))) by {
        assert forall|w: int| vals.to_set().contains(w) implies set_int_range(0, 256).contains(
            w,
        ) by {
            let k = choose|k: int| 0 <= k < vals.len() && vals[k] == w;
        }
    }
    lemma_len_subset(vals.to_set(), set_int_range(0, 256));
    lemma_subset_equality(vals.to_set(), set_int_range(0, 256));
    assert(set_int_range(0, 256).contains(b as int));
    assert(vals.contains(b as int));
    let k = choose|k: int| 0 <= k < vals.len() && vals[k] == b as int;
    assert(t[k] == b);
    assert forall|i: int| 0 <= i < 256 && t[i] == b implies i == position(t, b) by {
        let p = position(t, b);
        if i < p {
            assert(t[i] != t[p]);
        } else if p < i {
            assert(t[p] != t[i]);
        }
    }
}

/// The identity table is a table.
pub proof fn lemma_identity_table()
    ensures
        is_table(identity_table()),
{
}

/// Moving a byte to the front of a table gives a table.
pub proof fn lemma_move_to_front(t: Seq<u8>, idx: int)
    requires
        is_table(t),
        0 <= idx < 256,
    ensures
        is_table(move_to_front(t, idx)),
        move_to_front(t, idx)[0] == t[idx],
{
    let m = move_to_front(t, idx);
    assert forall|i: int, j: int| 0 <= i < j < 256 implies #[trigger] m[i] != #[trigger] m[j] by {
        let si = if i == 0 { idx } else if i <= idx { i - 1 } else { i };
        let sj = if j <= idx { j - 1 } else { j };
        assert(m[i] == t[si]);
        assert(m[j] == t[sj]);
        if si < sj {
            assert(t[si] != t[sj]);
        } else {
            assert(t[sj] != t[si]);
        }
    }
}

/// Decoding undoes encoding, from any table and for every input.
pub proof fn lemma_mtf_round_trip(t: Seq<u8>, x: Seq<u8>)
    requires
        is_table(t),
    ensures
        mtf_encode(t, x).len() == x.len(),
        mtf_decode(t, mtf_encode(t, x)) == x,
    decreases x.len(),
{
    if x.len() == 0 {
    } else {
        let idx = position(t, x[0]);
        lemma_position(t, x[0]);
        lemma_move_to_front(t, idx);
        let next = move_to_front(t, idx);
        lemma_mtf_round_trip(next, x.drop_first());
        let y = mtf_encode(t, x);
        assert(y[0] == idx);
        assert(y.drop_first() =~= mtf_encode(next, x.drop_first()));
        assert(mtf_decode(t, y) =~= seq![x[0]] + x.drop_first());
        assert(seq![x[0]] + x.drop_first() =~= x);
    }
}

/// Encoding undoes decoding, from any table and for every sequence of
/// distances.
pub proof fn lemma_mtf_round_trip_back(t: Seq<u8>, y: Seq<u8>)
    requires
        is_table(t),
    ensures
        mtf_decode(t, y).len() == y.len(),
        mtf_encode(t, mtf_decode(t, y)) == y,
    decreases y.len(),
{
    if y.len() == 0 {
    } else {
        let idx = y[0] as int;
        lemma_position(t, t[idx]);
        lemma_move_to_front(t, idx);
        let next = move_to_front(t, idx);
        lemma_mtf_round_trip_back(next, y.drop_first());
        let x = mtf_decode(t, y);
        assert(x[0] == t[idx]);
        assert(x.drop_first() =~= mtf_decode(next, y.drop_first()));
        assert(mtf_encode(t, x) =~= seq![y[0]] + y.drop_first());
        assert(seq![y[0]] + y.drop_first() =~= y);
    }
}

/// Fills a table with byte `i` at index `i`.
fn table() -> (t: [u8; 256])
    ensures
        t@ == identity_table(),
{
    let mut t: [u8; 256] = [0u8; 256];
    let mut i: usize = 0;
    while i < 256
        invariant
            i <= 256,
            forall|k: int| 0 <= k < i ==> #[trigger] t@[k] == k,
        decreases 256 - i,
    {
        t[i] = i as u8;
        i += 1;
    }
    assert(t@ =~= identity_table());
    t
}

/// Moves the bytes at the indices below `idx` one index further back, over
/// the byte at `idx`; the byte at index 0 stays where it is, to be written
/// over by the caller.
fn shift_table(table: &mut [u8; 256], idx: usize)
    requires
        idx < 256,
    ensures
        final(table)@[0] == old(table)@[0],
        forall|k: int| 1 <= k <= idx ==> #[trigger] final(table)@[k] == old(table)@[k - 1],
        forall|k: int| idx < k < 256 ==> #[trigger] final(table)@[k] == old(table)@[k],
    no_unwind
{
    let mut k: usize = idx;
    while k > 0
        invariant
            k <= idx < 256,
            forall|j: int| 0 <= j <= k ==> #[trigger] table@[j] == old(table)@[j],
            forall|j: int| k < j <= idx ==> #[trigger] table@[j] == old(table)@[j - 1],
            forall|j: int| idx < j < 256 ==> #[trigger] table@[j] == old(table)@[j],
        decreases k,
    {
        table[k] = table[k - 1];
        k -= 1;
    }
}

/// The index at which the table holds `byte`, which is not at its front.
fn find(table: &[u8; 256], byte: u8) -> (idx: usize)
    requires
        is_table(table@),
        table@[0] != byte,
    ensures
        idx == position(table@, byte),
        1 <= idx < 256,
        table@[idx as int] == byte,
    no_unwind
{
    proof {
        lemma_position(table@, byte);
    }
    let mut idx: usize = 1;
    while table[idx] != byte
        invariant
            is_table(table@),
            1 <= idx <= position(table@, byte) < 256,
            table@[position(table@, byte)] == byte,
        decreases 256 - idx,
    {
        idx += 1;
    }
    proof {
        lemma_position(table@, byte);
    }
    idx
}

/// One step of encoding on a bare table.
fn encode_byte(table: &mut [u8; 256], byte: u8) -> (distance: u8)
    requires
        is_table(old(table)@),
    ensures
        is_table(final(table)@),
        distance == position(old(table)@, byte),
        final(table)@ == move_to_front(old(table)@, distance as int),
    no_unwind
{
    proof {
        lemma_position(table@, byte);
    }
    // The byte at the front stays there.
    if table[0] == byte {
        assert(table@ =~= move_to_front(table@, 0));
        return 0;
    }
    let idx = find(table, byte);
    proof {
        lemma_move_to_front(table@, idx as int);
    }
    shift_table(table, idx);
    table[0] = byte;
    assert(table@ =~= move_to_front(old(table)@, idx as int));
    idx as u8
}

/// One step of decoding on a bare table.
fn decode_byte(table: &mut [u8; 256], distance: u8) -> (byte: u8)
    requires
        is_table(old(table)@),
    ensures
        is_table(final(table)@),
        byte == old(table)@[distance as int],
        final(table)@ == move_to_front(old(table)@, distance as int),
    no_unwind
{
    let idx = distance as usize;
    let byte = table[idx];
    proof {
        lemma_move_to_front(table@, idx as int);
    }
    if idx != 0 {
        shift_table(table, idx);
        table[0] = byte;
    }
    assert(table@ =~= move_to_front(old(table)@, idx as int));
    byte
}

/// The table of a move-to-front coder: all 256 byte values, each once, the
/// most recently used at the front.
pub struct Table {
    bytes: [u8; 256],
}

impl Table {
    /// The table never ceases to hold every byte value once.
    #[verifier::type_invariant]
    spec fn sound(&self) -> bool {
        is_table(self.bytes@)
    }

    /// The bytes of the table, front first.
    pub closed spec fn view(&self) -> Seq<u8> {
        self.bytes@
    }

    /// The table with byte `i` at index `i`.
    pub fn new() -> (t: Self)
        ensures
            t@ == identity_table(),
    {
        proof {
            lemma_identity_table();
        }
        Table { bytes: table() }
    }

    /// Encodes one byte: returns its distance from the front of the table,
    /// and moves it to the front.
    pub fn encode(&mut self, byte: u8) -> (distance: u8)
        ensures
            is_table(old(self)@),
            is_table(final(self)@),
            distance == position(old(self)@, byte),
            final(self)@ == move_to_front(old(self)@, distance as int),
    {
        proof {
            use_type_invariant(&*self);
        }
        encode_byte(&mut self.bytes, byte)
    }

    /// Decodes one distance: returns the byte that stands at that distance
    /// from the front of the table, and moves it to the front.
    pub fn decode(&mut self, distance: u8) -> (byte: u8)
        ensures
            is_table(old(self)@),
            is_table(final(self)@),
            byte == old(self)@[distance as int],
            final(self)@ == move_to_front(old(self)@, distance as int),
    {
        proof {
            use_type_invariant(&*self);
        }
        decode_byte(&mut self.bytes, distance)
    }
}

/// Encodes a whole buffer, starting from the identity table.
pub fn encode(data: &[u8]) -> (out: Vec<u8>)
    ensures
        out@ == mtf_encode(identity_table(), data@),
        out@.len() == data@.len(),
        mtf_decode(identity_table(), out@) == data@,
{
    let mut table = Table::new();
    let mut output: Vec<u8> = Vec::with_capacity(data.len());
    let n = data.len();
    let mut i: usize = 0;
    proof {
        assert(data@.skip(0) =~= data@);
    }
    while i < n
        invariant
            n == data@.len(),
            i <= n,
            output@ + mtf_encode(table@, data@.skip(i as int)) == mtf_encode(
                identity_table(),
                data@,
            ),
        decreases n - i,
    {
        let ghost before = output@;
        let ghost t = table@;
        let distance = table.encode(data[i]);
        output.push(distance);
        proof {
            assert(data@.skip(i as int).drop_first() =~= data@.skip(i + 1));
            assert(output@ + mtf_encode(table@, data@.skip(i + 1)) =~= before + mtf_encode(
                t,
                data@.skip(i as int),
            ));
        }
        i += 1;
    }
    proof {
        assert(output@ =~= output@ + mtf_encode(table@, data@.skip(n as int)));
        lemma_identity_table();
        lemma_mtf_round_trip(identity_table(), data@);
    }
    output
}

/// Decodes a whole buffer of distances, starting from the identity table.
pub fn decode(data: &[u8]) -> (out: Vec<u8>)
    ensures
        out@ == mtf_decode(identity_table(), data@),
        out@.len() == data@.len(),
        mtf_encode(identity_table(), out@) == data@,
{
    let mut table = Table::new();
    let mut output: Vec<u8> = Vec::with_capacity(data.len());
    let n = data.len();
    let mut i: usize = 0;
    proof {
        assert(data@.skip(0) =~= data@);
    }
    while i < n
        invariant
            n == data@.len(),
            i <= n,
            output@ + mtf_decode(table@, data@.skip(i as int)) == mtf_decode(
                identity_table(),
                data@,
            ),
        decreases n - i,
    {
        let ghost before = output@;
        let ghost t = table@;
        let byte = table.decode(data[i]);
        output.push(byte);
        proof {
            assert(data@.skip(i as int).drop_first() =~= data@.skip(i + 1));
            assert(output@ + mtf_decode(table@, data@.skip(i + 1)) =~= before + mtf_decode(
                t,
                data@.skip(i as int),
            ));
        }
        i += 1;
    }
    proof {
        assert(output@ =~= output@ + mtf_decode(table@, data@.skip(n as int)));
        lemma_identity_table();
        lemma_mtf_round_trip_back(identity_table(), data@);
    }
    output
}

/// An encoder that draws its input from `src`, one byte for each distance
/// that is asked of it.
pub struct Encoder<I> {
    table: Table,
    src: I,
}

/// A decoder that draws its input from `src`, one distance for each byte
/// that is asked of it.
pub struct Decoder<I> {
    table: Table,
    src: I,
}

impl<I> Encoder<I> {
    /// The table as it stands.
    pub closed spec fn table(&self) -> Seq<u8> {
        self.table@
    }

    /// The source of the bytes.
    pub closed spec fn source(&self) -> I {
        self.src
    }

    /// An encoder over `src`, with the identity table.
    pub fn new(src: I) -> (enc: Self)
        ensures
            enc.table() == identity_table(),
            enc.source() == src,
    {
        Encoder { table: Table::new(), src }
    }
}

impl<I: Iterator<Item = u8>> Encoder<I> {
    /// Draws one byte from the source and encodes it; `None` when the
    /// source gives none.
    ///
    /// Whatever the source gives, the table changes only by the move that
    /// the returned distance names. Of a source that keeps to the laws of
    /// iterators, the byte that is encoded is the next that the source had
    /// to give.
    pub fn next(&mut self) -> (r: Option<u8>)
        ensures
            r is None ==> final(self).table() == old(self).table(),
            r matches Some(distance) ==> final(self).table() == move_to_front(
                old(self).table(),
                distance as int,
            ),
            old(self).source().obeys_prophetic_iter_laws() ==> (if old(
                self,
            ).source().remaining().len() > 0 {
                &&& r == Some(position(old(self).table(), old(self).source().remaining()[0]) as u8)
                &&& final(self).source().remaining() == old(self).source().remaining().drop_first()
            } else {
                r is None
            }),
    {
        match self.src.next() {
            Some(byte) => Some(self.table.encode(byte)),
            _ => None,
        }
    }
}

impl<I> Decoder<I> {
    /// The table as it stands.
    pub closed spec fn table(&self) -> Seq<u8> {
        self.table@
    }

    /// The source of the distances.
    pub closed spec fn source(&self) -> I {
        self.src
    }

    /// A decoder over `src`, with the identity table.
    pub fn new(src: I) -> (dec: Self)
        ensures
            dec.table() == identity_table(),
            dec.source() == src,
    {
        Decoder { table: Table::new(), src }
    }
}

impl<I: Iterator<Item = u8>> Decoder<I> {
    /// Draws one distance from the source and decodes it; `None` when the
    /// source gives none.
    ///
    /// Whatever the source gives, the byte returned is the one that comes
    /// to the front of the table. Of a source that keeps to the laws of
    /// iterators, the distance that is decoded is the next that the source
    /// had to give.
    pub fn next(&mut self) -> (r: Option<u8>)
        ensures
            r is None ==> final(self).table() == old(self).table(),
            r matches Some(byte) ==> final(self).table() == move_to_front(
                old(self).table(),
                position(old(self).table(), byte),
            ),
            old(self).source().obeys_prophetic_iter_laws() ==> (if old(
                self,
            ).source().remaining().len() > 0 {
                &&& r == Some(old(self).table()[old(self).source().remaining()[0] as int])
                &&& final(self).table() == move_to_front(
                    old(self).table(),
                    old(self).source().remaining()[0] as int,
                )
                &&& final(self).source().remaining() == old(self).source().remaining().drop_first()
            } else {
                r is None
            }),
    {
        match self.src.next() {
            Some(distance) => {
                let ghost t = self.table@;
                let byte = self.table.decode(distance);
                proof {
                    lemma_position(t, byte);
                }
                Some(byte)
            },
            _ => None,
        }
    }
}

} // verus!
