//! Gathering small chunks of bits back into bytes, lowest bits first.

use vstd::prelude::*;
use crate::bits::{absorb, low_mask};

verus! {

/// The state of an assembler after one more chunk: (byte so far, bits filled, bytes completed).
pub open spec fn feed_step(st: (u8, u8, Seq<u8>), part: u8, k: u8) -> (u8, u8, Seq<u8>) {
    let acc = absorb(st.0, part, st.1);
    if st.1 + k >= 8 {
        (0u8, 0u8, st.2.push(acc))
    } else {
        (acc, (st.1 + k) as u8, st.2)
    }
}

/// The state of an assembler after a whole sequence of chunks.
pub open spec fn feed(st: (u8, u8, Seq<u8>), parts: Seq<u8>, k: u8) -> (u8, u8, Seq<u8>)
    decreases parts.len(),
{
    if parts.len() == 0 {
        st
    } else {
        feed_step(feed(st, parts.drop_last(), k), parts.last(), k)
    }
}

/// Masks every value of a sequence with `mask`.
pub open spec fn masked(s: Seq<u8>, mask: u8) -> Seq<u8> {
    s.map_values(|x: u8| (x & mask) as u8)
}

/// Reading chunks into an assembler until it holds `exp` bytes or the chunks run out:
/// the state reached and how many chunks were used.
pub open spec fn read_fill(st: (u8, u8, Seq<u8>), parts: Seq<u8>, k: u8, exp: nat) -> ((u8, u8, Seq<u8>), nat)
    decreases parts.len(),
{
    if st.2.len() >= exp || parts.len() == 0 {
        (st, 0)
    } else {
        let r = read_fill(feed_step(st, parts[0], k), parts.drop_first(), k, exp);
        (r.0, r.1 + 1)
    }
}

/// Feeding one chunk and then more is feeding them all.
pub proof fn lemma_feed_cons(st: (u8, u8, Seq<u8>), x: u8, p: Seq<u8>, k: u8)
    ensures
        feed(st, seq![x] + p, k) == feed(feed_step(st, x, k), p, k),
    decreases p.len(),
{
    if p.len() == 0 {
        assert(seq![x] + p =~= seq![x]);
        assert(seq![x].drop_last() =~= Seq::<u8>::empty());
        assert(feed(st, seq![x], k) == feed_step(feed(st, Seq::<u8>::empty(), k), x, k));
    } else {
        lemma_feed_cons(st, x, p.drop_last(), k);
        let q = seq![x] + p;
        assert(q.drop_last() =~= seq![x] + p.drop_last());
        assert(q.last() == p.last());
        assert(feed(st, q, k) == feed_step(feed(st, q.drop_last(), k), q.last(), k));
        assert(feed(feed_step(st, x, k), p, k) == feed_step(feed(feed_step(st, x, k), p.drop_last(), k), p.last(), k));
    }
}

/// Reading until full uses the chunks up to the first point where the assembler is full.
pub proof fn lemma_read_fill(st: (u8, u8, Seq<u8>), parts: Seq<u8>, k: u8, exp: nat, u: nat)
    requires
        u <= parts.len(),
        forall|m: int| 0 <= m < u ==> (#[trigger] feed(st, parts.take(m), k)).2.len() < exp,
        feed(st, parts.take(u as int), k).2.len() >= exp || u == parts.len(),
    ensures
        read_fill(st, parts, k, exp) == (feed(st, parts.take(u as int), k), u),
    decreases u,
{
    if u == 0 {
        assert(parts.take(0) =~= Seq::<u8>::empty());
    } else {
        assert(parts.take(0) =~= Seq::<u8>::empty());
        assert(feed(st, parts.take(0), k) == st);
        let st1 = feed_step(st, parts[0], k);
        let rest = parts.drop_first();
        assert forall|m: int| 0 <= m < u - 1 implies (#[trigger] feed(st1, rest.take(m), k)).2.len() < exp by {
            assert(parts.take(m + 1) =~= seq![parts[0]] + rest.take(m));
            lemma_feed_cons(st, parts[0], rest.take(m), k);
            assert(feed(st, parts.take(m + 1), k).2.len() < exp);
        }
        assert(parts.take(u as int) =~= seq![parts[0]] + rest.take(u - 1));
        lemma_feed_cons(st, parts[0], rest.take(u - 1), k);
        lemma_read_fill(st1, rest, k, exp, (u - 1) as nat);
    }
}

/// The same, for values `chans[pos..]` read through a mask up to `end`, as
/// [`ConstBufReader::read_while_can`] reports them.
pub proof fn lemma_read_fill_chans(st: (u8, u8, Seq<u8>), chans: Seq<u8>, pos: int, end: int, k: u8, mask: u8, exp: nat)
    requires
        0 <= pos <= end <= chans.len(),
        forall|m: int| pos <= m < end ==> (#[trigger] feed(st, masked(chans.subrange(pos, m), mask), k)).2.len() < exp,
        feed(st, masked(chans.subrange(pos, end), mask), k).2.len() >= exp || end == chans.len(),
    ensures
        read_fill(st, masked(chans.skip(pos), mask), k, exp) == (feed(st, masked(chans.subrange(pos, end), mask), k), (end - pos) as nat),
{
    let parts = masked(chans.skip(pos), mask);
    assert forall|m: int| 0 <= m < end - pos implies (#[trigger] feed(st, parts.take(m), k)).2.len() < exp by {
        assert(parts.take(m) =~= masked(chans.subrange(pos, pos + m), mask));
        assert(feed(st, masked(chans.subrange(pos, pos + m), mask), k).2.len() < exp);
    }
    assert(parts.take(end - pos) =~= masked(chans.subrange(pos, end), mask));
    lemma_read_fill(st, parts, k, exp, (end - pos) as nat);
}

/// Reads one byte in chunks of bits, lowest bits first ([`Self::next_le`]);
/// take the byte with [`Self::take_byte`] once it is complete.
pub struct SingleByteReader {
    cur_byte: u8,
    cur_bit: u8,
}

impl View for SingleByteReader {
    /// (byte so far, bits filled)
    type V = (u8, u8);

    closed spec fn view(&self) -> (u8, u8) {
        (self.cur_byte, self.cur_bit)
    }
}

impl SingleByteReader {
    pub fn new() -> (r: Self)
        ensures
            r@ == (0u8, 0u8),
    {
        Self { cur_byte: 0, cur_bit: 0 }
    }

    pub fn is_done(&self) -> (r: bool)
        ensures
            r == (self@.1 >= 8),
    {
        self.cur_bit >= 8
    }

    pub fn byte(&self) -> (r: u8)
        ensures
            r == self@.0,
    {
        self.cur_byte
    }

    pub fn take_byte(&mut self) -> (r: u8)
        ensures
            r == old(self)@.0,
            final(self)@ == (0u8, 0u8),
    {
        let ret = self.cur_byte;
        *self = Self::new();
        ret
    }

    /// Puts the next `bits`-bit chunk above the bits filled so far; tells whether the byte is full.
    pub fn next_le(&mut self, part_of_byte: u8, bits: u8) -> (r: bool)
        requires
            old(self)@.1 + bits <= 255,
        ensures
            final(self)@ == (absorb(old(self)@.0, part_of_byte, old(self)@.1), (old(self)@.1 + bits) as u8),
            r == (old(self)@.1 + bits >= 8),
    {
        let shift = self.cur_bit & 7;
        proof {
            let b = self.cur_bit;
            assert(b & 7u8 == b % 8u8) by (bit_vector);
        }
        self.cur_byte = self.cur_byte | (part_of_byte << shift);
        self.cur_bit = self.cur_bit + bits;
        self.is_done()
    }
}

/// Reads bytes that come in chunks of a fixed number of bits.
pub struct ConstBytesReader {
    br: SingleByteReader,
    bits: u8,
}

impl View for ConstBytesReader {
    /// (byte so far, bits filled, bits per chunk)
    type V = (u8, u8, u8);

    closed spec fn view(&self) -> (u8, u8, u8) {
        (self.br@.0, self.br@.1, self.bits)
    }
}

impl ConstBytesReader {
    pub fn new(bits: u8) -> (r: Self)
        ensures
            r@ == (0u8, 0u8, bits),
    {
        Self { br: SingleByteReader::new(), bits }
    }

    /// How many bits of the byte being gathered were taken.
    pub fn bits_taken(&self) -> (r: u8)
        ensures
            r == self@.1,
    {
        self.br.cur_bit
    }

    pub fn is_not_started(&self) -> (r: bool)
        ensures
            r == (self@.1 == 0),
    {
        self.br.cur_bit == 0
    }

    pub fn is_done(&self) -> (r: bool)
        ensures
            r == (self@.1 >= 8),
    {
        self.br.is_done()
    }

    pub fn next_le(&mut self, part_of_byte: u8) -> (r: bool)
        requires
            old(self)@.1 + old(self)@.2 <= 255,
        ensures
            final(self)@ == (absorb(old(self)@.0, part_of_byte, old(self)@.1), (old(self)@.1 + old(self)@.2) as u8, old(self)@.2),
            r == (old(self)@.1 + old(self)@.2 >= 8),
    {
        self.br.next_le(part_of_byte, self.bits)
    }

    /// Adds the next chunk; gives the byte back (and starts a new one) once it is full.
    pub fn try_take_next_le_byte(&mut self, part_of_byte: u8) -> (r: Option<u8>)
        requires
            old(self)@.1 + old(self)@.2 <= 255,
        ensures
            ({
                let st = feed_step((old(self)@.0, old(self)@.1, Seq::<u8>::empty()), part_of_byte, old(self)@.2);
                &&& final(self)@ == (st.0, st.1, old(self)@.2)
                &&& r == (if st.2.len() == 1 { Some(st.2[0]) } else { None::<u8> })
            }),
    {
        if self.next_le(part_of_byte) {
            Some(self.br.take_byte())
        } else {
            None
        }
    }

    pub fn reset(&mut self)
        ensures
            final(self)@ == (0u8, 0u8, old(self)@.2),
    {
        self.br = SingleByteReader::new();
    }
}

/// Reads chunks of bits (the low bits of carrier values) until a buffer of known size is full.
pub struct ConstBufReader {
    reader: ConstBytesReader,
    buf: Vec<u8>,
    expected_size: usize,
    mask: u8,
}

impl ConstBufReader {
    /// (byte so far, bits filled, bytes completed)
    pub closed spec fn state(&self) -> (u8, u8, Seq<u8>) {
        (self.reader@.0, self.reader@.1, self.buf@)
    }

    pub closed spec fn expected(&self) -> nat {
        self.expected_size as nat
    }

    pub closed spec fn spec_bits(&self) -> u8 {
        self.reader@.2
    }

    pub closed spec fn wf(&self) -> bool {
        &&& 1 <= self.reader@.2 <= 7
        &&& self.reader@.1 < 8
        &&& self.mask == low_mask(self.reader@.2)
        &&& self.buf@.len() <= self.expected_size
    }

    pub proof fn lemma_wf(&self)
        requires
            self.wf(),
        ensures
            self.state().2.len() <= self.expected(),
            1 <= self.spec_bits() <= 7,
            self.state().1 < 8,
    {
    }

    pub fn new(expected_size: usize, bits: u8) -> (r: Self)
        requires
            1 <= bits <= 7,
        ensures
            r.wf(),
            r.state() == (0u8, 0u8, Seq::<u8>::empty()),
            r.expected() == expected_size,
            r.spec_bits() == bits,
    {
        proof { crate::bits::lemma_byte_facts(0, bits, 0, 0); }
        let reader = ConstBytesReader::new(bits);
        let buf = Vec::new();
        Self { reader, buf, expected_size, mask: (1u8 << bits) - 1 }
    }

    /// Reads the masked values `chans[pos..]` as chunks until the buffer is full.
    /// Gives whether the buffer is full and the position reached.
    pub fn read_while_can(&mut self, chans: &[u8], pos: usize) -> (r: (bool, usize))
        requires
            old(self).wf(),
            pos <= chans@.len(),
        ensures
            final(self).wf(),
            final(self).expected() == old(self).expected(),
            final(self).spec_bits() == old(self).spec_bits(),
            pos <= r.1 <= chans@.len(),
            final(self).state() == feed(old(self).state(), masked(chans@.subrange(pos as int, r.1 as int), low_mask(old(self).spec_bits())), old(self).spec_bits()),
            r.0 == (final(self).state().2.len() == old(self).expected()),
            !r.0 ==> r.1 == chans@.len(),
            forall|m: int| pos <= m < r.1 ==> (#[trigger] feed(old(self).state(), masked(chans@.subrange(pos as int, m), low_mask(old(self).spec_bits())), old(self).spec_bits())).2.len() < old(self).expected(),
    {
        let ghost st0 = self.state();
        let ghost k = self.reader@.2;
        let ghost mask = low_mask(k);
        let mut i = pos;
        proof {
            assert(masked(chans@.subrange(pos as int, pos as int), mask) =~= Seq::<u8>::empty());
        }
        while self.buf.len() != self.expected_size
            invariant
                self.wf(),
                self.reader@.2 == k,
                k == old(self).spec_bits(),
                st0 == old(self).state(),
                self.expected_size == old(self).expected_size,
                pos <= i <= chans@.len(),
                mask == low_mask(k),
                self.state() == feed(st0, masked(chans@.subrange(pos as int, i as int), mask), k),
                forall|m: int| pos <= m < i ==> (#[trigger] feed(st0, masked(chans@.subrange(pos as int, m), mask), k)).2.len() < self.expected_size,
            decreases chans@.len() - i,
        {
            if i >= chans.len() {
                return (false, i);
            }
            let part_of_byte = chans[i] & self.mask;
            let ghost before = self.state();
            if let Some(byte) = self.reader.try_take_next_le_byte(part_of_byte) {
                self.buf.push(byte);
            }
            proof {
                let prev = masked(chans@.subrange(pos as int, i as int), mask);
                let next = masked(chans@.subrange(pos as int, i + 1), mask);
                assert(next.drop_last() =~= prev);
                assert(next.last() == part_of_byte);
                assert(self.state() == feed_step(before, part_of_byte, k));
            }
            i = i + 1;
        }
        (true, i)
    }

    pub fn left_to_read(&self) -> (r: usize)
        requires
            self.wf(),
        ensures
            r == self.expected() - self.state().2.len(),
    {
        self.expected_size - self.buf.len()
    }

    pub fn bits(&self) -> (r: u8)
        ensures
            r == self.spec_bits(),
    {
        self.reader.bits
    }

    pub fn mask(&self) -> (r: u8)
        requires
            self.wf(),
        ensures
            r == low_mask(self.spec_bits()),
    {
        self.mask
    }

    pub fn is_done(&self) -> (r: bool)
        ensures
            r == (self.state().2.len() == self.expected()),
    {
        self.buf.len() == self.expected_size
    }

    pub fn buf_ref(&self) -> (r: &Vec<u8>)
        ensures
            r@ == self.state().2,
    {
        &self.buf
    }

    pub fn take_buf(self) -> (r: Vec<u8>)
        ensures
            r@ == self.state().2,
    {
        self.buf
    }
}

} // verus!
