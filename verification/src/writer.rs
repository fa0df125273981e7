//! Cutting bytes into small chunks of bits, lowest bits first.

use vstd::prelude::*;
use crate::bits::{bytes_not_started, low_mask, chunks_per_byte, chunk_of, stream_chunk, stream_len, lemma_stream_chunk_at, lemma_shr_shr};

verus! {

/// Hands out one byte in chunks of bits; take each chunk with [`Self::next`].
pub struct SingleByteWriter {
    cur_byte: u8,
    cur_bit: u8,
}

impl View for SingleByteWriter {
    /// (bits of the byte not yet handed out, shifted down; bits handed out so far)
    type V = (u8, u8);

    closed spec fn view(&self) -> (u8, u8) {
        (self.cur_byte, self.cur_bit)
    }
}

impl SingleByteWriter {
    pub fn new(byte: u8) -> (r: Self)
        ensures
            r@ == (byte, 0u8),
    {
        Self { cur_byte: byte, cur_bit: 0 }
    }

    pub fn is_done(&self) -> (r: bool)
        ensures
            r == (self@.1 >= 8),
    {
        self.cur_bit >= 8
    }

    /// The next `bits` lowest bits of what is left of the byte (all of it for 8 bits).
    pub fn next(&mut self, bits: u8) -> (r: u8)
        requires
            bits <= 8,
            old(self)@.1 + bits <= 255,
        ensures
            r == old(self)@.0 & low_mask(bits),
            final(self)@ == ((old(self)@.0 >> bits) as u8, (old(self)@.1 + bits) as u8),
    {
        let ret;
        if bits >= 8 {
            let b = self.cur_byte;
            assert(b & 255u8 == b && b >> 8u8 == 0u8) by (bit_vector);
            ret = b;
            self.cur_byte = 0;
        } else {
            proof { crate::bits::lemma_byte_facts(0, bits, 0, 0); }
            let mask = (1u8 << bits) - 1;
            ret = self.cur_byte & mask;
            self.cur_byte = self.cur_byte >> bits;
        }
        self.cur_bit = self.cur_bit + bits;
        ret
    }

    /// Like [`Self::next`], but `None` once the byte is used up.
    pub fn try_next(&mut self, bits: u8) -> (r: Option<u8>)
        requires
            bits <= 8,
            old(self)@.1 + bits <= 255,
        ensures
            old(self)@.1 >= 8 ==> r is None && final(self)@ == old(self)@,
            old(self)@.1 < 8 ==> r == Some(old(self)@.0 & low_mask(bits))
                && final(self)@ == ((old(self)@.0 >> bits) as u8, (old(self)@.1 + bits) as u8),
    {
        if !self.is_done() {
            Some(self.next(bits))
        } else {
            None
        }
    }
}

/// Hands out bytes in chunks of a fixed number of bits.
pub struct ConstBytesWriter {
    bw: SingleByteWriter,
    bits: u8,
}

impl View for ConstBytesWriter {
    /// (rest of the current byte, bits handed out of it, bits per chunk)
    type V = (u8, u8, u8);

    closed spec fn view(&self) -> (u8, u8, u8) {
        (self.bw@.0, self.bw@.1, self.bits)
    }
}

impl ConstBytesWriter {
    pub fn new(first_byte: u8, bits: u8) -> (r: Self)
        requires
            bits <= 8,
        ensures
            r@ == (first_byte, 0u8, bits),
    {
        Self { bw: SingleByteWriter::new(first_byte), bits }
    }

    pub fn is_done(&self) -> (r: bool)
        ensures
            r == (self@.1 >= 8),
    {
        self.bw.is_done()
    }

    pub fn next(&mut self) -> (r: u8)
        requires
            old(self)@.2 <= 8,
            old(self)@.1 + old(self)@.2 <= 255,
        ensures
            r == old(self)@.0 & low_mask(old(self)@.2),
            final(self)@ == ((old(self)@.0 >> old(self)@.2) as u8, (old(self)@.1 + old(self)@.2) as u8, old(self)@.2),
    {
        self.bw.next(self.bits)
    }

    pub fn set_new_byte(&mut self, byte: u8)
        ensures
            final(self)@ == (byte, 0u8, old(self)@.2),
    {
        self.bw = SingleByteWriter::new(byte);
    }
}

/// Hands out a whole sequence of bytes as one stream of `bits`-bit chunks.
pub struct IterByteWriter {
    bw: ConstBytesWriter,
    data: Vec<u8>,
    pos: usize,
    is_done: bool,
    emitted: Ghost<nat>,
}

impl IterByteWriter {
    /// The bytes that are cut into chunks.
    pub closed spec fn data(&self) -> Seq<u8> {
        self.data@
    }

    /// Bits per chunk.
    pub closed spec fn bits(&self) -> u8 {
        self.bw@.2
    }

    /// Chunks handed out so far.
    pub closed spec fn emitted(&self) -> nat {
        self.emitted@
    }

    pub closed spec fn wf(&self) -> bool {
        let k = self.bw@.2;
        let n = chunks_per_byte(k);
        &&& 1 <= k <= 7
        &&& self.is_done <==> self.emitted@ == stream_len(self.data@, k)
        &&& self.emitted@ <= stream_len(self.data@, k)
        &&& self.pos <= self.data@.len()
        &&& !self.is_done ==> {
            let p = self.pos - 1;
            let j = self.emitted@ - p * n;
            &&& 1 <= self.pos
            &&& 0 <= j < n
            &&& self.bw@.1 == j * k
            &&& self.bw@.0 == self.data@[p] >> self.bw@.1
        }
        &&& self.is_done ==> self.pos == self.data@.len()
    }

    /// What well-formedness gives to callers.
    pub proof fn lemma_wf(&self)
        requires
            self.wf(),
        ensures
            1 <= self.bits() <= 7,
            self.emitted() <= stream_len(self.data(), self.bits()),
    {
    }

    pub fn new(data: Vec<u8>, bits: u8) -> (r: Self)
        requires
            1 <= bits <= 7,
        ensures
            r.wf(),
            r.data() == data@,
            r.bits() == bits,
            r.emitted() == 0,
    {
        let first = if data.len() > 0 { data[0] } else { 0 };
        let is_done = data.len() == 0;
        let pos: usize = if is_done { 0 } else { 1 };
        let r = Self { bw: ConstBytesWriter::new(first, bits), data, pos, is_done, emitted: Ghost(0) };
        proof {
            crate::bits::lemma_byte_facts(first, 0, 0, 0);
            assert(0 * chunks_per_byte(bits) == 0) by (nonlinear_arith);
            assert(0 * bits == 0) by (nonlinear_arith);
        }
        r
    }

    pub fn is_done(&self) -> (r: bool)
        requires
            self.wf(),
        ensures
            r == (self.emitted() == stream_len(self.data(), self.bits())),
    {
        self.is_done
    }

    /// Hands out the next chunk; the flag tells whether it was the last one.
    pub fn write_bits(&mut self) -> (r: (u8, bool))
        requires
            old(self).wf(),
            old(self).emitted() < stream_len(old(self).data(), old(self).bits()),
        ensures
            final(self).wf(),
            final(self).data() == old(self).data(),
            final(self).bits() == old(self).bits(),
            final(self).emitted() == old(self).emitted() + 1,
            r.0 == stream_chunk(old(self).data(), old(self).bits(), old(self).emitted()),
            r.1 == (final(self).emitted() == stream_len(old(self).data(), old(self).bits())),
    {
        let ghost k = self.bw@.2;
        let ghost n = chunks_per_byte(k);
        let ghost p = (self.pos - 1) as nat;
        let ghost j = (self.emitted@ - p * n) as nat;
        let ghost b = self.data@[p as int];
        proof {
            assert(j * k <= 7 * 7) by (nonlinear_arith) requires j < n, n <= 8, k <= 7, j * k < 8 || j < n;
            assert(j * k < 8) by (nonlinear_arith)
                requires 1 <= k <= 7, j < n, n == (if k >= 4 { 2int } else if k == 3 { 3int } else if k == 2 { 4int } else { 8int });
            lemma_stream_chunk_at(self.data@, k, p, j);
            assert(p * n + j == self.emitted@);
        }
        let next_bits = self.bw.next();
        proof {
            let s = (j * k) as u8;
            lemma_shr_shr(b, s, k);
            assert(chunk_of(b, k, j) == ((b >> s) & low_mask(k)) as u8);
            self.emitted@ = self.emitted@ + 1;
        }
        if self.bw.is_done() {
            proof {
                assert((j + 1) * k >= 8) by (nonlinear_arith) requires j * k + k >= 8;
                assert(j + 1 == n) by (nonlinear_arith)
                    requires 1 <= k <= 7, j < n, (j + 1) * k >= 8,
                        n == (if k >= 4 { 2int } else if k == 3 { 3int } else if k == 2 { 4int } else { 8int });
                assert((p + 1) * n == p * n + n) by (nonlinear_arith);
            }
            if self.pos < self.data.len() {
                let byte = self.data[self.pos];
                self.bw.set_new_byte(byte);
                self.pos = self.pos + 1;
                proof {
                    crate::bits::lemma_byte_facts(byte, 0, 0, 0);
                    assert(0 * k == 0) by (nonlinear_arith);
                    assert((p + 1) * n <= self.data@.len() * n) by (nonlinear_arith)
                        requires p + 1 < self.data@.len();
                    assert(self.emitted@ < stream_len(self.data@, k)) by (nonlinear_arith)
                        requires self.emitted@ == (p + 1) * n, p + 2 <= self.data@.len(), n >= 1,
                            stream_len(self.data@, k) == self.data@.len() * n;
                }
            } else {
                self.is_done = true;
                proof {
                    assert(self.data@.len() * n == (p + 1) * n);
                }
                return (next_bits, true);
            }
        } else {
            proof {
                assert((j + 1) * k == j * k + k) by (nonlinear_arith);
                assert(j + 1 < n) by (nonlinear_arith)
                    requires 1 <= k <= 7, (j + 1) * k < 8,
                        n == (if k >= 4 { 2int } else if k == 3 { 3int } else if k == 2 { 4int } else { 8int });
                assert(p * n + n <= self.data@.len() * n) by (nonlinear_arith)
                    requires p + 1 <= self.data@.len();
            }
        }
        (next_bits, false)
    }

    /// Bits per chunk.
    pub fn chunk_bits(&self) -> (r: u8)
        ensures
            r == self.bits(),
    {
        self.bw.bits
    }

    /// How many bytes have been started (the one being cut included).
    pub fn bytes_started(&self) -> (r: usize)
        requires
            self.wf(),
        ensures
            r <= self.data().len(),
            self.emitted() == stream_len(self.data(), self.bits()) ==> r == self.data().len(),
            self.emitted() < stream_len(self.data(), self.bits()) ==> r >= 1
                && (r - 1) * chunks_per_byte(self.bits()) <= self.emitted() < r * chunks_per_byte(self.bits()),
    {
        proof {
            if !self.is_done {
                let n = chunks_per_byte(self.bw@.2);
                let p = (self.pos - 1) as nat;
                assert(self.emitted@ < (p + 1) * n) by (nonlinear_arith)
                    requires self.emitted@ - p * n < n;
            }
        }
        self.pos
    }

    /// The bytes not yet started.
    pub fn take_iter(self) -> (r: Vec<u8>)
        requires
            self.wf(),
        ensures
            r@.len() <= self.data().len(),
            r@.len() == bytes_not_started(self.data().len(), self.bits(), self.emitted()),
            r@ == self.data().subrange(
                if self.emitted() == stream_len(self.data(), self.bits()) { self.data().len() as int }
                else { (self.emitted() / chunks_per_byte(self.bits()) + 1) as int },
                self.data().len() as int,
            ),
    {
        let mut r: Vec<u8> = Vec::new();
        let mut i = self.pos;
        proof {
            if !self.is_done {
                let k = self.bw@.2;
                let n = chunks_per_byte(k);
                let p = (self.pos - 1) as nat;
                let j = (self.emitted@ - p * n) as nat;
                vstd::arithmetic::div_mod::lemma_fundamental_div_mod_converse(self.emitted@ as int, n as int, p as int, j as int);
            }
        }
        while i < self.data.len()
            invariant
                self.pos <= i <= self.data@.len(),
                r@ == self.data@.subrange(self.pos as int, i as int),
            decreases self.data@.len() - i,
        {
            r.push(self.data[i]);
            i = i + 1;
        }
        r
    }
}

/// A hider that writes a stream of bytes into carrier values.
pub trait HiderWriter {
    fn is_done(&self) -> bool;
    fn bytes_left(&mut self) -> usize;
}

} // verus!
