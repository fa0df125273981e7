//! Reading a hidden message back from the differences between two images.

use vstd::prelude::*;
use crate::bits::{absorb, le_u32, u32_from_le_bytes};
use crate::error::{Error, Result};
use crate::msg::{MsgType, spec_msg_type_of};
use crate::reader::feed_step;

verus! {

/// How far apart two channel values are.
pub open spec fn delta_of(a: u8, b: u8) -> u8 {
    if a >= b { (a - b) as u8 } else { (b - a) as u8 }
}

/// The differences of two channel sequences, pair by pair (as far as the shorter one goes).
pub open spec fn deltas(a: Seq<u8>, b: Seq<u8>) -> Seq<u8> {
    Seq::new(if a.len() <= b.len() { a.len() } else { b.len() }, |i: int| delta_of(a[i], b[i]))
}

/// The header of hidden bytes names no known kind of message.
pub open spec fn msg_bad(bytes: Seq<u8>) -> bool {
    bytes.len() >= 1 && spec_msg_type_of(bytes[0]) is None
}

/// The message length that the header of hidden bytes gives.
pub open spec fn msg_len_of(bytes: Seq<u8>) -> nat {
    le_u32(bytes.subrange(1, 5))
}

/// All of the message (type byte, four length bytes, then the message) has been read.
pub open spec fn msg_finished(bytes: Seq<u8>) -> bool {
    bytes.len() >= 5 && bytes.len() >= 5 + msg_len_of(bytes)
}

/// Reading goes on until the message is complete or its type byte is bad.
pub open spec fn msg_stopped(bytes: Seq<u8>) -> bool {
    msg_finished(bytes) || msg_bad(bytes)
}

/// Feeds chunks to an assembler, stopping once the message is complete or known bad.
pub open spec fn scan_msg(st: (u8, u8, Seq<u8>), parts: Seq<u8>, k: u8) -> (u8, u8, Seq<u8>)
    decreases parts.len(),
{
    if parts.len() == 0 || msg_stopped(st.2) {
        st
    } else {
        scan_msg(feed_step(st, parts[0], k), parts.drop_first(), k)
    }
}

/// What the hidden bytes say: the message and its kind, or why there is none.
pub open spec fn decode_msg(bytes: Seq<u8>) -> Result<(Seq<u8>, MsgType)> {
    if bytes.len() == 0 {
        Err(Error::UnreadedHeader)
    } else if msg_bad(bytes) {
        Err(Error::InvalidMsgTypeByte(bytes[0]))
    } else if bytes.len() < 5 {
        Err(Error::UnreadedHeader)
    } else {
        Ok((bytes.subrange(5, bytes.len() as int), spec_msg_type_of(bytes[0]).unwrap()))
    }
}

pub proof fn lemma_scan_msg_push(st: (u8, u8, Seq<u8>), parts: Seq<u8>, x: u8, k: u8)
    ensures
        scan_msg(st, parts.push(x), k) == (if msg_stopped(scan_msg(st, parts, k).2) { scan_msg(st, parts, k) }
            else { feed_step(scan_msg(st, parts, k), x, k) }),
    decreases parts.len(),
{
    if parts.len() == 0 {
        assert(parts.push(x).drop_first() =~= Seq::<u8>::empty());
        if !msg_stopped(st.2) {
            let st2 = feed_step(st, x, k);
            assert(scan_msg(st2, Seq::<u8>::empty(), k) == st2);
        }
    } else if msg_stopped(st.2) {
    } else {
        assert(parts.push(x).drop_first() =~= parts.drop_first().push(x));
        lemma_scan_msg_push(feed_step(st, parts[0], k), parts.drop_first(), x, k);
    }
}

pub proof fn lemma_scan_msg_stopped(st: (u8, u8, Seq<u8>), parts: Seq<u8>, k: u8)
    requires
        msg_stopped(st.2),
    ensures
        scan_msg(st, parts, k) == st,
{
}

pub proof fn lemma_scan_msg_concat(st: (u8, u8, Seq<u8>), p1: Seq<u8>, p2: Seq<u8>, k: u8)
    ensures
        scan_msg(st, p1 + p2, k) == scan_msg(scan_msg(st, p1, k), p2, k),
    decreases p1.len(),
{
    if p1.len() == 0 {
        assert(p1 + p2 =~= p2);
    } else if msg_stopped(st.2) {
        lemma_scan_msg_stopped(st, p2, k);
    } else {
        assert((p1 + p2).drop_first() =~= p1.drop_first() + p2);
        lemma_scan_msg_concat(feed_step(st, p1[0], k), p1.drop_first(), p2, k);
    }
}

/// Gathers the differences of channel pairs into bytes.
pub struct DeltaByteReader {
    cur_bit: u8,
    cur_byte: u8,
    bits_per_pixel_chan: u8,
}

impl View for DeltaByteReader {
    /// (byte so far, bits filled, bits per channel)
    type V = (u8, u8, u8);

    closed spec fn view(&self) -> (u8, u8, u8) {
        (self.cur_byte, self.cur_bit, self.bits_per_pixel_chan)
    }
}

impl DeltaByteReader {
    pub fn new(bits_per_pixel_chan: u8) -> (r: Self)
        ensures
            r@ == (0u8, 0u8, bits_per_pixel_chan),
    {
        Self { cur_bit: 0, cur_byte: 0, bits_per_pixel_chan }
    }

    /// Puts the difference of two channel values above the bits filled so far.
    pub fn update_byte(&mut self, pixel_a: u8, pixel_b: u8)
        requires
            old(self)@.1 < 8,
            old(self)@.1 + old(self)@.2 <= 255,
        ensures
            final(self)@ == (absorb(old(self)@.0, delta_of(pixel_a, pixel_b), old(self)@.1), (old(self)@.1 + old(self)@.2) as u8, old(self)@.2),
    {
        let delta = if pixel_a >= pixel_b { pixel_a - pixel_b } else { pixel_b - pixel_a };
        let byte = self.cur_byte;
        let bit = self.cur_bit;
        assert((delta << bit) | byte == byte | ((delta << (bit % 8)) as u8)) by (bit_vector)
            requires bit < 8u8;
        self.cur_byte = (delta << self.cur_bit) | self.cur_byte;
        self.cur_bit = self.cur_bit + self.bits_per_pixel_chan;
    }

    pub fn is_next_done(&self) -> (r: bool)
        ensures
            r == (self@.1 >= 8),
    {
        self.cur_bit >= 8
    }

    pub fn take_next(&mut self) -> (r: u8)
        ensures
            r == old(self)@.0,
            final(self)@ == (0u8, 0u8, old(self)@.2),
    {
        let ret = self.cur_byte;
        self.cur_bit = 0;
        self.cur_byte = 0;
        ret
    }

    pub fn take_if_next_done(&mut self) -> (r: Option<u8>)
        ensures
            old(self)@.1 >= 8 ==> r == Some(old(self)@.0) && final(self)@ == (0u8, 0u8, old(self)@.2),
            old(self)@.1 < 8 ==> r is None && final(self)@ == old(self)@,
    {
        if self.is_next_done() {
            Some(self.take_next())
        } else {
            None
        }
    }

    /// One pair of channels in: the byte, if it is now complete.
    fn step(&mut self, pixel_a: u8, pixel_b: u8) -> (r: Option<u8>)
        requires
            old(self)@.1 < 8,
            old(self)@.1 == 0 || old(self)@.2 < 8,
        ensures
            ({
                let st = feed_step((old(self)@.0, old(self)@.1, Seq::<u8>::empty()), delta_of(pixel_a, pixel_b), old(self)@.2);
                &&& final(self)@ == (st.0, st.1, old(self)@.2)
                &&& r == (if st.2.len() == 1 { Some(st.2[0]) } else { None::<u8> })
            }),
            final(self)@.1 < 8,
            final(self)@.1 == 0 || final(self)@.2 < 8,
    {
        self.update_byte(pixel_a, pixel_b);
        self.take_if_next_done()
    }
}

/// Reads the type byte, the four length bytes and then the message from differences of channel pairs.
pub struct DeltaByteMsgReader {
    reader: DeltaByteReader,
    msg_len_bytes: [u8; 4],
    index_write: usize,
    msg_size: usize,
    msg: Option<Vec<u8>>,
    ty: Option<MsgType>,
    bytes: Ghost<Seq<u8>>,
}

impl DeltaByteMsgReader {
    /// (byte so far, bits filled, hidden bytes read so far)
    pub closed spec fn state(&self) -> (u8, u8, Seq<u8>) {
        (self.reader@.0, self.reader@.1, self.bytes@)
    }

    pub closed spec fn bits(&self) -> u8 {
        self.reader@.2
    }

    pub closed spec fn wf(&self) -> bool {
        let b = self.bytes@;
        &&& self.reader@.1 < 8
        &&& self.reader@.1 == 0 || self.reader@.2 < 8
        &&& !msg_bad(b)
        &&& b.len() >= 5 ==> b.len() <= 5 + msg_len_of(b)
        &&& self.ty == (if b.len() >= 1 { spec_msg_type_of(b[0]) } else { None })
        &&& b.len() < 5 ==> {
            &&& self.msg is None
            &&& self.index_write == (if b.len() == 0 { 0 } else { b.len() - 1 })
            &&& forall|i: int| 0 <= i < self.index_write ==> self.msg_len_bytes@[i] == b[i + 1]
        }
        &&& b.len() >= 5 ==> {
            &&& self.msg matches Some(v) && v@ == b.subrange(5, b.len() as int)
            &&& self.msg_size == msg_len_of(b)
            &&& self.index_write == b.len() - 5
        }
    }

    /// What well-formedness gives to callers.
    pub proof fn lemma_wf(&self)
        requires
            self.wf(),
        ensures
            !msg_bad(self.state().2),
    {
    }

    pub fn new(bits_per_pixel_chan: u8) -> (r: Self)
        ensures
            r.wf(),
            r.state() == (0u8, 0u8, Seq::<u8>::empty()),
            r.bits() == bits_per_pixel_chan,
    {
        Self {
            reader: DeltaByteReader::new(bits_per_pixel_chan),
            msg_len_bytes: [0u8; 4],
            index_write: 0,
            msg_size: 0,
            msg: None,
            ty: None,
            bytes: Ghost(Seq::empty()),
        }
    }

    pub fn ty(&self) -> (r: Option<MsgType>)
        requires
            self.wf(),
        ensures
            r == (if self.state().2.len() >= 1 { spec_msg_type_of(self.state().2[0]) } else { None }),
    {
        self.ty
    }

    pub fn need_read_ty(&self) -> (r: bool)
        requires
            self.wf(),
        ensures
            r == (self.state().2.len() == 0),
    {
        self.ty.is_none()
    }

    pub fn need_read_len(&self) -> (r: bool)
        requires
            self.wf(),
        ensures
            r == (self.state().2.len() < 5),
    {
        self.msg.is_none()
    }

    pub fn need_read_msg(&self) -> (r: bool)
        requires
            self.wf(),
        ensures
            r == (self.state().2.len() >= 5 && !msg_finished(self.state().2)),
    {
        self.msg.is_some() && self.index_write < self.msg_size
    }

    pub fn is_finished(&self) -> (r: bool)
        requires
            self.wf(),
        ensures
            r == msg_finished(self.state().2),
    {
        self.msg.is_some() && self.index_write >= self.msg_size
    }

    pub fn take_msg(self) -> (r: Option<Vec<u8>>)
        requires
            self.wf(),
        ensures
            r is Some <==> self.state().2.len() >= 5,
            r matches Some(v) ==> v@ == self.state().2.subrange(5, self.state().2.len() as int),
    {
        self.msg
    }

    /// One pair of channels while the type byte is due; `Ok(true)` once it is read.
    pub fn read_ty(&mut self, pixel_a: u8, pixel_b: u8) -> (r: Result<bool>)
        requires
            old(self).wf(),
            old(self).state().2.len() == 0,
        ensures
            ({
                let st = feed_step(old(self).state(), delta_of(pixel_a, pixel_b), old(self).bits());
                if msg_bad(st.2) {
                    r == Err::<bool, Error>(Error::InvalidMsgTypeByte(st.2[0]))
                } else {
                    &&& r == Ok::<bool, Error>(st.2.len() == 1)
                    &&& final(self).wf()
                    &&& final(self).state() == st
                    &&& final(self).bits() == old(self).bits()
                }
            }),
    {
        if let Some(byte) = self.reader.step(pixel_a, pixel_b) {
            match MsgType::try_from_u8(byte) {
                Some(ty) => {
                    self.ty = Some(ty);
                }
                _ => return Err(Error::InvalidMsgTypeByte(byte)),
            }
            proof {
                self.bytes@ = self.bytes@.push(byte);
            }
            return Ok(true);
        }
        Ok(false)
    }

    /// One pair of channels while length bytes are due; `true` once all four are read.
    pub fn read_len(&mut self, pixel_a: u8, pixel_b: u8) -> (r: bool)
        requires
            old(self).wf(),
            1 <= old(self).state().2.len() < 5,
        ensures
            final(self).wf(),
            final(self).state() == feed_step(old(self).state(), delta_of(pixel_a, pixel_b), old(self).bits()),
            final(self).bits() == old(self).bits(),
            r == (final(self).state().2.len() == 5),
    {
        if let Some(byte) = self.reader.step(pixel_a, pixel_b) {
            let i = self.index_write;
            self.msg_len_bytes.set(i, byte);
            self.index_write = self.index_write + 1;
            proof {
                self.bytes@ = self.bytes@.push(byte);
            }
            if self.index_write == 4 {
                let len = u32_from_le_bytes(self.msg_len_bytes);
                proof {
                    assert(self.msg_len_bytes@ =~= self.bytes@.subrange(1, 5));
                }
                self.msg_size = len as usize;
                self.msg = Some(Vec::new());
                self.index_write = 0;
                proof {
                    assert(self.bytes@.subrange(5, 5) =~= Seq::<u8>::empty());
                }
                return true;
            }
        }
        false
    }

    /// One pair of channels while message bytes are due; `true` once the message is complete.
    pub fn read_msg(&mut self, pixel_a: u8, pixel_b: u8) -> (r: bool)
        requires
            old(self).wf(),
            old(self).state().2.len() >= 5,
            !msg_finished(old(self).state().2),
        ensures
            final(self).wf(),
            final(self).state() == feed_step(old(self).state(), delta_of(pixel_a, pixel_b), old(self).bits()),
            final(self).bits() == old(self).bits(),
            r == msg_finished(final(self).state().2),
    {
        if let Some(byte) = self.reader.step(pixel_a, pixel_b) {
            let mut msg = self.msg.take().unwrap();
            msg.push(byte);
            self.msg = Some(msg);
            self.index_write = self.index_write + 1;
            proof {
                let b0 = self.bytes@;
                self.bytes@ = self.bytes@.push(byte);
                assert(self.bytes@.subrange(1, 5) =~= b0.subrange(1, 5));
                assert(self.bytes@.subrange(5, self.bytes@.len() as int) =~= b0.subrange(5, b0.len() as int).push(byte));
            }
            if self.index_write >= self.msg_size {
                return true;
            }
        }
        false
    }

    /// Reads from the channel pairs `(a[i], b[i])` until the message is complete or the pairs run out.
    pub fn read(&mut self, a: &[u8], b: &[u8]) -> (r: Result<()>)
        requires
            old(self).wf(),
        ensures
            ({
                let st = scan_msg(old(self).state(), deltas(a@, b@), old(self).bits());
                if msg_bad(st.2) {
                    r == Err::<(), Error>(Error::InvalidMsgTypeByte(st.2[0]))
                } else {
                    &&& r is Ok
                    &&& final(self).wf()
                    &&& final(self).state() == st
                    &&& final(self).bits() == old(self).bits()
                }
            }),
    {
        let n = if a.len() <= b.len() { a.len() } else { b.len() };
        let ghost k = old(self).bits();
        let ghost st0 = old(self).state();
        let ghost d = deltas(a@, b@);
        let mut i: usize = 0;
        proof {
            assert(d.take(0) =~= Seq::<u8>::empty());
        }
        while i < n
            invariant
                n == d.len(),
                n <= a@.len(),
                n <= b@.len(),
                d == deltas(a@, b@),
                i <= n,
                self.wf(),
                self.bits() == k,
                k == old(self).bits(),
                st0 == old(self).state(),
                self.state() == scan_msg(st0, d.take(i as int), k),
            ensures
                i <= n,
                self.wf(),
                self.bits() == k,
                self.state() == scan_msg(st0, d.take(i as int), k),
                i < n ==> msg_finished(self.state().2),
            decreases n - i,
        {
            let ghost before = self.state();
            proof {
                lemma_scan_msg_push(st0, d.take(i as int), d[i as int], k);
                assert(d.take(i as int).push(d[i as int]) =~= d.take(i + 1));
            }
            if self.is_finished() {
                break;
            }
            let pa = a[i];
            let pb = b[i];
            assert(d[i as int] == delta_of(pa, pb));
            if self.need_read_ty() {
                match self.read_ty(pa, pb) {
                    Err(e) => {
                        proof {
                            lemma_scan_msg_concat(st0, d.take(i + 1), d.skip(i + 1), k);
                            assert(d.take(i + 1) + d.skip(i + 1) =~= d);
                            lemma_scan_msg_stopped(scan_msg(st0, d.take(i + 1), k), d.skip(i + 1), k);
                        }
                        return Err(e);
                    }
                    Ok(_) => {}
                }
            } else if self.need_read_len() {
                self.read_len(pa, pb);
            } else {
                self.read_msg(pa, pb);
            }
            i = i + 1;
        }
        proof {
            lemma_scan_msg_concat(st0, d.take(i as int), d.skip(i as int), k);
            assert(d.take(i as int) + d.skip(i as int) =~= d);
            if i < n {
                lemma_scan_msg_stopped(scan_msg(st0, d.take(i as int), k), d.skip(i as int), k);
            } else {
                assert(d.skip(i as int) =~= Seq::<u8>::empty());
            }
        }
        Ok(())
    }
}

} // verus!
