//! Writing a hidden message into the channels of an image.

use vstd::prelude::*;
use crate::bits::{bytes_not_started, low_mask, le_bytes_of, u32_to_le_bytes, chunks_per_byte, stream_chunk, stream_len, lemma_stream_chunk_small};
use crate::error::{Error, Result};
use crate::msg::{MsgType, spec_msg_type_byte};
use crate::writer::{ConstBytesWriter, IterByteWriter};
use crate::{HALF, pseudo_rand_index, spec_pseudo_rand_index};

verus! {

/// A channel value moved by `d`: up when it is in the lower half, down otherwise.
pub open spec fn delta_encode(c: u8, d: u8) -> u8 {
    if c < 128 { (c + d) as u8 } else { (c - d) as u8 }
}

/// The hidden header: the type byte, then the message length in four bytes, least significant first.
pub open spec fn msg_header(ty: MsgType, len: nat) -> Seq<u8> {
    seq![spec_msg_type_byte(ty)] + le_bytes_of(len)
}

/// Moves channel values by chunks of a byte.
pub struct DeltaBytesWriter {
    bw: ConstBytesWriter,
}

impl View for DeltaBytesWriter {
    /// (rest of the current byte, bits handed out of it, bits per channel)
    type V = (u8, u8, u8);

    closed spec fn view(&self) -> (u8, u8, u8) {
        self.bw@
    }
}

impl DeltaBytesWriter {
    pub fn new(first_byte: u8, bits: u8) -> (r: Self)
        requires
            bits <= 8,
        ensures
            r@ == (first_byte, 0u8, bits),
    {
        Self { bw: ConstBytesWriter::new(first_byte, bits) }
    }

    /// Moves `byte` by the next chunk of the current byte.
    pub fn update_byte(&mut self, byte: &mut u8)
        requires
            old(self)@.2 <= 7,
            old(self)@.1 + old(self)@.2 <= 255,
        ensures
            *final(byte) == delta_encode(*old(byte), old(self)@.0 & low_mask(old(self)@.2)),
            final(self)@ == ((old(self)@.0 >> old(self)@.2) as u8, (old(self)@.1 + old(self)@.2) as u8, old(self)@.2),
    {
        let delta = self.bw.next();
        proof {
            let r = old(self)@.0;
            let k = old(self)@.2;
            assert(r & low_mask(k) <= 127) by (bit_vector)
                requires k <= 7u8, low_mask(k) == ((1u8 << k) - 1u8) as u8;
        }
        if *byte < HALF {
            *byte = *byte + delta;
        } else {
            *byte = *byte - delta;
        }
    }

    pub fn need_next(&self) -> (r: bool)
        ensures
            r == (self@.1 >= 8),
    {
        self.bw.is_done()
    }

    pub fn set_new_byte(&mut self, byte: u8)
        ensures
            final(self)@ == (byte, 0u8, old(self)@.2),
    {
        self.bw.set_new_byte(byte);
    }
}

/// Writes the header and then the message into channels, a chunk of bits per channel,
/// each chunk as the distance between the initial and the modified channel value.
pub struct DeltaByteMsgWriter {
    iter: IterByteWriter,
    header_len: usize,
    msg_len: usize,
}

impl DeltaByteMsgWriter {
    /// Header and message, in the order they are written.
    pub closed spec fn data(&self) -> Seq<u8> {
        self.iter.data()
    }

    pub closed spec fn bits(&self) -> u8 {
        self.iter.bits()
    }

    /// Chunks written so far.
    pub closed spec fn written(&self) -> nat {
        self.iter.emitted()
    }

    pub closed spec fn wf(&self) -> bool {
        &&& self.iter.wf()
        &&& 1 <= self.iter.bits() <= 7
        &&& self.iter.emitted() <= stream_len(self.iter.data(), self.iter.bits())
        &&& self.header_len == 5
        &&& self.iter.data().len() == 5 + self.msg_len
    }

    /// What well-formedness gives to callers.
    pub proof fn lemma_wf(&self)
        requires
            self.wf(),
        ensures
            1 <= self.bits() <= 7,
            self.written() <= stream_len(self.data(), self.bits()),
            self.data().len() >= 5,
    {
    }

    /// Chunks still to be written.
    pub open spec fn remaining(&self) -> nat {
        (stream_len(self.data(), self.bits()) - self.written()) as nat
    }

    pub fn new(msg: Vec<u8>, bits_per_pixel_chan: u8, ty: MsgType) -> (r: Result<Self>)
        requires
            1 <= bits_per_pixel_chan <= 7,
        ensures
            r is Ok <==> msg@.len() <= u32::MAX,
            r is Err ==> r == Err::<Self, Error>(Error::TooBigMsg),
            r matches Ok(w) ==> {
                &&& w.wf()
                &&& w.data() == msg_header(ty, msg@.len()) + msg@
                &&& w.bits() == bits_per_pixel_chan
                &&& w.written() == 0
            },
    {
        let msg_len = msg.len();
        Error::test_too_big_msg(msg_len)?;
        let mut data: Vec<u8> = Vec::new();
        data.push(ty.to_u8());
        let len_bytes = u32_to_le_bytes(msg_len as u32);
        data.push(len_bytes[0]);
        data.push(len_bytes[1]);
        data.push(len_bytes[2]);
        data.push(len_bytes[3]);
        let ghost header = data@;
        let mut i: usize = 0;
        while i < msg.len()
            invariant
                data@ == header + msg@.subrange(0, i as int),
                i <= msg@.len(),
            decreases msg@.len() - i,
        {
            data.push(msg[i]);
            i = i + 1;
            proof {
                assert(header + msg@.subrange(0, i as int) =~= (header + msg@.subrange(0, i - 1)).push(msg@[i - 1]));
            }
        }
        proof {
            assert(msg@.subrange(0, msg@.len() as int) =~= msg@);
            assert(header =~= msg_header(ty, msg@.len()));
        }
        let iter = IterByteWriter::new(data, bits_per_pixel_chan);
        proof { iter.lemma_wf(); }
        Ok(Self { iter, header_len: 5, msg_len })
    }

    /// Message bytes not yet started.
    pub fn bytes_left(self) -> (r: usize)
        requires
            self.wf(),
        ensures
            ({
                let n = bytes_not_started(self.data().len(), self.bits(), self.written());
                r == (if n > self.data().len() - 5 { (self.data().len() - 5) as nat } else { n })
            }),
    {
        let msg_len = self.msg_len;
        let rest = self.iter.take_iter();
        if rest.len() > msg_len { msg_len } else { rest.len() }
    }

    pub fn is_done(&self) -> (r: bool)
        requires
            self.wf(),
        ensures
            r == (self.remaining() == 0),
    {
        self.iter.is_done()
    }

    pub fn need_write_len(&self) -> (r: bool)
        requires
            self.wf(),
        ensures
            r == (self.written() < 5 * chunks_per_byte(self.bits())),
    {
        let ghost n = chunks_per_byte(self.bits());
        let done = self.iter.is_done();
        let started = self.iter.bytes_started();
        proof {
            assert(5 * n <= self.data().len() * n) by (nonlinear_arith) requires self.data().len() >= 5;
            if !done {
                if started <= 5 {
                    assert(started * n <= 5 * n) by (nonlinear_arith) requires started <= 5;
                } else {
                    assert(5 * n <= (started - 1) * n) by (nonlinear_arith) requires started >= 6;
                }
            }
        }
        !done && started <= 5
    }

    pub fn need_write_msg(&self) -> (r: bool)
        requires
            self.wf(),
        ensures
            r == (5 * chunks_per_byte(self.bits()) <= self.written() && self.remaining() > 0),
    {
        !self.need_write_len() && !self.is_done()
    }

    /// Writes the next header chunk into `chan_byte`; `true` once the header is complete.
    pub fn write_len(&mut self, chan_byte: &mut u8) -> (r: bool)
        requires
            old(self).wf(),
            old(self).written() < 5 * chunks_per_byte(old(self).bits()),
        ensures
            final(self).wf(),
            final(self).data() == old(self).data(),
            final(self).bits() == old(self).bits(),
            final(self).written() == old(self).written() + 1,
            *final(chan_byte) == delta_encode(*old(chan_byte), stream_chunk(old(self).data(), old(self).bits(), old(self).written())),
            r == (final(self).written() == 5 * chunks_per_byte(old(self).bits())),
    {
        let ghost n = chunks_per_byte(self.bits());
        proof {
            assert(5 * n <= self.data().len() * n) by (nonlinear_arith) requires self.data().len() >= 5;
        }
        self.write_one(chan_byte);
        self.iter.is_done() || !self.need_write_len()
    }

    /// Writes the next message chunk into `chan_byte`; `true` once everything is written.
    pub fn write_msg(&mut self, chan_byte: &mut u8) -> (r: bool)
        requires
            old(self).wf(),
            old(self).remaining() > 0,
        ensures
            final(self).wf(),
            final(self).data() == old(self).data(),
            final(self).bits() == old(self).bits(),
            final(self).written() == old(self).written() + 1,
            *final(chan_byte) == delta_encode(*old(chan_byte), stream_chunk(old(self).data(), old(self).bits(), old(self).written())),
            r == (final(self).remaining() == 0),
    {
        self.write_one(chan_byte)
    }

    fn write_one(&mut self, chan_byte: &mut u8) -> (r: bool)
        requires
            old(self).wf(),
            old(self).remaining() > 0,
        ensures
            final(self).wf(),
            final(self).data() == old(self).data(),
            final(self).bits() == old(self).bits(),
            final(self).written() == old(self).written() + 1,
            *final(chan_byte) == delta_encode(*old(chan_byte), stream_chunk(old(self).data(), old(self).bits(), old(self).written())),
            r == (final(self).remaining() == 0),
    {
        let (part, done) = self.iter.write_bits();
        proof { self.iter.lemma_wf(); }
        proof {
            let k = old(self).bits();
            let x = stream_chunk(old(self).data(), k, old(self).written());
            lemma_stream_chunk_small(old(self).data(), k, old(self).written());
        }
        if *chan_byte < HALF {
            *chan_byte = *chan_byte + part;
        } else {
            *chan_byte = *chan_byte - part;
        }
        done
    }

    /// Writes chunks into `chans`, one per channel from the first, until everything is written
    /// or the channels run out; gives how many channels were written.
    pub fn write(&mut self, chans: &mut Vec<u8>) -> (r: usize)
        requires
            old(self).wf(),
        ensures
            final(self).wf(),
            final(self).data() == old(self).data(),
            final(self).bits() == old(self).bits(),
            r == (if old(chans)@.len() <= old(self).remaining() { old(chans)@.len() } else { old(self).remaining() }),
            final(self).written() == old(self).written() + r,
            final(chans)@.len() == old(chans)@.len(),
            forall|i: int| 0 <= i < r ==> #[trigger] final(chans)@[i] == delta_encode(old(chans)@[i],
                stream_chunk(old(self).data(), old(self).bits(), (old(self).written() + i) as nat)),
            forall|i: int| r <= i < old(chans)@.len() ==> #[trigger] final(chans)@[i] == old(chans)@[i],
    {
        let mut i: usize = 0;
        while i < chans.len() && !self.is_done()
            invariant
                self.wf(),
                self.data() == old(self).data(),
                self.bits() == old(self).bits(),
                i <= chans@.len(),
                chans@.len() == old(chans)@.len(),
                self.written() == old(self).written() + i,
                forall|j: int| 0 <= j < i ==> #[trigger] chans@[j] == delta_encode(old(chans)@[j],
                    stream_chunk(old(self).data(), old(self).bits(), (old(self).written() + j) as nat)),
                forall|j: int| i <= j < old(chans)@.len() ==> #[trigger] chans@[j] == old(chans)@[j],
            decreases chans@.len() - i,
        {
            let mut c = chans[i];
            self.write_one(&mut c);
            chans.set(i, c);
            i = i + 1;
        }
        i
    }
}

/// The sum of a sequence of channel values.
/// How many values are above the middle (`HALF`).
pub open spec fn count_above(s: Seq<u8>) -> nat
    decreases s.len(),
{
    if s.len() == 0 { 0 } else { count_above(s.drop_last()) + (if s.last() > 128 { 1nat } else { 0nat }) }
}

/// Whether the values above the middle are at least as many as the others: then those are the
/// ones that a chunk changes, else the others.
pub open spec fn upper_side(s: Seq<u8>) -> bool {
    2 * count_above(s) >= s.len()
}

pub open spec fn sum_of(s: Seq<u8>) -> int
    decreases s.len(),
{
    if s.len() == 0 { 0 } else { sum_of(s.drop_last()) + s.last() }
}

/// Changing one value changes the sum by the difference.
pub proof fn lemma_sum_of_update(s: Seq<u8>, i: int, v: u8)
    requires
        0 <= i < s.len(),
    ensures
        sum_of(s.update(i, v)) == sum_of(s) - s[i] + v,
    decreases s.len(),
{
    if i == s.len() - 1 {
        assert(s.update(i, v).drop_last() =~= s.drop_last());
    } else {
        assert(s.update(i, v).drop_last() =~= s.drop_last().update(i, v));
        lemma_sum_of_update(s.drop_last(), i, v);
    }
}

/// What [`AvgSumHideBlockWriter::write_bits`] reports.
pub struct AvgSumHideWriterFlags {
    /// The channels ran out before a whole chunk was seen: go on with the next image.
    pub continue_init: bool,
    /// Everything is written.
    pub is_done: bool,
}

impl AvgSumHideWriterFlags {
    pub fn default() -> (r: Self)
        ensures
            !r.continue_init,
            !r.is_done,
    {
        Self { continue_init: false, is_done: false }
    }
}

/// The indexes filed under one half.
pub open spec fn side(c: TopBottomChunks, is_top: bool) -> Seq<usize> {
    if is_top { c.chunk_top@ } else { c.chunk_bottom@ }
}

/// The channels of a chunk, split by the half they are in: indexes into the channel buffer.
pub struct TopBottomChunks {
    pub chunk_top: Vec<usize>,
    pub chunk_bottom: Vec<usize>,
}

impl TopBottomChunks {
    pub fn new() -> (r: Self)
        ensures
            r.chunk_top@.len() == 0,
            r.chunk_bottom@.len() == 0,
    {
        Self { chunk_top: Vec::new(), chunk_bottom: Vec::new() }
    }

    pub fn clear(&mut self)
        ensures
            final(self).chunk_top@.len() == 0,
            final(self).chunk_bottom@.len() == 0,
    {
        self.chunk_top.clear();
        self.chunk_bottom.clear();
    }

    /// Files the channel at `index` (whose value is `x`) under the upper or the lower half.
    pub fn push(&mut self, index: usize, x: u8)
        ensures
            x > HALF ==> final(self).chunk_top@ == old(self).chunk_top@.push(index) && final(self).chunk_bottom@ == old(self).chunk_bottom@,
            x <= HALF ==> final(self).chunk_bottom@ == old(self).chunk_bottom@.push(index) && final(self).chunk_top@ == old(self).chunk_top@,
    {
        if x > HALF {
            self.chunk_top.push(index)
        } else {
            self.chunk_bottom.push(index)
        }
    }

    pub fn len(&self, is_top: bool) -> (r: usize)
        ensures
            r == (if is_top { self.chunk_top@.len() } else { self.chunk_bottom@.len() }),
    {
        if is_top {
            self.chunk_top.len()
        } else {
            self.chunk_bottom.len()
        }
    }

    pub fn swap_remove(&mut self, index: usize, is_top: bool) -> (r: usize)
        requires
            index < (if is_top { old(self).chunk_top@.len() } else { old(self).chunk_bottom@.len() }),
        ensures
            is_top ==> r == old(self).chunk_top@[index as int]
                && final(self).chunk_top@ == old(self).chunk_top@.update(index as int, old(self).chunk_top@.last()).drop_last()
                && final(self).chunk_bottom@ == old(self).chunk_bottom@,
            !is_top ==> r == old(self).chunk_bottom@[index as int]
                && final(self).chunk_bottom@ == old(self).chunk_bottom@.update(index as int, old(self).chunk_bottom@.last()).drop_last()
                && final(self).chunk_top@ == old(self).chunk_top@,
    {
        if is_top {
            self.chunk_top.swap_remove(index)
        } else {
            self.chunk_bottom.swap_remove(index)
        }
    }

    /// Whether the upper half holds at least as many channels as the lower one.
    pub fn is_top(&self) -> (r: bool)
        ensures
            r == (self.chunk_top@.len() >= self.chunk_bottom@.len()),
    {
        self.chunk_top.len() >= self.chunk_bottom.len()
    }
}

/// Hides a stream of bytes in chunks of channels: each chunk of `chunk_size` channels is
/// nudged until the sum of its values, modulo `2^bits_per_chunk`, is the next chunk of bits.
pub struct AvgSumHideBlockWriter {
    iter_bw: IterByteWriter,
    sum: u16,
    rem: u8,
    bits_per_chunk: u8,
    chunk_size: u8,
    max_chan_delta: u8,
    pseudo_rand_index: u8,
}

impl AvgSumHideBlockWriter {
    pub closed spec fn data(&self) -> Seq<u8> {
        self.iter_bw.data()
    }

    pub closed spec fn bits(&self) -> u8 {
        self.bits_per_chunk
    }

    pub closed spec fn chunk_size(&self) -> u8 {
        self.chunk_size
    }

    /// The most that one channel is moved.
    pub closed spec fn max_delta(&self) -> u8 {
        self.max_chan_delta
    }

    /// Chunks of bits written so far.
    pub closed spec fn written(&self) -> nat {
        self.iter_bw.emitted()
    }

    pub open spec fn remaining(&self) -> nat {
        (stream_len(self.data(), self.bits()) - self.written()) as nat
    }

    pub closed spec fn wf(&self) -> bool {
        &&& self.iter_bw.wf()
        &&& self.iter_bw.bits() == self.bits_per_chunk
        &&& self.iter_bw.emitted() <= stream_len(self.iter_bw.data(), self.bits_per_chunk)
        &&& 1 <= self.bits_per_chunk <= 6
        &&& self.rem == low_mask(self.bits_per_chunk) + 1
        &&& 2 <= self.chunk_size <= 64
        &&& self.max_chan_delta == (self.rem - 1) / ((self.chunk_size / 2) as int) + 1
    }

    /// What well-formedness gives to callers.
    pub proof fn lemma_wf(&self)
        requires
            self.wf(),
        ensures
            1 <= self.bits() <= 6,
            2 <= self.chunk_size() <= 64,
            self.max_delta() == (low_mask(self.bits()) as int) / ((self.chunk_size() / 2) as int) + 1,
            self.written() <= stream_len(self.data(), self.bits()),
    {
    }

    pub fn new(data: Vec<u8>, bits_per_chunk: u8, chunk_size: u8) -> (r: Self)
        requires
            1 <= bits_per_chunk <= 6,
            2 <= chunk_size <= 64,
        ensures
            r.wf(),
            r.data() == data@,
            r.bits() == bits_per_chunk,
            r.chunk_size() == chunk_size,
            r.written() == 0,
    {
        assert((1u8 << bits_per_chunk) == low_mask(bits_per_chunk) + 1 && (1u8 << bits_per_chunk) <= 64 && (1u8 << bits_per_chunk) >= 2) by (bit_vector)
            requires 1u8 <= bits_per_chunk <= 6u8, low_mask(bits_per_chunk) == ((1u8 << bits_per_chunk) - 1u8) as u8;
        let rem: u8 = 1u8 << bits_per_chunk;
        let half = chunk_size >> 1;
        assert(half == chunk_size / 2) by (bit_vector) requires half == chunk_size >> 1u8;
        let iter_bw = IterByteWriter::new(data, bits_per_chunk);
        proof { iter_bw.lemma_wf(); }
        Self {
            iter_bw,
            sum: 0,
            rem,
            bits_per_chunk,
            chunk_size,
            max_chan_delta: (rem - 1) / half + 1,
            pseudo_rand_index: 0,
        }
    }

    pub fn is_done(&self) -> (r: bool)
        requires
            self.wf(),
        ensures
            r == (self.remaining() == 0),
    {
        self.iter_bw.is_done()
    }

    /// How many bytes were not started.
    pub fn bytes_left(self) -> (r: usize)
        requires
            self.wf(),
        ensures
            r == bytes_not_started(self.data().len(), self.bits(), self.written()),
    {
        self.iter_bw.take_iter().len()
    }

    /// Hides the next chunk of bits in the channels `chans[pos..pos + chunk_size]`,
    /// and gives the position after them.
    pub fn write_bits(&mut self, chunk: &mut TopBottomChunks, chans: &mut Vec<u8>, pos: usize) -> (r: (AvgSumHideWriterFlags, usize))
        requires
            old(self).wf(),
            old(self).remaining() > 0,
            pos <= old(chans)@.len(),
        ensures
            final(self).wf(),
            final(self).data() == old(self).data(),
            final(self).bits() == old(self).bits(),
            final(self).chunk_size() == old(self).chunk_size(),
            final(self).written() == old(self).written() + (if r.0.continue_init { 0int } else { 1int }),
            r.0.continue_init ==> *final(self) == *old(self),
            r.0.is_done == (final(self).remaining() == 0),
            r.0.continue_init == (pos + old(self).chunk_size() > old(chans)@.len()),
            final(chans)@.len() == old(chans)@.len(),
            final(chunk).chunk_top@.len() == 0,
            final(chunk).chunk_bottom@.len() == 0,
            r.0.continue_init ==> r.1 == old(chans)@.len() && final(chans)@ == old(chans)@,
            !r.0.continue_init ==> {
                let end = pos + old(self).chunk_size();
                let part = stream_chunk(old(self).data(), old(self).bits(), old(self).written());
                &&& r.1 == end
                &&& forall|j: int| 0 <= j < old(chans)@.len() && !(pos <= j < end) ==> #[trigger] final(chans)@[j] == old(chans)@[j]
                &&& sum_of(final(chans)@.subrange(pos as int, end as int)) % (low_mask(old(self).bits()) + 1) == part
                &&& forall|j: int| pos <= j < end ==> {
                    let (a, b) = (old(chans)@[j], #[trigger] final(chans)@[j]);
                    &&& a > 128 ==> b <= a && a - b <= old(self).max_delta()
                    &&& a <= 128 ==> b >= a && b - a <= old(self).max_delta()
                    &&& b != a ==> ((a > 128) == upper_side(old(chans)@.subrange(pos as int, end as int)))
                }
            },
    {
        let mut flags = AvgSumHideWriterFlags::default();
        chunk.clear();
        let cs = self.chunk_size as usize;
        if chans.len() - pos < cs {
            // the chunk does not fit: its part waits for the next image
            flags.continue_init = true;
            flags.is_done = self.iter_bw.is_done();
            return (flags, chans.len());
        }
        let (part_of_byte, is_done) = self.iter_bw.write_bits();
        proof {
            self.iter_bw.lemma_wf();
            crate::bits::lemma_stream_chunk_small(old(self).data(), self.bits_per_chunk, old(self).written());
        }
        flags.is_done = is_done;
        // fill the chunk
        let mut sum: u16 = 0;
        let mut i: usize = 0;
        let ghost orig = chans@;
        while i < cs
            invariant
                pos + cs <= chans@.len(),
                chans@.len() <= usize::MAX,
                chans@ == orig,
                i <= cs,
                cs <= 64,
                sum == sum_of(orig.subrange(pos as int, (pos + i) as int)),
                sum <= 255 * i,
                chunk.chunk_top@.len() + chunk.chunk_bottom@.len() == i,
                chunk.chunk_top@.len() == count_above(orig.subrange(pos as int, (pos + i) as int)),
                forall|t: int| 0 <= t < chunk.chunk_top@.len() ==> pos <= #[trigger] chunk.chunk_top@[t] < pos + i && orig[chunk.chunk_top@[t] as int] > 128,
                forall|t: int| 0 <= t < chunk.chunk_bottom@.len() ==> pos <= #[trigger] chunk.chunk_bottom@[t] < pos + i && orig[chunk.chunk_bottom@[t] as int] <= 128,
                forall|t1: int, t2: int| 0 <= t1 < t2 < chunk.chunk_top@.len() ==> chunk.chunk_top@[t1] < chunk.chunk_top@[t2],
                forall|t1: int, t2: int| 0 <= t1 < t2 < chunk.chunk_bottom@.len() ==> chunk.chunk_bottom@[t1] < chunk.chunk_bottom@[t2],
            decreases cs - i,
        {
            let x = chans[pos + i];
            proof {
                assert(orig.subrange(pos as int, (pos + i + 1) as int).drop_last() =~= orig.subrange(pos as int, (pos + i) as int));
            }
            sum = sum + x as u16;
            chunk.push(pos + i, x);
            i = i + 1;
        }
        self.sum = sum;
        let end = pos + cs;
        let ghost maxd = self.max_chan_delta as int;
        let ghost rem = self.rem as int;
        let ghost h = (self.chunk_size / 2) as int;
        proof {
            assert(orig.subrange(pos as int, (pos + i) as int) == orig.subrange(pos as int, end as int));
            assert(h >= 1);
            vstd::arithmetic::div_mod::lemma_fundamental_div_mod(rem - 1, h);
            assert(maxd * h > rem - 1) by (nonlinear_arith)
                requires maxd == (rem - 1) / h + 1, rem - 1 == h * ((rem - 1) / h) + (rem - 1) % h, (rem - 1) % h < h, h >= 1;
            assert(1 <= maxd <= rem) by (nonlinear_arith)
                requires maxd == (rem - 1) / h + 1, h >= 1, rem >= 1, (rem - 1) / h <= rem - 1;
            assert((rem - 1) / h <= rem - 1) by {
                vstd::arithmetic::div_mod::lemma_div_is_ordered_by_denominator(rem - 1, 1, h);
            }
            let bpc = self.bits_per_chunk;
            let lm = low_mask(bpc);
            assert(lm + 1 <= 64 && lm + 1 >= 2) by (bit_vector)
                requires 1u8 <= bpc <= 6u8, lm == ((1u8 << bpc) - 1u8) as u8;
        }
        let is_top = chunk.is_top();
        assert(is_top == upper_side(orig.subrange(pos as int, end as int)));
        let rem16 = self.rem as u16;
        let sum_rem = sum % rem16;
        let part = part_of_byte as u16;
        proof {
            assert(part_of_byte <= low_mask(self.bits_per_chunk));
        }
        let mut need_write: u16 = (rem16 + part - sum_rem) % rem16;
        if is_top && need_write != 0 {
            need_write = rem16 - need_write;
        }
        let ghost need0 = need_write as int;
        let ghost sum0 = sum as int;
        let ghost l0 = if is_top { chunk.chunk_top@.len() } else { chunk.chunk_bottom@.len() };
        proof {
            assert(l0 >= h) by (nonlinear_arith)
                requires chunk.chunk_top@.len() + chunk.chunk_bottom@.len() == cs, h == cs / 2,
                    l0 == (if is_top { chunk.chunk_top@.len() } else { chunk.chunk_bottom@.len() }),
                    is_top == (chunk.chunk_top@.len() >= chunk.chunk_bottom@.len());
            assert(need0 <= rem - 1);
            assert(l0 * maxd >= need0) by (nonlinear_arith)
                requires l0 >= h, maxd * h > rem - 1, need0 <= rem - 1, maxd >= 1, h >= 1;
        }
        let ghost mid_bw = self.iter_bw;
        while need_write != 0
            invariant
                self.wf(),
                self.iter_bw == mid_bw,
                self.bits_per_chunk == old(self).bits_per_chunk,
                self.chunk_size == old(self).chunk_size,
                self.max_chan_delta == old(self).max_chan_delta,
                self.rem == old(self).rem,
                chans@.len() == orig.len(),
                pos + cs <= orig.len(),
                end == pos + cs,
                1 <= maxd <= 64,
                maxd == self.max_chan_delta,
                need_write <= need0,
                forall|j: int| 0 <= j < orig.len() && !(pos <= j < end) ==> #[trigger] chans@[j] == orig[j],
                forall|j: int| pos <= j < end ==> {
                    let (a, b) = (orig[j], #[trigger] chans@[j]);
                    &&& a > 128 ==> b <= a && a - b <= maxd
                    &&& a <= 128 ==> b >= a && b - a <= maxd
                    &&& b != a ==> ((a > 128) == is_top)
                },
                is_top == upper_side(orig.subrange(pos as int, end as int)),
                side(*chunk, is_top).len() * maxd >= need_write,
                forall|t: int| 0 <= t < side(*chunk, is_top).len() ==> pos <= #[trigger] side(*chunk, is_top)[t] < end
                    && chans@[side(*chunk, is_top)[t] as int] == orig[side(*chunk, is_top)[t] as int]
                    && (is_top ==> orig[side(*chunk, is_top)[t] as int] > 128) && (!is_top ==> orig[side(*chunk, is_top)[t] as int] <= 128),
                forall|t1: int, t2: int| 0 <= t1 < side(*chunk, is_top).len() && 0 <= t2 < side(*chunk, is_top).len() && t1 != t2
                    ==> side(*chunk, is_top)[t1] != side(*chunk, is_top)[t2],
                sum_of(chans@.subrange(pos as int, end as int)) == (if is_top { sum0 - (need0 - need_write) } else { sum0 + (need0 - need_write) }),
            decreases need_write,
        {
            let can: u16 = if (self.max_chan_delta as u16) < need_write { self.max_chan_delta as u16 } else { need_write };
            need_write = need_write - can;
            let len = chunk.len(is_top);
            let ghost l = side(*chunk, is_top);
            proof {
                if len == 0 { assert(l.len() * maxd == 0) by (nonlinear_arith) requires l.len() == 0; }
                assert((len - 1) * maxd >= need_write) by (nonlinear_arith)
                    requires len * maxd >= need_write + can, can == maxd || need_write == 0, len >= 1;
            }
            let index = pseudo_rand_index(self.pseudo_rand_index) % len;
            proof {
                vstd::arithmetic::div_mod::lemma_mod_pos_bound(spec_pseudo_rand_index(self.pseudo_rand_index) as int, len as int);
            }
            assert(index < side(*chunk, is_top).len());
            assert(pos <= side(*chunk, is_top)[index as int] < end);
            let v = chunk.swap_remove(index, is_top);
            let ghost before = chans@;
            let old_val = chans[v];
            let new_val: u8 = if is_top { old_val - can as u8 } else { old_val + can as u8 };
            chans.set(v, new_val);
            proof {
                let l2 = side(*chunk, is_top);
                assert forall|t: int| 0 <= t < l2.len() implies l2[t] != v && (l2[t] == l[t] || l2[t] == l[l.len() - 1]) by {
                    if t == index as int {
                        assert(l2[t] == l[l.len() - 1]);
                    } else {
                        assert(l2[t] == l[t]);
                    }
                }
                assert(chans@.subrange(pos as int, end as int) =~= before.subrange(pos as int, end as int).update(v - pos, new_val));
                lemma_sum_of_update(before.subrange(pos as int, end as int), v - pos, new_val);
            }
            self.pseudo_rand_index = if self.pseudo_rand_index == 255 { 0 } else { self.pseudo_rand_index + 1 };
        }
        chunk.clear();
        proof {
            let q = sum0 / rem;
            vstd::arithmetic::div_mod::lemma_fundamental_div_mod(sum0, rem);
            let p = part_of_byte as int;
            let sr = sum0 % rem;
            assert(sum0 == q * rem + sr) by (nonlinear_arith) requires sum0 == rem * q + sr;
            assert(sum_rem == sr);
            let new_sum = sum_of(chans@.subrange(pos as int, end as int));
            let w = (rem + p - sr) % rem;
            vstd::arithmetic::div_mod::lemma_fundamental_div_mod(rem + p - sr, rem);
            if p >= sr {
                vstd::arithmetic::div_mod::lemma_fundamental_div_mod_converse(rem + p - sr, rem, 1, p - sr);
                assert(w == p - sr);
            } else {
                vstd::arithmetic::div_mod::lemma_fundamental_div_mod_converse(rem + p - sr, rem, 0, rem + p - sr);
                assert(w == rem + p - sr);
            }
            if w == 0 {
                assert(p == sr);
                assert(new_sum == sum0);
                vstd::arithmetic::div_mod::lemma_fundamental_div_mod_converse(new_sum, rem, q, p);
            } else if is_top {
                assert(new_sum == sum0 - (rem - w));
                if p >= sr {
                    assert(new_sum == (q - 1) * rem + p) by (nonlinear_arith)
                        requires new_sum == sum0 - (rem - w), sum0 == q * rem + sr, w == p - sr;
                    vstd::arithmetic::div_mod::lemma_fundamental_div_mod_converse(new_sum, rem, q - 1, p);
                } else {
                    assert(new_sum == q * rem + p) by (nonlinear_arith)
                        requires new_sum == sum0 - (rem - w), sum0 == q * rem + sr, w == rem + p - sr;
                    vstd::arithmetic::div_mod::lemma_fundamental_div_mod_converse(new_sum, rem, q, p);
                }
            } else {
                assert(new_sum == sum0 + w);
                if p >= sr {
                    assert(new_sum == q * rem + p);
                    vstd::arithmetic::div_mod::lemma_fundamental_div_mod_converse(new_sum, rem, q, p);
                } else {
                    assert(new_sum == (q + 1) * rem + p) by (nonlinear_arith)
                        requires new_sum == sum0 + w, sum0 == q * rem + sr, w == rem + p - sr;
                    vstd::arithmetic::div_mod::lemma_fundamental_div_mod_converse(new_sum, rem, q + 1, p);
                }
            }
        }
        (flags, pos + cs)
    }
}

} // verus!
