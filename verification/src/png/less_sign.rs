//! The least-significant-bits method: each carrier's lowest bits are replaced by a chunk of
//! the hidden stream (a carrier is a channel, or in gray mode a whole pixel made gray).

use vstd::prelude::*;
use crate::bits::{bytes_not_started, low_mask, stream_chunk, stream_len, lemma_stream_chunk_small, le_bytes_of, u32_to_le_bytes, chunks_per_byte};
use crate::writer::IterByteWriter;
use crate::{spec_pseudo_rand_index, pseudo_rand_index};
use crate::error::{Error, Result};
use crate::msg::{MsgType, spec_msg_type_byte, spec_msg_type_of};
use crate::reader::{ConstBufReader, read_fill, masked, lemma_read_fill_chans};
use crate::bits::{le_u32, u32_from_le_bytes};
use crate::png::img::{Img, ImgPaths};
use crate::text::s3::{thread_rng, next_u32_of};

verus! {

/// A carrier with its lowest `k` bits replaced by `part`.
pub open spec fn hide_low(c: u8, part: u8, k: u8) -> u8 {
    (c & !low_mask(k)) | part
}

/// The part written by imitation into the `i`-th carrier after the message: a value of
/// `0..2^k` from a fixed scramble.
pub open spec fn imitation(i: int, k: u8) -> u8 {
    ((spec_pseudo_rand_index((i % 256) as u8) as u8) % ((low_mask(k) + 1) as u8)) as u8
}

/// The gray level of a pixel: `(12 r + 23 g + 5 b) / 40`.
pub open spec fn gray_of(r: u8, g: u8, b: u8) -> u8 {
    ((12 * r + 23 * g + 5 * b) / 40) as u8
}

/// The gray level of a pixel is its luma with the weights 12, 23 and 5 (out of 40) for red,
/// green and blue, rounded down: `40 * level <= 12 r + 23 g + 5 b < 40 * level + 40`. A gray
/// pixel keeps its level, and each channel counts for its weight (pure green is 146).
pub proof fn law_gray_level(r: u8, g: u8, b: u8)
    ensures
        40 * (gray_of(r, g, b) as int) <= 12 * (r as int) + 23 * (g as int) + 5 * (b as int),
        12 * (r as int) + 23 * (g as int) + 5 * (b as int) < 40 * (gray_of(r, g, b) as int) + 40,
        r == g && g == b ==> gray_of(r, g, b) == r,
        gray_of(0, 255, 0) == 146 && gray_of(255, 0, 0) == 76 && gray_of(0, 0, 255) == 31,
{
    let v = 12 * (r as int) + 23 * (g as int) + 5 * (b as int);
    assert(0 <= v <= 40 * 255);
    assert(v / 40 <= 255);
}

/// Writes a stream of bytes into the lowest bits of carriers.
pub struct LessSignHiderWriter {
    iter_bw: IterByteWriter,
    mask: u8,
}

impl LessSignHiderWriter {
    pub closed spec fn data(&self) -> Seq<u8> {
        self.iter_bw.data()
    }

    pub closed spec fn bits(&self) -> u8 {
        self.iter_bw.bits()
    }

    /// Chunks written so far.
    pub closed spec fn written(&self) -> nat {
        self.iter_bw.emitted()
    }

    pub open spec fn remaining(&self) -> nat {
        (stream_len(self.data(), self.bits()) - self.written()) as nat
    }

    pub closed spec fn wf(&self) -> bool {
        &&& self.iter_bw.wf()
        &&& self.mask == !low_mask(self.iter_bw.bits())
    }

    pub proof fn lemma_wf(&self)
        requires
            self.wf(),
        ensures
            1 <= self.bits() <= 7,
            self.written() <= stream_len(self.data(), self.bits()),
    {
        self.iter_bw.lemma_wf();
    }

    pub fn new(data: Vec<u8>, bits: u8) -> (r: Self)
        requires
            1 <= bits <= 7,
        ensures
            r.wf(),
            r.data() == data@,
            r.bits() == bits,
            r.written() == 0,
    {
        proof { crate::bits::lemma_byte_facts(0, bits, 0, 0); }
        let m = (1u8 << bits) - 1;
        Self { iter_bw: IterByteWriter::new(data, bits), mask: !m }
    }

    pub fn is_done(&self) -> (r: bool)
        requires
            self.wf(),
        ensures
            r == (self.remaining() == 0),
    {
        proof { self.iter_bw.lemma_wf(); }
        self.iter_bw.is_done()
    }

    /// How many bytes were not started.
    pub fn bytes_left(self) -> (r: usize)
        requires
            self.wf(),
        ensures
            r == bytes_not_started(self.data().len(), self.bits(), self.written()),
    {
        self.iter_bw.take_iter().len()
    }

    /// Writes chunks into the carriers `chans[pos..]` until everything is written or they run
    /// out; tells whether everything is written, and where it stopped.
    pub fn write_while_can(&mut self, chans: &mut Vec<u8>, pos: usize) -> (r: (bool, usize))
        requires
            old(self).wf(),
            pos <= old(chans)@.len(),
        ensures
            final(self).wf(),
            final(self).data() == old(self).data(),
            final(self).bits() == old(self).bits(),
            r.1 - pos == (if old(chans)@.len() - pos <= old(self).remaining() { old(chans)@.len() - pos } else { old(self).remaining() as int }),
            final(self).written() == old(self).written() + (r.1 - pos),
            r.0 == (final(self).remaining() == 0),
            final(chans)@.len() == old(chans)@.len(),
            forall|j: int| pos <= j < r.1 ==> #[trigger] final(chans)@[j] == hide_low(old(chans)@[j],
                stream_chunk(old(self).data(), old(self).bits(), (old(self).written() + (j - pos)) as nat), old(self).bits()),
            forall|j: int| 0 <= j < old(chans)@.len() && !(pos <= j < r.1) ==> #[trigger] final(chans)@[j] == old(chans)@[j],
    {
        let mut i = pos;
        proof { self.iter_bw.lemma_wf(); }
        while !self.iter_bw.is_done()
            invariant
                self.wf(),
                self.data() == old(self).data(),
                self.bits() == old(self).bits(),
                pos <= i <= chans@.len(),
                chans@.len() == old(chans)@.len(),
                self.written() == old(self).written() + (i - pos),
                self.written() <= stream_len(self.data(), self.bits()),
                forall|j: int| pos <= j < i ==> #[trigger] chans@[j] == hide_low(old(chans)@[j],
                    stream_chunk(old(self).data(), old(self).bits(), (old(self).written() + (j - pos)) as nat), old(self).bits()),
                forall|j: int| 0 <= j < old(chans)@.len() && !(pos <= j < i) ==> #[trigger] chans@[j] == old(chans)@[j],
            decreases chans@.len() - i,
        {
            if i >= chans.len() {
                return (false, i);
            }
            let (part, _) = self.iter_bw.write_bits();
            proof { self.iter_bw.lemma_wf(); }
            let b = chans[i];
            chans.set(i, (b & self.mask) | part);
            i = i + 1;
        }
        (true, i)
    }

    /// Fills the carriers `chans[pos..]` with parts that look like hidden ones.
    pub fn imitate(&self, chans: &mut Vec<u8>, pos: usize)
        requires
            self.wf(),
            pos <= old(chans)@.len(),
        ensures
            final(chans)@.len() == old(chans)@.len(),
            forall|j: int| pos <= j < old(chans)@.len() ==> #[trigger] final(chans)@[j] == hide_low(old(chans)@[j], imitation(j - pos, self.bits()), self.bits()),
            forall|j: int| 0 <= j < pos ==> #[trigger] final(chans)@[j] == old(chans)@[j],
    {
        proof { self.iter_bw.lemma_wf(); }
        let k = self.iter_bw.chunk_bits();
        let m = self.mask;
        proof { crate::bits::lemma_byte_facts(0, 0, k, m); }
        let modulus: u8 = 1 + !m;
        let mut index: usize = 0;
        let mut i = pos;
        while i < chans.len()
            invariant
                self.wf(),
                k == self.bits(),
                1 <= k <= 7,
                modulus == low_mask(k) + 1,
                pos <= i <= chans@.len(),
                index == i - pos,
                chans@.len() == old(chans)@.len(),
                forall|j: int| pos <= j < i ==> #[trigger] chans@[j] == hide_low(old(chans)@[j], imitation(j - pos, k), k),
                forall|j: int| 0 <= j < old(chans)@.len() && !(pos <= j < i) ==> #[trigger] chans@[j] == old(chans)@[j],
            decreases chans@.len() - i,
        {
            let r = pseudo_rand_index((index % 256) as u8);
            let part = (r as u8) % modulus;
            let b = chans[i];
            chans.set(i, (b & self.mask) | part);
            i = i + 1;
            index = index + 1;
        }
    }

    /// Writes chunks into the pixels of `chans` from pixel `pos` (three channels a pixel, made
    /// gray) until everything is written or the pixels run out.
    pub fn write_while_can_gray(&mut self, chans: &mut Vec<u8>, pos: usize) -> (r: (bool, usize))
        requires
            old(self).wf(),
            pos <= old(chans)@.len() / 3,
        ensures
            final(self).wf(),
            final(self).data() == old(self).data(),
            final(self).bits() == old(self).bits(),
            r.1 - pos == (if old(chans)@.len() / 3 - pos <= old(self).remaining() { old(chans)@.len() / 3 - pos } else { old(self).remaining() as int }),
            final(self).written() == old(self).written() + (r.1 - pos),
            r.0 == (final(self).remaining() == 0),
            final(chans)@.len() == old(chans)@.len(),
            forall|p: int, c: int| pos <= p < r.1 && 0 <= c < 3 ==> #[trigger] final(chans)@[3 * p + c] == hide_low(
                gray_of(old(chans)@[3 * p], old(chans)@[3 * p + 1], old(chans)@[3 * p + 2]),
                stream_chunk(old(self).data(), old(self).bits(), (old(self).written() + (p - pos)) as nat), old(self).bits()),
            forall|j: int| 0 <= j < old(chans)@.len() && !(3 * pos <= j < 3 * r.1) ==> #[trigger] final(chans)@[j] == old(chans)@[j],
    {
        let npix = chans.len() / 3;
        let mut p = pos;
        proof { self.iter_bw.lemma_wf(); }
        while !self.iter_bw.is_done()
            invariant
                self.wf(),
                self.data() == old(self).data(),
                self.bits() == old(self).bits(),
                npix == old(chans)@.len() / 3,
                pos <= p <= npix,
                chans@.len() == old(chans)@.len(),
                self.written() == old(self).written() + (p - pos),
                self.written() <= stream_len(self.data(), self.bits()),
                forall|q: int, c: int| pos <= q < p && 0 <= c < 3 ==> #[trigger] chans@[3 * q + c] == hide_low(
                    gray_of(old(chans)@[3 * q], old(chans)@[3 * q + 1], old(chans)@[3 * q + 2]),
                    stream_chunk(old(self).data(), old(self).bits(), (old(self).written() + (q - pos)) as nat), old(self).bits()),
                forall|j: int| 0 <= j < old(chans)@.len() && !(3 * pos <= j < 3 * p) ==> #[trigger] chans@[j] == old(chans)@[j],
            decreases npix - p,
        {
            if p >= npix {
                return (false, p);
            }
            let (part, _) = self.iter_bw.write_bits();
            proof { self.iter_bw.lemma_wf(); }
            Self::pixel_gray_hide(chans, p, self.mask, part);
            p = p + 1;
        }
        (true, p)
    }

    /// Fills the pixels of `chans` from pixel `pos` with gray values whose lowest bits look
    /// like hidden ones.
    pub fn imitate_gray(&self, chans: &mut Vec<u8>, pos: usize)
        requires
            self.wf(),
            pos <= old(chans)@.len() / 3,
        ensures
            final(chans)@.len() == old(chans)@.len(),
            forall|p: int, c: int| pos <= p < old(chans)@.len() / 3 && 0 <= c < 3 ==> #[trigger] final(chans)@[3 * p + c] == hide_low(
                gray_of(old(chans)@[3 * p], old(chans)@[3 * p + 1], old(chans)@[3 * p + 2]),
                imitation(p - pos, self.bits()), self.bits()),
            forall|j: int| 0 <= j < old(chans)@.len() && !(3 * pos <= j < 3 * (old(chans)@.len() / 3)) ==> #[trigger] final(chans)@[j] == old(chans)@[j],
    {
        proof { self.iter_bw.lemma_wf(); }
        let k = self.iter_bw.chunk_bits();
        let m = self.mask;
        proof { crate::bits::lemma_byte_facts(0, 0, k, m); }
        let modulus: u8 = 1 + !m;
        let npix = chans.len() / 3;
        let mut p = pos;
        while p < npix
            invariant
                self.wf(),
                k == self.bits(),
                1 <= k <= 7,
                modulus == low_mask(k) + 1,
                npix == old(chans)@.len() / 3,
                pos <= p <= npix,
                chans@.len() == old(chans)@.len(),
                forall|q: int, c: int| pos <= q < p && 0 <= c < 3 ==> #[trigger] chans@[3 * q + c] == hide_low(
                    gray_of(old(chans)@[3 * q], old(chans)@[3 * q + 1], old(chans)@[3 * q + 2]),
                    imitation(q - pos, k), k),
                forall|j: int| 0 <= j < old(chans)@.len() && !(3 * pos <= j < 3 * p) ==> #[trigger] chans@[j] == old(chans)@[j],
            decreases npix - p,
        {
            let r = pseudo_rand_index(((p - pos) % 256) as u8);
            let part = (r as u8) % modulus;
            Self::pixel_gray_hide(chans, p, self.mask, part);
            p = p + 1;
        }
    }

    /// Makes pixel `p` gray, with `part` in the lowest bits of its gray level.
    fn pixel_gray_hide(chans: &mut Vec<u8>, p: usize, mask: u8, part: u8)
        requires
            3 * p + 3 <= old(chans)@.len(),
        ensures
            final(chans)@.len() == old(chans)@.len(),
            forall|c: int| 0 <= c < 3 ==> #[trigger] final(chans)@[3 * p + c] == ((gray_of(old(chans)@[3 * p], old(chans)@[3 * p + 1], old(chans)@[3 * p + 2]) & mask) | part),
            forall|j: int| 0 <= j < old(chans)@.len() && !(3 * p <= j < 3 * p + 3) ==> #[trigger] final(chans)@[j] == old(chans)@[j],
    {
        let n = chans.len();
        assert(3 * p + 3 <= n);
        let i0 = 3 * p;
        let r = chans[i0] as u16;
        let g = chans[i0 + 1] as u16;
        let b = chans[i0 + 2] as u16;
        let gray = 12 * r + 23 * g + 5 * b;
        let mut gray = (gray / 40) as u8;
        gray = gray & mask;
        gray = gray | part;
        chans.set(i0, gray);
        chans.set(i0 + 1, gray);
        chans.set(i0 + 2, gray);
    }
}


/// The header that the method hides first: four random bytes (whose lowest bit tells gray
/// mode: `0` for gray), the message's length, its kind, and the bits per carrier with the
/// gray flag on top.
pub open spec fn less_sign_header(rb: u32, len: nat, ty: MsgType, gray: bool, bits: u8) -> Seq<u8> {
    le_bytes_of(rb as nat) + le_bytes_of(len) + seq![spec_msg_type_byte(ty), ((if gray { 128u8 } else { 0u8 }) | bits) as u8]
}

/// `lo <= x <= hi`, or the nearest bound.
pub open spec fn clamp(x: int, lo: int, hi: int) -> int {
    if x < lo { lo } else if x > hi { hi } else { x }
}

/// How many carriers an image gives: its channels, or in gray mode its whole pixels.
pub open spec fn carriers(c: Seq<u8>, gray: bool) -> nat {
    if gray { c.len() / 3 } else { c.len() }
}

/// How many carriers the first `i` images give together.
pub open spec fn carriers_before(imgs: Seq<Img>, i: int, gray: bool) -> nat
    decreases i,
{
    if i <= 0 || imgs.len() == 0 { 0 } else if i > imgs.len() { carriers_before(imgs, imgs.len() as int, gray) } else {
        carriers_before(imgs, i - 1, gray) + carriers(imgs[i - 1].chans@, gray)
    }
}

/// The new value of the `j`-th carrier `v` of an image whose carriers are preceded by `st`
/// others: a header chunk, a message chunk, or an imitation.
pub open spec fn less_sign_value(v: u8, hdr: Seq<u8>, msg: Seq<u8>, bits: u8, st: nat, len: nat, j: int) -> u8 {
    let hl = stream_len(hdr, 1);
    let p = clamp(hl - st, 0, len as int);
    let p2 = clamp(hl + stream_len(msg, bits) - st, 0, len as int);
    if j < p {
        hide_low(v, stream_chunk(hdr, 1, (st + j) as nat), 1)
    } else if j < p2 {
        hide_low(v, stream_chunk(msg, bits, (st + j - hl) as nat), bits)
    } else {
        hide_low(v, imitation(j - p2, bits), bits)
    }
}

/// An image after the method, its carriers preceded by `st` others.
pub open spec fn less_sign_img(c: Seq<u8>, hdr: Seq<u8>, msg: Seq<u8>, bits: u8, gray: bool, st: nat) -> Seq<u8> {
    if !gray {
        Seq::new(c.len(), |j: int| less_sign_value(c[j], hdr, msg, bits, st, c.len(), j))
    } else {
        Seq::new(c.len(), |j: int| if j < 3 * (c.len() / 3) {
            let p = j / 3;
            less_sign_value(gray_of(c[3 * p], c[3 * p + 1], c[3 * p + 2]), hdr, msg, bits, st, c.len() / 3, p)
        } else {
            c[j]
        })
    }
}

/// The random header bits with their lowest bit telling the mode: `0` for gray.
pub open spec fn gray_seed(r: u32, gray: bool) -> u32 {
    if gray { r & !1u32 } else { r | 1u32 }
}

/// How many carriers of the combined stream the first `i` images give, with `total` the stream's length.
pub open spec fn taken(imgs: Seq<Img>, i: int, gray: bool, total: int) -> int {
    clamp(carriers_before(imgs, i, gray) as int, 0, total)
}

/// What the method does: images `orig` become `fin` and `r` comes back, for the message `msg`
/// of kind `ty`, `bits` bits a carrier, the mode `gray` and the random header bits `rb`.
/// Images are worked on in order until the message is complete; those after it stay as they
/// were, and the count of changed ones comes back.
pub open spec fn less_sign_hidden(orig: Seq<Img>, fin: Seq<Img>, r: Result<usize>, msg: Seq<u8>, ty: MsgType, bits: u8, gray: bool, rb: u32) -> bool {
    if msg.len() > u32::MAX {
        r == Err::<usize, Error>(Error::TooBigMsg) && fin == orig
    } else {
        let hdr = less_sign_header(gray_seed(rb, gray), msg.len(), ty, gray, bits);
        let l = stream_len(hdr, 1) + stream_len(msg, bits);
        let n = orig.len();
        let cnt = match r { Ok(c) => c as int, Err(_) => n as int };
        &&& fin.len() == n
        &&& forall|i: int| 0 <= i < n ==> {
            &&& (#[trigger] fin[i]).chans@ == (if i < cnt {
                    less_sign_img(orig[i].chans@, hdr, msg, bits, gray, carriers_before(orig, i, gray))
                } else {
                    orig[i].chans@
                })
            &&& fin[i].width == orig[i].width
            &&& fin[i].height == orig[i].height
            &&& fin[i].path == orig[i].path
        }
        &&& (r is Err <==> (msg.len() > 0 && carriers_before(orig, n as int, gray) < l))
        &&& (r is Err ==> r matches Err(Error::NotEnoughSizeOfInit(_)))
        &&& (r matches Ok(c) ==> if msg.len() == 0 {
                c == (if n == 0 { 0int } else { 1int })
            } else {
                1 <= c <= n && carriers_before(orig, c - 1, gray) < l <= carriers_before(orig, c as int, gray)
            })
    }
}

/// Carriers counted over more images are no fewer.
pub proof fn lemma_carriers_before_mono(imgs: Seq<Img>, i: int, j: int, gray: bool)
    requires
        0 <= i <= j <= imgs.len(),
    ensures
        carriers_before(imgs, i, gray) <= carriers_before(imgs, j, gray),
    decreases j - i,
{
    if i < j {
        lemma_carriers_before_mono(imgs, i, j - 1, gray);
    }
}

/// Hides into one image's channels what falls on it: the rest of the header, then the
/// message, then imitation; `st` carriers of earlier images came before.
fn hide_in_img(hw: &mut LessSignHiderWriter, mw: &mut LessSignHiderWriter, chans: &mut Vec<u8>, gray: bool, Ghost(st): Ghost<nat>)
    requires
        old(hw).wf(),
        old(mw).wf(),
        old(hw).bits() == 1,
        old(hw).written() == clamp(st as int, 0, stream_len(old(hw).data(), 1) as int),
        old(mw).written() == clamp(st - stream_len(old(hw).data(), 1), 0, stream_len(old(mw).data(), old(mw).bits()) as int),
    ensures
        final(hw).wf(),
        final(mw).wf(),
        final(hw).data() == old(hw).data(),
        final(hw).bits() == 1,
        final(mw).data() == old(mw).data(),
        final(mw).bits() == old(mw).bits(),
        final(hw).written() == clamp((st + carriers(old(chans)@, gray)) as int, 0, stream_len(old(hw).data(), 1) as int),
        final(mw).written() == clamp(st + carriers(old(chans)@, gray) - stream_len(old(hw).data(), 1), 0, stream_len(old(mw).data(), old(mw).bits()) as int),
        final(chans)@ == less_sign_img(old(chans)@, old(hw).data(), old(mw).data(), old(mw).bits(), gray, st),
{
    let ghost c0 = chans@;
    let ghost hdr = hw.data();
    let ghost msg = mw.data();
    let ghost k = mw.bits();
    let ghost hl = stream_len(hdr, 1);
    let ghost ml = stream_len(msg, k);
    proof { mw.lemma_wf(); hw.lemma_wf(); }
    if !gray {
        let ghost len = c0.len();
        let (_, p) = hw.write_while_can(chans, 0);
        let ghost c1 = chans@;
        let (_, p2) = mw.write_while_can(chans, p);
        let ghost c2 = chans@;
        mw.imitate(chans, p2);
        proof {
            assert(p == clamp(hl - st, 0, len as int));
            assert(p2 == clamp(hl + ml - st, 0, len as int));
            assert forall|j: int| 0 <= j < len implies #[trigger] chans@[j] == less_sign_value(c0[j], hdr, msg, k, st, len, j) by {
                if j < p {
                    assert(c1[j] == hide_low(c0[j], stream_chunk(hdr, 1, (st + j) as nat), 1));
                    assert(c2[j] == c1[j]);
                } else if j < p2 {
                    assert(c1[j] == c0[j]);
                    assert(c2[j] == hide_low(c0[j], stream_chunk(msg, k, (st + j - hl) as nat), k));
                } else {
                    assert(c1[j] == c0[j]);
                    assert(c2[j] == c0[j]);
                }
            }
            assert(chans@ =~= less_sign_img(c0, hdr, msg, k, gray, st));
        }
    } else {
        let ghost len = c0.len() / 3;
        let (_, p) = hw.write_while_can_gray(chans, 0);
        let ghost c1 = chans@;
        let (_, p2) = mw.write_while_can_gray(chans, p);
        let ghost c2 = chans@;
        mw.imitate_gray(chans, p2);
        proof {
            assert(p == clamp(hl - st, 0, len as int));
            assert(p2 == clamp(hl + ml - st, 0, len as int));
            assert forall|j: int| 0 <= j < c0.len() implies #[trigger] chans@[j] == less_sign_img(c0, hdr, msg, k, gray, st)[j] by {
                if j < 3 * len {
                    let q = j / 3;
                    let c = j % 3;
                    assert(j == 3 * q + c);
                    assert(0 <= q < len);
                    let g = gray_of(c0[3 * q], c0[3 * q + 1], c0[3 * q + 2]);
                    if q < p {
                        assert(c1[3 * q + c] == hide_low(g, stream_chunk(hdr, 1, (st + q) as nat), 1));
                        assert(c2[3 * q + c] == c1[3 * q + c]);
                    } else {
                        assert(c1[3 * q] == c0[3 * q]);
                        assert(c1[3 * q + 1] == c0[3 * q + 1]);
                        assert(c1[3 * q + 2] == c0[3 * q + 2]);
                        if q < p2 {
                            assert(c2[3 * q + c] == hide_low(g, stream_chunk(msg, k, (st + q - hl) as nat), k));
                        } else {
                            assert(c2[3 * q] == c0[3 * q]);
                            assert(c2[3 * q + 1] == c0[3 * q + 1]);
                            assert(c2[3 * q + 2] == c0[3 * q + 2]);
                            assert(chans@[3 * q + c] == hide_low(g, imitation(q - p2, k), k));
                        }
                    }
                    assert(chans@[3 * q + c] == less_sign_value(g, hdr, msg, k, st, len, q));
                } else {
                    assert(c1[j] == c0[j]);
                    assert(c2[j] == c0[j]);
                }
            }
            assert(chans@ =~= less_sign_img(c0, hdr, msg, k, gray, st));
        }
    }
}

/// Hides a message in the lowest bits of the images' carriers, after a header.
pub struct LessSignHider {
    pub msg: Vec<u8>,
    pub ty: MsgType,
    pub initial_img: Vec<String>,
    pub modified_img: ImgPaths,
    /// Bits per carrier (at most 4).
    pub bits: u8,
    /// Gray output mode.
    pub gray: bool,
}

impl LessSignHider {
    /// The hider itself: the message is already its bytes.
    pub fn transmute_msg(self) -> (r: Self)
        ensures
            r == self,
    {
        self
    }

    /// The writer of the header, one bit a carrier, with `rand_bits` as its random part.
    pub fn header_writer_seeded(&self, rand_bits: u32) -> (r: Result<LessSignHiderWriter>)
        requires
            self.bits <= 4,
        ensures
            r is Err <==> self.msg@.len() > u32::MAX,
            r is Err ==> r == Err::<LessSignHiderWriter, Error>(Error::TooBigMsg),
            r matches Ok(w) ==> {
                &&& w.wf()
                &&& w.bits() == 1
                &&& w.written() == 0
                &&& w.data() == less_sign_header(gray_seed(rand_bits, self.gray), self.msg@.len(), self.ty, self.gray, self.bits)
            },
    {
        let rand_bits = if self.gray { rand_bits & !1u32 } else { rand_bits | 1u32 };
        let msg_len = self.msg.len();
        Error::test_too_big_msg(msg_len)?;
        let rb = u32_to_le_bytes(rand_bits);
        let lb = u32_to_le_bytes(msg_len as u32);
        let gray_flag: u8 = if self.gray { 128 } else { 0 };
        let bits_and_gray = gray_flag | self.bits;
        let mut header: Vec<u8> = Vec::new();
        header.push(rb[0]);
        header.push(rb[1]);
        header.push(rb[2]);
        header.push(rb[3]);
        header.push(lb[0]);
        header.push(lb[1]);
        header.push(lb[2]);
        header.push(lb[3]);
        header.push(self.ty.to_u8());
        header.push(bits_and_gray);
        proof {
            assert(header@ =~= less_sign_header(rand_bits, self.msg@.len(), self.ty, self.gray, self.bits));
        }
        Ok(LessSignHiderWriter::new(header, 1))
    }

    /// Hides the message in `imgs`, the images at `initial_img` in order, with `rand_bits` as
    /// the header's random part, and gives how many of them (from the first) were changed.
    pub fn hide_msg_seeded(self, rand_bits: u32, imgs: &mut Vec<Img>) -> (r: Result<usize>)
        requires
            1 <= self.bits <= 4,
        ensures
            less_sign_hidden(old(imgs)@, final(imgs)@, r, self.msg@, self.ty, self.bits, self.gray, rand_bits),
    {
        let mut hw = match self.header_writer_seeded(rand_bits) {
            Ok(w) => w,
            Err(e) => return Err(e),
        };
        let bits = self.bits;
        let gray = self.gray;
        let ghost msg = self.msg@;
        let ghost hdr = hw.data();
        let mut mw = LessSignHiderWriter::new(self.msg, bits);
        let ghost hl = stream_len(hdr, 1);
        let ghost ml = stream_len(msg, bits);
        let ghost orig = imgs@;
        let n = imgs.len();
        let mut i: usize = 0;
        proof {
            assert(ml == 0 <==> msg.len() == 0) by (nonlinear_arith) requires ml == msg.len() * chunks_per_byte(bits), chunks_per_byte(bits) >= 1;
        }
        while i < n
            invariant_except_break
                i >= 1 ==> mw.remaining() > 0,
            invariant
                n == imgs@.len(),
                n == orig.len(),
                hw.wf(),
                hw.data() == hdr,
                hw.bits() == 1,
                mw.wf(),
                mw.data() == msg,
                mw.bits() == bits,
                1 <= bits <= 4,
                hl == stream_len(hdr, 1),
                ml == stream_len(msg, bits),
                ml == 0 <==> msg.len() == 0,
                i <= n,
                hw.written() == taken(orig, i as int, gray, hl as int),
                mw.written() == clamp(carriers_before(orig, i as int, gray) - hl, 0, ml as int),
                ml > 0 && i >= 1 ==> carriers_before(orig, i - 1, gray) < hl + ml,
                forall|j: int| 0 <= j < i ==> {
                    &&& (#[trigger] imgs@[j]).chans@ == less_sign_img(orig[j].chans@, hdr, msg, bits, gray, carriers_before(orig, j, gray))
                    &&& imgs@[j].width == orig[j].width
                    &&& imgs@[j].height == orig[j].height
                    &&& imgs@[j].path == orig[j].path
                },
                forall|j: int| i <= j < n ==> #[trigger] imgs@[j] == orig[j],
            ensures
                i <= n,
                mw.wf(),
                mw.data() == msg,
                mw.bits() == bits,
                mw.written() == clamp(carriers_before(orig, i as int, gray) - hl, 0, ml as int),
                ml > 0 && i >= 1 ==> carriers_before(orig, i - 1, gray) < hl + ml,
                i < n ==> mw.remaining() == 0 && i >= 1,
                ml == 0 ==> i <= 1,
                forall|j: int| 0 <= j < i ==> {
                    &&& (#[trigger] imgs@[j]).chans@ == less_sign_img(orig[j].chans@, hdr, msg, bits, gray, carriers_before(orig, j, gray))
                    &&& imgs@[j].width == orig[j].width
                    &&& imgs@[j].height == orig[j].height
                    &&& imgs@[j].path == orig[j].path
                },
                forall|j: int| i <= j < n ==> #[trigger] imgs@[j] == orig[j],
            decreases n - i,
        {
            let ghost st = carriers_before(orig, i as int, gray);
            let ghost was_done = mw.remaining() == 0;
            let mut img = imgs.remove(i);
            let ghost c0 = img.chans@;
            assert(img == orig[i as int]);
            hide_in_img(&mut hw, &mut mw, &mut img.chans, gray, Ghost(st));
            proof {
                assert(carriers_before(orig, i + 1, gray) == st + carriers(c0, gray));
                mw.lemma_wf();
            }
            imgs.insert(i, img);
            i = i + 1;
            proof {
                assert forall|j: int| i <= j < n implies #[trigger] imgs@[j] == orig[j] by {}
            }
            if mw.is_done() {
                break;
            }
        }
        proof {
            lemma_carriers_before_mono(orig, i as int, n as int, gray);
        }
        if !mw.is_done() {
            let left = mw.bytes_left();
            proof {
                assert(i == n);
            }
            return Err(Error::NotEnoughSizeOfInit(left));
        }
        proof {
            if ml > 0 && i >= 1 {
                lemma_carriers_before_mono(orig, i as int, n as int, gray);
            }
        }
        Ok(i)
    }

    /// Hides the message in `imgs`, the images at `initial_img` in order, after a header with a
    /// random part, and gives how many of them (from the first) were changed.
    pub fn hide_msg(self, imgs: &mut Vec<Img>) -> (r: Result<usize>)
        requires
            1 <= self.bits <= 4,
        ensures
            exists|rb: u32| #[trigger] less_sign_hidden(old(imgs)@, final(imgs)@, r, self.msg@, self.ty, self.bits, self.gray, rb),
    {
        let rb = next_u32_of(&mut thread_rng());
        let ghost m = self.msg@;
        let ghost t = self.ty;
        let ghost b = self.bits;
        let ghost g = self.gray;
        let ghost before = imgs@;
        let r = self.hide_msg_seeded(rb, imgs);
        assert(less_sign_hidden(before, imgs@, r, m, t, b, g, rb));
        r
    }
}

/// How revealing by the least-significant-bits method can fail.
pub enum LessSignFail {
    /// An error that carries no text.
    Plain(Error),
    /// The first pixel claims gray mode but is not gray.
    GrayMismatch,
    /// The header's mode flag differs from the mode the first pixel told.
    InconsistentHeader,
    /// The header's bits per carrier are outside `1..=7`.
    BadBits,
}

/// Whether the error `e` is the failure `f`.
pub open spec fn fail_is(f: LessSignFail, e: Error) -> bool {
    match f {
        LessSignFail::Plain(x) => e == x,
        LessSignFail::GrayMismatch => e matches Error::Other(s) && s@ == "The header says that picture is grayscaled but it doesn't"@,
        LessSignFail::InconsistentHeader => e matches Error::Other(s) && s@ == "Inconsistent header"@,
        LessSignFail::BadBits => e matches Error::Other(s) && s@ == "Invalid bits per carrier in the header"@,
    }
}

/// Whether `r` is what the spec result `s` describes.
pub open spec fn reveal_is(s: std::result::Result<(Seq<u8>, MsgType), LessSignFail>, r: Result<(Vec<u8>, MsgType)>) -> bool {
    match s {
        Ok((m, t)) => r matches Ok((v, t2)) && v@ == m && t2 == t,
        Err(f) => r matches Err(e) && fail_is(f, e),
    }
}

/// The carriers' values that hold the hidden bits: the channels, or in gray mode the first
/// channel of each pixel.
pub open spec fn carrier_vals(c: Seq<u8>, gray: bool) -> Seq<u8> {
    if gray { Seq::new(c.len() / 3, |p: int| c[3 * p]) } else { c }
}

/// The mode that the first pixel tells: gray when the lowest bit of its first channel is `0`,
/// which a pixel that is not gray contradicts.
pub open spec fn spec_gray_of_pixel(r: u8, g: u8, b: u8) -> std::result::Result<bool, LessSignFail> {
    if r & 1 == 0 {
        if r == g && r == b { Ok(true) } else { Err(LessSignFail::GrayMismatch) }
    } else {
        Ok(false)
    }
}

/// The message's kind, bits per carrier and length, as a complete header gives them in mode `gray`.
pub open spec fn ls_header_fields(h: Seq<u8>, gray: bool) -> std::result::Result<(MsgType, u8, nat), LessSignFail> {
    match spec_msg_type_of(h[8]) {
        None => Err(LessSignFail::Plain(Error::InvalidMsgTypeByte(h[8]))),
        Some(ty) => {
            let bits = h[9] & 15u8;
            let g = (h[9] & 128u8) != 0;
            if g != gray {
                Err(LessSignFail::InconsistentHeader)
            } else if !(1 <= bits <= 7) {
                Err(LessSignFail::BadBits)
            } else {
                Ok((ty, bits, le_u32(h.subrange(4, 8))))
            }
        }
    }
}

/// The assembler's state at the start.
pub open spec fn fresh() -> (u8, u8, Seq<u8>) {
    (0u8, 0u8, Seq::<u8>::empty())
}

/// Reading the method's header and message from images, one after another: the mode (once an
/// image with a pixel told it), the header read so far, and, once the header is complete, the
/// message's kind, bits, length and what was read of it.
pub open spec fn ls_reveal_scan(
    g: Option<bool>,
    hs: (u8, u8, Seq<u8>),
    ms: Option<(MsgType, u8, nat, (u8, u8, Seq<u8>))>,
    imgs: Seq<Img>,
) -> std::result::Result<(Option<bool>, (u8, u8, Seq<u8>), Option<(MsgType, u8, nat, (u8, u8, Seq<u8>))>), LessSignFail>
    decreases imgs.len(),
{
    if imgs.len() == 0 {
        Ok((g, hs, ms))
    } else {
        let c = imgs[0].chans@;
        let rest = imgs.drop_first();
        if g is None && c.len() < 3 {
            ls_reveal_scan(g, hs, ms, rest)
        } else {
            let gr = if g is Some { Ok::<bool, LessSignFail>(g->0) } else { spec_gray_of_pixel(c[0], c[1], c[2]) };
            match gr {
                Err(e) => Err(e),
                Ok(gv) => {
                    let cars = carrier_vals(c, gv);
                    if hs.2.len() < 10 {
                        let (hs2, u) = read_fill(hs, masked(cars, low_mask(1)), 1, 10);
                        if hs2.2.len() < 10 {
                            ls_reveal_scan(Some(gv), hs2, ms, rest)
                        } else {
                            match ls_header_fields(hs2.2, gv) {
                                Err(e) => Err(e),
                                Ok((ty, k, len)) => {
                                    let m2 = read_fill(fresh(), masked(cars.skip(u as int), low_mask(k)), k, len).0;
                                    let ms2 = Some((ty, k, len, m2));
                                    if m2.2.len() >= len {
                                        Ok((Some(gv), hs2, ms2))
                                    } else {
                                        ls_reveal_scan(Some(gv), hs2, ms2, rest)
                                    }
                                },
                            }
                        }
                    } else {
                        match ms {
                            None => ls_reveal_scan(Some(gv), hs, ms, rest),
                            Some((ty, k, len, m)) => {
                                let m2 = read_fill(m, masked(cars, low_mask(k)), k, len).0;
                                let ms2 = Some((ty, k, len, m2));
                                if m2.2.len() >= len {
                                    Ok((Some(gv), hs, ms2))
                                } else {
                                    ls_reveal_scan(Some(gv), hs, ms2, rest)
                                }
                            },
                        }
                    }
                },
            }
        }
    }
}

/// What the method reveals from the modified images.
pub open spec fn spec_less_sign_reveal(imgs: Seq<Img>) -> std::result::Result<(Seq<u8>, MsgType), LessSignFail> {
    match ls_reveal_scan(None, fresh(), None, imgs) {
        Err(e) => Err(e),
        Ok((_, _, ms)) => match ms {
            None => Err(LessSignFail::Plain(Error::UnreadedHeader)),
            Some((ty, _, len, m)) => if m.2.len() < len {
                Err(LessSignFail::Plain(Error::UnfullResult((len - m.2.len()) as usize)))
            } else {
                Ok((m.2, ty))
            },
        },
    }
}

/// The carriers' values of channels `c` in mode `gray`.
fn carrier_values(c: &Vec<u8>, gray: bool) -> (r: Vec<u8>)
    ensures
        r@ == carrier_vals(c@, gray),
{
    if !gray {
        return c.clone();
    }
    let len = c.len();
    let n = len / 3;
    let mut r: Vec<u8> = Vec::new();
    let mut p: usize = 0;
    while p < n
        invariant
            len == c@.len(),
            n == c@.len() / 3,
            3 * n <= len,
            p <= n,
            r@ =~= Seq::new(p as nat, |q: int| c@[3 * q]),
        decreases n - p,
    {
        r.push(c[3 * p]);
        p = p + 1;
    }
    r
}

/// Reveals what [`LessSignHider`] hid, from the modified images alone.
pub struct LessSignRevealer {
    pub modified_img: Vec<String>,
    pub save_path: Option<String>,
}

impl LessSignRevealer {
    /// The mode that the first pixel `(r, g, b)` tells.
    fn is_gray_calc(r: u8, g: u8, b: u8) -> (res: Result<bool>)
        ensures
            match spec_gray_of_pixel(r, g, b) {
                Ok(x) => res == Ok::<bool, Error>(x),
                Err(f) => res matches Err(e) && fail_is(f, e),
            },
    {
        let is_gray = (r & 1) == 0;
        if is_gray {
            if r != g || r != b {
                return Err(Error::Other(String::from_str("The header says that picture is grayscaled but it doesn't")));
            }
        }
        Ok(is_gray)
    }

    /// The reader of the message that a complete `header` announces, with the message's kind.
    fn msg_reader_ctor(header: &Vec<u8>, expected_gray: bool) -> (r: Result<(ConstBufReader, MsgType)>)
        requires
            header@.len() == 10,
        ensures
            match ls_header_fields(header@, expected_gray) {
                Ok((ty, k, len)) => r matches Ok((m, t)) && t == ty && m.wf() && m.state() == fresh() && m.expected() == len && m.spec_bits() == k,
                Err(f) => r matches Err(e) && fail_is(f, e),
            },
    {
        let len_bytes: [u8; 4] = [header[4], header[5], header[6], header[7]];
        let msg_len = u32_from_le_bytes(len_bytes) as usize;
        proof { assert(len_bytes@ =~= header@.subrange(4, 8)); }
        let ty_byte = header[8];
        let bits_and_gray = header[9];
        let ty = match MsgType::try_from_u8(ty_byte) {
            Some(t) => t,
            None => return Err(Error::InvalidMsgTypeByte(ty_byte)),
        };
        let bits = bits_and_gray & 0b1111u8;
        let gray = (bits_and_gray & 128u8) != 0;
        if gray != expected_gray {
            return Err(Error::Other(String::from_str("Inconsistent header")));
        }
        if bits < 1 || bits > 7 {
            return Err(Error::Other(String::from_str("Invalid bits per carrier in the header")));
        }
        Ok((ConstBufReader::new(msg_len, bits), ty))
    }

    /// Reads the hidden message from `modified`, the images at `modified_img`, in order.
    pub fn reveal_msg(&self, modified: &Vec<Img>) -> (r: Result<(Vec<u8>, MsgType)>)
        ensures
            reveal_is(spec_less_sign_reveal(modified@), r),
    {
        let mut gray: Option<bool> = None;
        let mut hr = ConstBufReader::new(10, 1);
        let mut mr: Option<ConstBufReader> = None;
        let mut ty = MsgType::Reserved;
        let n = modified.len();
        let mut i: usize = 0;
        proof {
            assert(modified@.skip(0) =~= modified@);
        }
        while i < n
            invariant_except_break
                ls_reveal_scan(None, fresh(), None, modified@) == ls_reveal_scan(gray, hr.state(), ms_of(&mr, ty), modified@.skip(i as int)),
            invariant
                i <= n,
                n == modified@.len(),
                hr.wf(),
                hr.expected() == 10,
                hr.spec_bits() == 1,
                gray is None ==> hr.state() == fresh() && mr is None,
                hr.state().2.len() < 10 ==> mr is None,
                hr.state().2.len() >= 10 ==> mr is Some,
                mr matches Some(m) ==> m.wf(),
            ensures
                ls_reveal_scan(None, fresh(), None, modified@) == Ok::<_, LessSignFail>((gray, hr.state(), ms_of(&mr, ty))),
                mr matches Some(m) ==> m.wf(),
            decreases n - i,
        {
            let c = &modified[i].chans;
            let ghost sk = modified@.skip(i as int);
            let ghost st_hs = hr.state();
            let ghost st_ms = ms_of(&mr, ty);
            let ghost st_g = gray;
            proof {
                assert(sk[0] == modified@[i as int]);
                assert(sk.drop_first() =~= modified@.skip(i + 1));
            }
            let is_gray = match gray {
                Some(g) => g,
                None => {
                    if c.len() < 3 {
                        i = i + 1;
                        proof {
                            if i >= n {
                                assert(modified@.skip(i as int).len() == 0);
                            }
                        }
                        continue;
                    }
                    let g = match Self::is_gray_calc(c[0], c[1], c[2]) {
                        Ok(g) => g,
                        Err(e) => return Err(e),
                    };
                    gray = Some(g);
                    g
                },
            };
            let cars = carrier_values(c, is_gray);
            let mut pos: usize = 0;
            if !hr.is_done() {
                let (full, p) = hr.read_while_can(cars.as_slice(), 0);
                proof {
                    lemma_read_fill_chans(st_hs, cars@, 0, p as int, 1, low_mask(1), 10);
                    assert(cars@.skip(0) =~= cars@);
                    hr.lemma_wf();
                }
                pos = p;
                if !full {
                    i = i + 1;
                    proof {
                        if i >= n {
                            assert(modified@.skip(i as int).len() == 0);
                        }
                    }
                    continue;
                }
                match Self::msg_reader_ctor(hr.buf_ref(), is_gray) {
                    Ok((m, t)) => {
                        mr = Some(m);
                        ty = t;
                    },
                    Err(e) => return Err(e),
                }
            }
            let ghost ms1 = ms_of(&mr, ty);
            let mut done = false;
            match mr {
                Some(mut m) => {
                    let ghost m0 = m.state();
                    let mask = m.mask();
                    let (full, p2) = m.read_while_can(cars.as_slice(), pos);
                    proof {
                        lemma_read_fill_chans(m0, cars@, pos as int, p2 as int, m.spec_bits(), mask, m.expected());
                        m.lemma_wf();
                        if pos == 0 {
                            assert(cars@.skip(0) =~= cars@);
                        }
                    }
                    done = full;
                    mr = Some(m);
                },
                None => {},
            }
            i = i + 1;
            proof {
                if i >= n {
                    assert(modified@.skip(i as int).len() == 0);
                }
            }
            if done {
                break;
            }
        }
        let m = match mr {
            Some(m) => m,
            None => return Err(Error::UnreadedHeader),
        };
        if !m.is_done() {
            return Err(Error::UnfullResult(m.left_to_read()));
        }
        Ok((m.take_buf(), ty))
    }
}

/// The spec state of an optional message reader of kind `ty`.
pub open spec fn ms_of(mr: &Option<ConstBufReader>, ty: MsgType) -> Option<(MsgType, u8, nat, (u8, u8, Seq<u8>))> {
    match mr {
        Some(m) => Some((ty, m.spec_bits(), m.expected(), m.state())),
        None => None,
    }
}

} // verus!
