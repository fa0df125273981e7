//! The average-sum method: each chunk of channels is nudged until the sum of its values,
//! modulo a power of two, is the next chunk of the hidden stream.

use vstd::prelude::*;
use crate::bits::{low_mask, stream_chunk, stream_len, le_bytes_of, u32_to_le_bytes, chunks_per_byte};
use crate::error::{Error, Result};
use crate::msg::{MsgType, spec_msg_type_byte};
use crate::png::img::{Img, ImgPaths};
use crate::png::writer::{AvgSumHideBlockWriter, TopBottomChunks, sum_of};
use crate::msg::spec_msg_type_of;
use crate::reader::{ConstBytesReader, feed_step, read_fill};
use crate::bits::{le_u32, u32_from_le_bytes};

verus! {

/// A channel moved from `a` to `b` toward the middle of the range, by at most `d`.
pub open spec fn moved_toward_middle(a: u8, b: u8, d: int) -> bool {
    &&& a > 128 ==> b <= a && a - b <= d
    &&& a <= 128 ==> b >= a && b - a <= d
}

/// The most that the method moves one channel of a chunk of `cs` channels holding `bits` bits.
pub open spec fn max_move(bits: u8, cs: nat) -> int {
    (low_mask(bits) as int) / ((cs / 2) as int) + 1
}

/// Chunk number `t` of a run of chunks of `cs` channels starting at `start`, in channels `a`
/// made into `b`: its sum modulo `2^bits` is chunk `first + t` of the stream of `data`, and
/// each of its channels moved toward the middle by at most [`max_move`].
pub open spec fn avg_chunk_at(a: Seq<u8>, b: Seq<u8>, data: Seq<u8>, bits: u8, cs: nat, start: int, first: nat, t: int) -> bool {
    let s = start + cs * t;
    &&& sum_of(b.subrange(s, s + cs)) % (low_mask(bits) + 1) == stream_chunk(data, bits, (first + t) as nat)
    &&& forall|j: int| s <= j < s + cs ==> moved_toward_middle(a[j], #[trigger] b[j], max_move(bits, cs))
}

/// A writer with `w` of `total` chunks written, given `room` channels: the chunks it writes
/// whole, how many it has written after, and whether the channels ran out first (the chunk
/// that did not fit is left for the next image).
pub open spec fn avg_phase(w: nat, total: nat, cs: nat, room: nat) -> (nat, nat, bool) {
    if w >= total {
        (0, w, false)
    } else if room / cs >= total - w {
        ((total - w) as nat, total, false)
    } else {
        (room / cs, w + room / cs, true)
    }
}

/// The header of the method: the kind, the bits per chunk, the chunk size, then the message's
/// length in four bytes, least significant first.
pub open spec fn avg_header(ty: MsgType, bits: u8, cs: u8, len: nat) -> Seq<u8> {
    seq![spec_msg_type_byte(ty), bits, cs] + le_bytes_of(len)
}

/// The chunks of the header and of the message written after an image of `l` channels, from
/// `hw` and `mw` chunks written before it.
pub open spec fn avg_step(hw: nat, mw: nat, h: nat, m: nat, cs: nat, l: nat) -> (nat, nat) {
    let ph = avg_phase(hw, h, 8, l);
    if ph.2 {
        (ph.1, mw)
    } else {
        (ph.1, avg_phase(mw, m, cs, (l - 8 * ph.0) as nat).1)
    }
}

/// The chunks of the header and of the message written after the first `i` images.
pub open spec fn avg_state(imgs: Seq<Img>, i: int, h: nat, m: nat, cs: nat) -> (nat, nat)
    decreases i,
{
    if i <= 0 || i > imgs.len() {
        (0, 0)
    } else {
        let s = avg_state(imgs, i - 1, h, m, cs);
        avg_step(s.0, s.1, h, m, cs, imgs[i - 1].chans@.len())
    }
}

/// Channels `a` of one image made into `b`, from `hw` header and `mw` message chunks written
/// before: whole header chunks of 8 channels first, then whole message chunks of `cs`,
/// the rest unchanged.
#[verifier::opaque]
pub open spec fn avg_img_ok(a: Seq<u8>, b: Seq<u8>, hdr: Seq<u8>, msg: Seq<u8>, bits: u8, cs: nat, hw: nat, mw: nat) -> bool {
    let l = a.len();
    let ph = avg_phase(hw, stream_len(hdr, 4), 8, l);
    let pos = 8 * ph.0;
    let km = if ph.2 { 0 } else { avg_phase(mw, stream_len(msg, bits), cs, (l - pos) as nat).0 };
    let end = pos + cs * km;
    &&& b.len() == l
    &&& forall|t: int| 0 <= t < ph.0 ==> #[trigger] avg_chunk_at(a, b, hdr, 4, 8, 0, hw, t)
    &&& forall|t: int| 0 <= t < km ==> #[trigger] avg_chunk_at(a, b, msg, bits, cs, pos as int, mw, t)
    &&& forall|j: int| end <= j < l ==> #[trigger] b[j] == a[j]
}

/// Chunk starts within a run of `k` chunks of `cs` channels from `pos` stay inside it.
pub proof fn lemma_chunk_inside(pos: int, cs: int, t: int, k: int)
    requires
        cs >= 0,
        0 <= t < k,
    ensures
        pos <= pos + cs * t,
        pos + cs * t + cs <= pos + cs * k,
{
    assert(cs * t >= 0 && cs * t + cs <= cs * k) by (nonlinear_arith)
        requires cs >= 0, 0 <= t < k;
}

/// Whole chunks that fit: `pos + cs * k <= len` with less than a chunk left gives
/// `(len - pos) / cs == k`.
proof fn lemma_fit(len: int, pos: int, cs: int, k: int)
    requires
        cs >= 1,
        k >= 0,
        pos + cs * k <= len < pos + cs * k + cs,
    ensures
        (len - pos) / cs == k,
{
    assert(len - pos == k * cs + (len - pos - cs * k)) by (nonlinear_arith);
    vstd::arithmetic::div_mod::lemma_fundamental_div_mod_converse(len - pos, cs, k, len - pos - cs * k);
}

/// At least `k` whole chunks fit.
pub proof fn lemma_fit_at_least(len: int, pos: int, cs: int, k: int)
    requires
        cs >= 1,
        k >= 0,
        pos + cs * k <= len,
    ensures
        (len - pos) / cs >= k,
{
    vstd::arithmetic::div_mod::lemma_fundamental_div_mod(len - pos, cs);
    let q = (len - pos) / cs;
    vstd::arithmetic::div_mod::lemma_mod_pos_bound(len - pos, cs);
    if q < k {
        assert(cs * q + cs <= cs * k) by (nonlinear_arith) requires q < k, cs >= 1;
    }
}

/// Writes chunks with `w` into `chans` from `pos` until `w` is done or a chunk does not fit
/// (then the rest of the channels are left as they are); gives where it stopped and whether the
/// channels ran out.
fn write_phase(w: &mut AvgSumHideBlockWriter, chunks: &mut TopBottomChunks, chans: &mut Vec<u8>, pos: usize) -> (r: (usize, bool))
    requires
        old(w).wf(),
        old(w).remaining() > 0,
        pos <= old(chans)@.len(),
    ensures
        final(w).wf(),
        final(w).data() == old(w).data(),
        final(w).bits() == old(w).bits(),
        final(w).chunk_size() == old(w).chunk_size(),
        ({
            let ph = avg_phase(old(w).written(), stream_len(old(w).data(), old(w).bits()), old(w).chunk_size() as nat, (old(chans)@.len() - pos) as nat);
            &&& final(w).written() == ph.1
            &&& r.1 == ph.2
            &&& !r.1 ==> r.0 == pos + old(w).chunk_size() * ph.0
            &&& final(chans)@.len() == old(chans)@.len()
            &&& forall|t: int| 0 <= t < ph.0 ==> #[trigger] avg_chunk_at(old(chans)@, final(chans)@, old(w).data(), old(w).bits(), old(w).chunk_size() as nat, pos as int, old(w).written(), t)
            &&& forall|j: int| 0 <= j < old(chans)@.len() && !(pos <= j < pos + old(w).chunk_size() * ph.0) ==> #[trigger] final(chans)@[j] == old(chans)@[j]
        }),
{
    let ghost a = chans@;
    let ghost len = a.len();
    let ghost w0 = w.written();
    let ghost data = w.data();
    let ghost bits = w.bits();
    let ghost cs = w.chunk_size() as nat;
    let ghost total = stream_len(data, bits);
    let ghost mut j: nat = 0;
    let mut p = pos;
    proof { w.lemma_wf(); }
    loop
        invariant
            w.wf(),
            w.data() == data,
            w.bits() == bits,
            w.chunk_size() == cs,
            2 <= cs <= 64,
            w.written() == w0 + j,
            w0 + j < total,
            total == stream_len(data, bits),
            p == pos + cs * j,
            p <= len,
            len == a.len(),
            a == old(chans)@,
            w0 == old(w).written(),
            data == old(w).data(),
            bits == old(w).bits(),
            cs == old(w).chunk_size(),
            chans@.len() == len,
            forall|t: int| 0 <= t < j ==> #[trigger] avg_chunk_at(a, chans@, data, bits, cs, pos as int, w0, t),
            forall|i: int| 0 <= i < len && !(pos <= i < p) ==> #[trigger] chans@[i] == a[i],
        decreases total - (w0 + j),
    {
        let ghost prev = chans@;
        proof { w.lemma_wf(); }
        let (flags, p2) = w.write_bits(chunks, chans, p);
        proof { w.lemma_wf(); }
        if flags.continue_init {
            proof {
                lemma_fit(len as int, pos as int, cs as int, j as int);
                assert(chans@ == prev);
            }
            return (p2, true);
        }
        proof {
            let s = p as int;
            assert(p + cs * 1 == pos + cs * (j + 1)) by (nonlinear_arith) requires p == pos + cs * j;
            assert forall|t: int| 0 <= t < j + 1 implies #[trigger] avg_chunk_at(a, chans@, data, bits, cs, pos as int, w0, t) by {
                lemma_chunk_inside(pos as int, cs as int, t, (j + 1) as int);
                let st = pos + cs * t;
                if t < j {
                    lemma_chunk_inside(pos as int, cs as int, t, j as int);
                    assert(avg_chunk_at(a, prev, data, bits, cs, pos as int, w0, t));
                    assert(chans@.subrange(st, st + cs) =~= prev.subrange(st, st + cs));
                    assert forall|i: int| st <= i < st + cs implies moved_toward_middle(a[i], #[trigger] chans@[i], max_move(bits, cs)) by {
                        assert(prev[i] == chans@[i]);
                    }
                } else {
                    assert(st == s);
                    assert forall|i: int| st <= i < st + cs implies moved_toward_middle(a[i], #[trigger] chans@[i], max_move(bits, cs)) by {
                        assert(prev[i] == a[i]);
                    }
                }
            }
            j = j + 1;
        }
        p = p2;
        if flags.is_done {
            proof {
                lemma_fit_at_least(len as int, pos as int, cs as int, j as int);
            }
            return (p, false);
        }
    }
}

/// Hides into one image's channels what falls on it: header chunks, then message chunks.
fn hide_in_img(hw: &mut AvgSumHideBlockWriter, mw: &mut AvgSumHideBlockWriter, chunks: &mut TopBottomChunks, chans: &mut Vec<u8>)
    requires
        old(hw).wf(),
        old(mw).wf(),
        old(hw).bits() == 4,
        old(hw).chunk_size() == 8,
    ensures
        final(hw).wf(),
        final(mw).wf(),
        final(hw).data() == old(hw).data(),
        final(hw).bits() == 4,
        final(hw).chunk_size() == 8,
        final(mw).data() == old(mw).data(),
        final(mw).bits() == old(mw).bits(),
        final(mw).chunk_size() == old(mw).chunk_size(),
        (final(hw).written(), final(mw).written()) == avg_step(old(hw).written(), old(mw).written(), stream_len(old(hw).data(), 4),
            stream_len(old(mw).data(), old(mw).bits()), old(mw).chunk_size() as nat, old(chans)@.len()),
        avg_img_ok(old(chans)@, final(chans)@, old(hw).data(), old(mw).data(), old(mw).bits(), old(mw).chunk_size() as nat, old(hw).written(), old(mw).written()),
{
    let ghost a = chans@;
    let ghost hdr = hw.data();
    let ghost msg = mw.data();
    let ghost bits = mw.bits();
    let ghost cs = mw.chunk_size() as nat;
    let ghost hw0 = hw.written();
    let ghost mw0 = mw.written();
    let ghost l = a.len();
    proof {
        hw.lemma_wf();
        mw.lemma_wf();
        reveal(avg_img_ok);
        lemma_phase_bounds(hw0, stream_len(hdr, 4), 8, l);
    }
    let mut pos: usize = 0;
    let ghost ph = avg_phase(hw0, stream_len(hdr, 4), 8, l);
    if !hw.is_done() {
        let (p, ended) = write_phase(hw, chunks, chans, 0);
        if ended {
            proof {
                assert forall|j: int| 8 * ph.0 <= j < l implies #[trigger] chans@[j] == a[j] by {}
            }
            return;
        }
        pos = p;
    }
    let ghost c1 = chans@;
    proof {
        assert(pos == 8 * ph.0);
        assert(forall|j: int| pos <= j < l ==> #[trigger] c1[j] == a[j]);
    }
    let ghost pm = avg_phase(mw0, stream_len(msg, bits), cs, (l - pos) as nat);
    proof { lemma_phase_bounds(mw0, stream_len(msg, bits), cs, (l - pos) as nat); }
    if !mw.is_done() {
        let (_p, _ended) = write_phase(mw, chunks, chans, pos);
        proof {
            assert forall|t: int| 0 <= t < ph.0 implies #[trigger] avg_chunk_at(a, chans@, hdr, 4, 8, 0, hw0, t) by {
                lemma_chunk_inside(0, 8, t, ph.0 as int);
                let st = 8 * t;
                assert(avg_chunk_at(a, c1, hdr, 4, 8, 0, hw0, t));
                assert(chans@.subrange(st, st + 8) =~= c1.subrange(st, st + 8));
                assert forall|i: int| st <= i < st + 8 implies moved_toward_middle(a[i], #[trigger] chans@[i], max_move(4, 8)) by {
                    assert(c1[i] == chans@[i]);
                }
            }
            assert forall|t: int| 0 <= t < pm.0 implies #[trigger] avg_chunk_at(a, chans@, msg, bits, cs, pos as int, mw0, t) by {
                lemma_chunk_inside(pos as int, cs as int, t, pm.0 as int);
                let st = pos + cs * t;
                assert(avg_chunk_at(c1, chans@, msg, bits, cs, pos as int, mw0, t));
                assert forall|i: int| st <= i < st + cs implies moved_toward_middle(a[i], #[trigger] chans@[i], max_move(bits, cs)) by {
                    assert(c1[i] == a[i]);
                }
            }
            assert forall|j: int| pos + cs * pm.0 <= j < l implies #[trigger] chans@[j] == a[j] by {
                assert(chans@[j] == c1[j]);
            }
        }
    }
}

/// Hides a message in images by nudging chunks of channels until their sums carry it.
pub struct AvgSumHider {
    pub msg: Vec<u8>,
    pub ty: MsgType,
    pub initial_img: Vec<String>,
    pub modified_img: ImgPaths,
    /// Bits per chunk (at most 6).
    pub bits_per_chunk: u8,
    /// Channels per chunk (at most 64).
    pub chunk_size: u8,
}

/// What the method does: images `orig` become `fin` and `r` comes back, for the message
/// `msg` of kind `ty`, `bits` bits a chunk of `cs` channels. Images are worked on in order
/// until the message is complete; those after it stay as they were, and the count of changed
/// ones comes back.
pub open spec fn avg_hidden(orig: Seq<Img>, fin: Seq<Img>, r: Result<usize>, msg: Seq<u8>, ty: MsgType, bits: u8, cs: u8) -> bool {
    if msg.len() > u32::MAX {
        r == Err::<usize, Error>(Error::TooBigMsg) && fin == orig
    } else {
        let hdr = avg_header(ty, bits, cs, msg.len());
        let h = stream_len(hdr, 4);
        let m = stream_len(msg, bits);
        let n = orig.len();
        let cnt = match r { Ok(c) => c as int, Err(_) => n as int };
        &&& fin.len() == n
        &&& forall|i: int| 0 <= i < n ==> {
            let st = avg_state(orig, i, h, m, cs as nat);
            &&& (if i < cnt {
                    avg_img_ok(orig[i].chans@, (#[trigger] fin[i]).chans@, hdr, msg, bits, cs as nat, st.0, st.1)
                } else {
                    fin[i].chans@ == orig[i].chans@
                })
            &&& fin[i].width == orig[i].width
            &&& fin[i].height == orig[i].height
            &&& fin[i].path == orig[i].path
        }
        &&& (r is Err <==> (m > 0 && avg_state(orig, n as int, h, m, cs as nat).1 < m))
        &&& (r is Err ==> r == Err::<usize, Error>(Error::NotEnoughSizeOfInit(
                (msg.len() - avg_state(orig, n as int, h, m, cs as nat).1 / chunks_per_byte(bits)) as usize)))
        &&& (r matches Ok(c) ==> if m == 0 {
                c == (if n == 0 { 0int } else { 1int })
            } else {
                &&& 1 <= c <= n
                &&& avg_state(orig, c - 1, h, m, cs as nat).1 < m
                &&& avg_state(orig, c as int, h, m, cs as nat).1 == m
            })
    }
}

/// A phase never takes back chunks, and never goes past the stream.
pub proof fn lemma_phase_bounds(w: nat, total: nat, cs: nat, room: nat)
    requires
        cs >= 1,
    ensures
        avg_phase(w, total, cs, room).1 >= w,
        w <= total ==> avg_phase(w, total, cs, room).1 <= total,
        cs * avg_phase(w, total, cs, room).0 <= room,
{
    vstd::arithmetic::div_mod::lemma_fundamental_div_mod(room as int, cs as int);
    vstd::arithmetic::div_mod::lemma_mod_pos_bound(room as int, cs as int);
    let q = room / cs;
    if w < total && q >= total - w {
        let d: int = total - w;
        assert(cs * d <= cs * q) by (nonlinear_arith) requires d <= q, cs >= 1, d >= 0;
    }
}

/// The message chunks written stay within the stream.
pub proof fn lemma_avg_state_bound(imgs: Seq<Img>, j: int, h: nat, m: nat, cs: nat)
    requires
        cs >= 1,
    ensures
        avg_state(imgs, j, h, m, cs).1 <= m,
    decreases j,
{
    if 0 < j <= imgs.len() {
        lemma_avg_state_bound(imgs, j - 1, h, m, cs);
        let s = avg_state(imgs, j - 1, h, m, cs);
        let l = imgs[j - 1].chans@.len();
        let ph = avg_phase(s.0, h, 8, l);
        lemma_phase_bounds(s.0, h, 8, l);
        if !ph.2 {
            lemma_phase_bounds(s.1, m, cs, (l - 8 * ph.0) as nat);
        }
    }
}

/// The message chunks written only grow from image to image.
pub proof fn lemma_avg_state_mono(imgs: Seq<Img>, i: int, j: int, h: nat, m: nat, cs: nat)
    requires
        0 <= i <= j <= imgs.len(),
        cs >= 1,
    ensures
        avg_state(imgs, i, h, m, cs).1 <= avg_state(imgs, j, h, m, cs).1,
    decreases j - i,
{
    if i < j {
        lemma_avg_state_mono(imgs, i, j - 1, h, m, cs);
        let s = avg_state(imgs, j - 1, h, m, cs);
        let l = imgs[j - 1].chans@.len();
        let ph = avg_phase(s.0, h, 8, l);
        lemma_phase_bounds(s.0, h, 8, l);
        if !ph.2 {
            lemma_phase_bounds(s.1, m, cs, (l - 8 * ph.0) as nat);
        }
    }
}

impl AvgSumHider {
    /// The writer of the header: 4 bits a chunk of 8 channels.
    pub fn header_writer(&self) -> (r: Result<AvgSumHideBlockWriter>)
        ensures
            r is Err <==> self.msg@.len() > u32::MAX,
            r is Err ==> r == Err::<AvgSumHideBlockWriter, Error>(Error::TooBigMsg),
            r matches Ok(w) ==> {
                &&& w.wf()
                &&& w.bits() == 4
                &&& w.chunk_size() == 8
                &&& w.written() == 0
                &&& w.data() == avg_header(self.ty, self.bits_per_chunk, self.chunk_size, self.msg@.len())
            },
    {
        let msg_len = self.msg.len();
        Error::test_too_big_msg(msg_len)?;
        let lb = u32_to_le_bytes(msg_len as u32);
        let mut header: Vec<u8> = Vec::new();
        header.push(self.ty.to_u8());
        header.push(self.bits_per_chunk);
        header.push(self.chunk_size);
        header.push(lb[0]);
        header.push(lb[1]);
        header.push(lb[2]);
        header.push(lb[3]);
        assert(header@ =~= avg_header(self.ty, self.bits_per_chunk, self.chunk_size, self.msg@.len()));
        Ok(AvgSumHideBlockWriter::new(header, 4, 8))
    }

    /// Hides the message in `imgs`, the images at `initial_img` in order, and gives how many
    /// of them (from the first) were changed.
    pub fn hide_msg(self, imgs: &mut Vec<Img>) -> (r: Result<usize>)
        requires
            1 <= self.bits_per_chunk <= 6,
            2 <= self.chunk_size <= 64,
        ensures
            avg_hidden(old(imgs)@, final(imgs)@, r, self.msg@, self.ty, self.bits_per_chunk, self.chunk_size),
    {
        let mut hw = match self.header_writer() {
            Ok(w) => w,
            Err(e) => return Err(e),
        };
        let bits = self.bits_per_chunk;
        let cs = self.chunk_size;
        let ghost msg = self.msg@;
        let ghost hdr = hw.data();
        let mut mw = AvgSumHideBlockWriter::new(self.msg, bits, cs);
        let ghost h = stream_len(hdr, 4);
        let ghost m = stream_len(msg, bits);
        let ghost orig = imgs@;
        let mut chunks = TopBottomChunks::new();
        let n = imgs.len();
        let mut i: usize = 0;
        proof {
            assert(m == 0 <==> msg.len() == 0) by (nonlinear_arith) requires m == msg.len() * chunks_per_byte(bits), chunks_per_byte(bits) >= 1;
        }
        while i < n
            invariant_except_break
                i >= 1 ==> mw.remaining() > 0,
                m == 0 ==> i == 0,
            invariant
                n == imgs@.len(),
                n == orig.len(),
                hw.wf(),
                hw.data() == hdr,
                hw.bits() == 4,
                hw.chunk_size() == 8,
                mw.wf(),
                mw.data() == msg,
                mw.bits() == bits,
                mw.chunk_size() == cs,
                1 <= bits <= 6,
                2 <= cs <= 64,
                h == stream_len(hdr, 4),
                m == stream_len(msg, bits),
                m == 0 <==> msg.len() == 0,
                i <= n,
                (hw.written(), mw.written()) == avg_state(orig, i as int, h, m, cs as nat),
                m > 0 && i >= 1 ==> avg_state(orig, i - 1, h, m, cs as nat).1 < m,
                forall|j: int| 0 <= j < i ==> {
                    let st = avg_state(orig, j, h, m, cs as nat);
                    &&& avg_img_ok(orig[j].chans@, (#[trigger] imgs@[j]).chans@, hdr, msg, bits, cs as nat, st.0, st.1)
                    &&& imgs@[j].width == orig[j].width
                    &&& imgs@[j].height == orig[j].height
                    &&& imgs@[j].path == orig[j].path
                },
                forall|j: int| i <= j < n ==> #[trigger] imgs@[j] == orig[j],
            ensures
                i <= n,
                mw.wf(),
                mw.data() == msg,
                mw.bits() == bits,
                mw.written() == avg_state(orig, i as int, h, m, cs as nat).1,
                m > 0 && i >= 1 ==> avg_state(orig, i - 1, h, m, cs as nat).1 < m,
                i < n ==> mw.remaining() == 0 && i >= 1,
                m == 0 ==> i <= 1,
                forall|j: int| 0 <= j < i ==> {
                    let st = avg_state(orig, j, h, m, cs as nat);
                    &&& avg_img_ok(orig[j].chans@, (#[trigger] imgs@[j]).chans@, hdr, msg, bits, cs as nat, st.0, st.1)
                    &&& imgs@[j].width == orig[j].width
                    &&& imgs@[j].height == orig[j].height
                    &&& imgs@[j].path == orig[j].path
                },
                forall|j: int| i <= j < n ==> #[trigger] imgs@[j] == orig[j],
            decreases n - i,
        {
            let mut img = imgs.remove(i);
            assert(img == orig[i as int]);
            hide_in_img(&mut hw, &mut mw, &mut chunks, &mut img.chans);
            proof { mw.lemma_wf(); }
            imgs.insert(i, img);
            i = i + 1;
            proof {
                assert forall|j: int| i <= j < n implies #[trigger] imgs@[j] == orig[j] by {}
            }
            if mw.is_done() {
                break;
            }
        }
        proof {
            lemma_avg_state_mono(orig, i as int, n as int, h, m, cs as nat);
            lemma_avg_state_bound(orig, n as int, h, m, cs as nat);
        }
        if !mw.is_done() {
            let left = mw.bytes_left();
            proof {
                let w = mw.written();
                let c = chunks_per_byte(bits);
                assert(w / c < msg.len()) by (nonlinear_arith)
                    requires w < msg.len() * c, c >= 1;
            }
            // the byte being cut is not completely hidden either
            return Err(Error::NotEnoughSizeOfInit(left + 1));
        }
        Ok(i)
    }
}

/// The parts that chunks of `cs` channels carry: their sums modulo `2^k`, the channels that do
/// not make a whole chunk at the end left out.
pub open spec fn chunk_parts(c: Seq<u8>, cs: nat, k: u8) -> Seq<u8> {
    Seq::new(c.len() / cs, |t: int| (sum_of(c.subrange(cs * t, cs * t + cs)) % ((1u16 << k) as int)) as u8)
}

/// Reads bytes from the sums of chunks of channels until a buffer of known size is full.
struct AvgSumChunkReader {
    reader: ConstBytesReader,
    buf: Vec<u8>,
    expected_size: usize,
    chunk_size: u8,
    rem: u16,
}

impl AvgSumChunkReader {
    /// (byte so far, bits filled, bytes completed)
    closed spec fn state(&self) -> (u8, u8, Seq<u8>) {
        (self.reader@.0, self.reader@.1, self.buf@)
    }

    closed spec fn expected(&self) -> nat {
        self.expected_size as nat
    }

    closed spec fn bits(&self) -> u8 {
        self.reader@.2
    }

    closed spec fn chunk(&self) -> u8 {
        self.chunk_size
    }

    closed spec fn wf(&self) -> bool {
        &&& self.reader@.2 < 16
        &&& self.reader@.1 < 8
        &&& self.rem == 1u16 << self.reader@.2
        &&& self.rem >= 1
        &&& self.buf@.len() <= self.expected_size
        &&& self.chunk_size >= 1
    }

    fn new(expected_size: usize, chunk_size: u8, bits_per_chunk: u8) -> (r: Self)
        requires
            bits_per_chunk < 16,
            chunk_size >= 1,
        ensures
            r.wf(),
            r.state() == (0u8, 0u8, Seq::<u8>::empty()),
            r.expected() == expected_size,
            r.bits() == bits_per_chunk,
            r.chunk() == chunk_size,
    {
        let rem = 1u16 << bits_per_chunk;
        assert(rem >= 1) by (bit_vector) requires rem == 1u16 << bits_per_chunk, bits_per_chunk < 16;
        let reader = ConstBytesReader::new(bits_per_chunk);
        Self { reader, buf: Vec::new(), expected_size, chunk_size, rem }
    }

    fn is_done(&self) -> (r: bool)
        ensures
            r == (self.state().2.len() == self.expected()),
    {
        self.buf.len() == self.expected_size
    }

    /// Reads the chunks of `chans[pos..]` until the buffer is full; tells whether the channels
    /// ran out first, and where reading stopped.
    fn read_while_can(&mut self, chans: &[u8], pos: usize) -> (r: (bool, usize))
        requires
            old(self).wf(),
            pos <= chans@.len(),
        ensures
            final(self).wf(),
            final(self).expected() == old(self).expected(),
            final(self).bits() == old(self).bits(),
            final(self).chunk() == old(self).chunk(),
            ({
                let rf = read_fill(old(self).state(), chunk_parts(chans@.skip(pos as int), old(self).chunk() as nat, old(self).bits()), old(self).bits(), old(self).expected());
                &&& final(self).state() == rf.0
                &&& r.1 == pos + old(self).chunk() * rf.1
                &&& r.1 <= chans@.len()
                &&& r.0 == (rf.0.2.len() < old(self).expected())
            }),
    {
        let ghost k = self.reader@.2;
        let ghost cs = self.chunk_size as nat;
        let ghost exp = self.expected_size as nat;
        let ghost parts = chunk_parts(chans@.skip(pos as int), cs, k);
        let ghost st0 = self.state();
        let ghost mut j: nat = 0;
        let len = chans.len();
        let cs_u = self.chunk_size as usize;
        let mut p = pos;
        proof {
            assert(parts.skip(0) =~= parts);
        }
        while self.buf.len() != self.expected_size
            invariant
                self.wf(),
                self.reader@.2 == k,
                self.chunk_size == cs,
                cs_u == cs,
                self.expected_size == exp,
                exp == old(self).expected(),
                k == old(self).bits(),
                cs == old(self).chunk(),
                st0 == old(self).state(),
                len == chans@.len(),
                parts == chunk_parts(chans@.skip(pos as int), cs, k),
                p == pos + cs * j,
                p <= len,
                j <= parts.len(),
                read_fill(st0, parts, k, exp) == ({
                    let r = read_fill(self.state(), parts.skip(j as int), k, exp);
                    (r.0, j + r.1)
                }),
            decreases parts.len() - j,
        {
            proof {
                vstd::arithmetic::div_mod::lemma_fundamental_div_mod((len - pos) as int, cs as int);
                vstd::arithmetic::div_mod::lemma_mod_pos_bound((len - pos) as int, cs as int);
            }
            if len - p < cs_u {
                proof {
                    lemma_fit(len as int, pos as int, cs as int, j as int);
                    assert(parts.skip(j as int).len() == 0);
                }
                return (true, p);
            }
            proof {
                assert(cs * (j + 1) == cs * j + cs) by (nonlinear_arith);
                lemma_fit_at_least(len as int, pos as int, cs as int, (j + 1) as int);
            }
            let mut sum: u16 = 0;
            let mut i: usize = 0;
            while i < cs_u
                invariant
                    p + cs_u <= len,
                    len == chans@.len(),
                    i <= cs_u,
                    cs_u <= 255,
                    sum == sum_of(chans@.subrange(p as int, (p + i) as int)),
                    sum <= 255 * i,
                decreases cs_u - i,
            {
                proof {
                    assert(chans@.subrange(p as int, (p + i + 1) as int).drop_last() =~= chans@.subrange(p as int, (p + i) as int));
                }
                assert(255 * i + 255 <= 255 * 255) by (nonlinear_arith) requires i < cs_u, cs_u <= 255;
                sum = sum + chans[p + i] as u16;
                i = i + 1;
            }
            let part = (sum % self.rem) as u8;
            let ghost before = self.state();
            if let Some(byte) = self.reader.try_take_next_le_byte(part) {
                self.buf.push(byte);
            }
            proof {
                let rest = parts.skip(j as int);
                assert(chans@.skip(pos as int).subrange((cs * j) as int, (cs * j + cs) as int) =~= chans@.subrange(p as int, p + cs));
                assert(rest[0] == parts[j as int]);
                assert(parts[j as int] == part);
                assert(self.state() == feed_step(before, part, k));
                assert(rest.drop_first() =~= parts.skip((j + 1) as int));
            }
            p = p + cs_u;
            proof {
                j = j + 1;
            }
        }
        proof {
            assert(read_fill(self.state(), parts.skip(j as int), k, exp) == (self.state(), 0nat));
        }
        (false, p)
    }

    fn left_to_read(&self) -> (r: usize)
        requires
            self.wf(),
        ensures
            r == self.expected() - self.state().2.len(),
    {
        self.expected_size - self.buf.len()
    }

    fn take_buf(self) -> (r: Vec<u8>)
        ensures
            r@ == self.state().2,
    {
        self.buf
    }
}

/// How revealing by the average-sum method can fail.
pub enum AvgSumFail {
    /// An error that carries no text.
    Plain(Error),
    /// The header's bits per chunk are 16 or more, or they and its chunk size are both 0 for
    /// a message that is not empty (no chunk would ever carry a bit).
    BadChunks,
}

/// Whether `r` is what the spec result `s` describes.
pub open spec fn avg_reveal_is(s: std::result::Result<(Seq<u8>, MsgType), AvgSumFail>, r: Result<(Vec<u8>, MsgType)>) -> bool {
    match s {
        Ok((m, t)) => r matches Ok((v, t2)) && v@ == m && t2 == t,
        Err(AvgSumFail::Plain(e)) => r == Err::<(Vec<u8>, MsgType), Error>(e),
        Err(AvgSumFail::BadChunks) => r matches Err(Error::Other(s)) && s@ == "Invalid chunks in the header"@,
    }
}

/// The message's kind, bits per chunk, chunk size and length, as a complete header gives them.
pub open spec fn avg_header_fields(h: Seq<u8>) -> std::result::Result<(MsgType, u8, u8, nat), AvgSumFail> {
    match spec_msg_type_of(h[0]) {
        None => Err(AvgSumFail::Plain(Error::InvalidMsgTypeByte(h[0]))),
        Some(ty) => if h[1] >= 16 || (h[1] == 0 && h[2] == 0 && le_u32(h.subrange(3, 7)) > 0) {
            Err(AvgSumFail::BadChunks)
        } else {
            Ok((ty, h[1], h[2], le_u32(h.subrange(3, 7))))
        },
    }
}

/// Reading the method's header and message from images, one after another: the header read
/// so far and, once it is complete, the message's kind, bits, chunk size, length and what was
/// read of it.
pub open spec fn avg_reveal_scan(
    hs: (u8, u8, Seq<u8>),
    ms: Option<(MsgType, u8, u8, nat, (u8, u8, Seq<u8>))>,
    imgs: Seq<Img>,
) -> std::result::Result<((u8, u8, Seq<u8>), Option<(MsgType, u8, u8, nat, (u8, u8, Seq<u8>))>), AvgSumFail>
    decreases imgs.len(),
{
    if imgs.len() == 0 {
        Ok((hs, ms))
    } else {
        let c = imgs[0].chans@;
        let rest = imgs.drop_first();
        let hr = if hs.2.len() < 7 { read_fill(hs, chunk_parts(c, 8, 4), 4, 7) } else { (hs, 0nat) };
        let hs2 = hr.0;
        if hs2.2.len() < 7 {
            avg_reveal_scan(hs2, ms, rest)
        } else {
            let ms1 = match ms {
                Some(x) => Ok(x),
                None => match avg_header_fields(hs2.2) {
                    Err(e) => Err(e),
                    Ok((ty, k, cs, len)) => Ok((ty, k, cs, len, (0u8, 0u8, Seq::<u8>::empty()))),
                },
            };
            match ms1 {
                Err(e) => Err(e),
                Ok((ty, k, cs, len, m)) => if cs == 0 {
                    // chunks of no channels: every one sums to 0, and the message is zeros
                    Ok((hs2, Some((ty, k, cs, len, (0u8, 0u8, Seq::new(len, |i: int| 0u8))))))
                } else {
                    let m2 = read_fill(m, chunk_parts(c.skip((8 * hr.1) as int), cs as nat, k), k, len).0;
                    let ms2 = Some((ty, k, cs, len, m2));
                    if m2.2.len() >= len {
                        Ok((hs2, ms2))
                    } else {
                        avg_reveal_scan(hs2, ms2, rest)
                    }
                },
            }
        }
    }
}

/// What the method reveals from the modified images.
pub open spec fn spec_avg_reveal(imgs: Seq<Img>) -> std::result::Result<(Seq<u8>, MsgType), AvgSumFail> {
    match avg_reveal_scan((0u8, 0u8, Seq::<u8>::empty()), None, imgs) {
        Err(e) => Err(e),
        Ok((_, ms)) => match ms {
            None => Err(AvgSumFail::Plain(Error::UnreadedHeader)),
            Some((ty, _, _, len, m)) => if m.2.len() < len {
                Err(AvgSumFail::Plain(Error::UnfullResult((len - m.2.len()) as usize)))
            } else {
                Ok((m.2, ty))
            },
        },
    }
}

/// The spec state of an optional message reader of kind `ty`.
closed spec fn avg_ms_of(mr: &Option<AvgSumChunkReader>, ty: MsgType) -> Option<(MsgType, u8, u8, nat, (u8, u8, Seq<u8>))> {
    match mr {
        Some(m) => Some((ty, m.bits(), m.chunk(), m.expected(), m.state())),
        None => None,
    }
}

/// Reveals what [`AvgSumHider`] hid, from the modified images alone.
pub struct AvgSumRevealer {
    pub modified_img: Vec<String>,
    pub save_path: Option<String>,
}

impl AvgSumRevealer {
    /// The reader of the message that a complete `header` announces (none for chunks of no
    /// channels), with the message's kind and length.
    fn msg_reader_ctor(header: &Vec<u8>) -> (r: Result<(Option<AvgSumChunkReader>, MsgType, usize)>)
        requires
            header@.len() == 7,
        ensures
            match avg_header_fields(header@) {
                Ok((ty, k, cs, len)) => r matches Ok((mo, t, l)) && t == ty && l == len && (cs == 0 <==> mo is None)
                    && (mo matches Some(m) ==> m.wf() && m.state() == (0u8, 0u8, Seq::<u8>::empty())
                        && m.expected() == len && m.bits() == k && m.chunk() == cs),
                Err(AvgSumFail::Plain(e)) => r == Err::<(Option<AvgSumChunkReader>, MsgType, usize), Error>(e),
                Err(AvgSumFail::BadChunks) => r matches Err(Error::Other(s)) && s@ == "Invalid chunks in the header"@,
            },
    {
        let ty = match MsgType::try_from_u8(header[0]) {
            Some(t) => t,
            None => return Err(Error::InvalidMsgTypeByte(header[0])),
        };
        let bits_per_chunk = header[1];
        let chunk_size = header[2];
        let len_bytes: [u8; 4] = [header[3], header[4], header[5], header[6]];
        proof { assert(len_bytes@ =~= header@.subrange(3, 7)); }
        let len32 = u32_from_le_bytes(len_bytes);
        if bits_per_chunk >= 16 || (bits_per_chunk == 0 && chunk_size == 0 && len32 > 0) {
            return Err(Error::Other(String::from_str("Invalid chunks in the header")));
        }
        let msg_len = len32 as usize;
        if chunk_size == 0 {
            Ok((None, ty, msg_len))
        } else {
            Ok((Some(AvgSumChunkReader::new(msg_len, chunk_size, bits_per_chunk)), ty, msg_len))
        }
    }

    /// Reads the hidden message from `modified`, the images at `modified_img`, in order.
    pub fn reveal_msg(&self, modified: &Vec<Img>) -> (r: Result<(Vec<u8>, MsgType)>)
        ensures
            avg_reveal_is(spec_avg_reveal(modified@), r),
    {
        let mut hr = AvgSumChunkReader::new(7, 8, 4);
        let mut mr: Option<AvgSumChunkReader> = None;
        let mut ty = MsgType::Reserved;
        let n = modified.len();
        let mut i: usize = 0;
        let ghost init = (0u8, 0u8, Seq::<u8>::empty());
        proof {
            assert(modified@.skip(0) =~= modified@);
        }
        while i < n
            invariant_except_break
                avg_reveal_scan(init, None, modified@) == avg_reveal_scan(hr.state(), avg_ms_of(&mr, ty), modified@.skip(i as int)),
            invariant
                i <= n,
                n == modified@.len(),
                init == (0u8, 0u8, Seq::<u8>::empty()),
                hr.wf(),
                hr.expected() == 7,
                hr.bits() == 4,
                hr.chunk() == 8,
                hr.state().2.len() < 7 ==> mr is None,
                hr.state().2.len() >= 7 ==> mr is Some,
                mr matches Some(m) ==> m.wf(),
            ensures
                avg_reveal_scan(init, None, modified@) == Ok::<_, AvgSumFail>((hr.state(), avg_ms_of(&mr, ty))),
                mr matches Some(m) ==> m.wf(),
            decreases n - i,
        {
            let c = &modified[i].chans;
            let ghost sk = modified@.skip(i as int);
            let ghost st_hs = hr.state();
            proof {
                assert(sk[0] == modified@[i as int]);
                assert(sk.drop_first() =~= modified@.skip(i + 1));
                assert(c@.skip(0) =~= c@);
            }
            let (ended, pos) = hr.read_while_can(c.as_slice(), 0);
            proof {
                if st_hs.2.len() >= 7 {
                    assert(chunk_parts(c@, 8, 4).len() >= 0);
                }
            }
            if ended {
                i = i + 1;
                proof {
                    if i >= n {
                        assert(modified@.skip(i as int).len() == 0);
                    }
                }
                continue;
            }
            if mr.is_none() {
                match Self::msg_reader_ctor(&hr.buf) {
                    Ok((Some(m), t, _)) => {
                        mr = Some(m);
                        ty = t;
                    },
                    Ok((None, t, len)) => {
                        let zeros = vec![0u8; len];
                        proof {
                            assert(zeros@ =~= Seq::new(len as nat, |i: int| 0u8));
                        }
                        return Ok((zeros, t));
                    },
                    Err(e) => return Err(e),
                }
            }
            let mut done = false;
            match mr {
                Some(mut m) => {
                    let (m_ended, _p2) = m.read_while_can(c.as_slice(), pos);
                    done = !m_ended;
                    mr = Some(m);
                },
                None => {},
            }
            i = i + 1;
            proof {
                if i >= n {
                    assert(modified@.skip(i as int).len() == 0);
                }
            }
            if done {
                break;
            }
        }
        let m = match mr {
            Some(m) => m,
            None => return Err(Error::UnreadedHeader),
        };
        if !m.is_done() {
            return Err(Error::UnfullResult(m.left_to_read()));
        }
        Ok((m.take_buf(), ty))
    }
}

} // verus!
