//! What the average-sum method reveals of what it hid.

use vstd::prelude::*;
use crate::bits::{low_mask, stream_chunk, stream_len, chunks_per_byte, lemma_stream_chunk_small, le_bytes_of, lemma_le_bytes_roundtrip};
use crate::reader::feed;
use crate::laws::stream_prefix;
use crate::msg::MsgType;
use crate::error::Result;
use crate::png::img::Img;
use crate::png::avg_sum::{avg_hidden, avg_header, avg_img_ok, avg_state, avg_phase, avg_chunk_at, chunk_parts,
    avg_header_fields, avg_reveal_scan, spec_avg_reveal, lemma_avg_state_mono, lemma_fit_at_least, lemma_phase_bounds,
    avg_step, lemma_chunk_inside, AvgSumFail};
use crate::png::less_sign_laws::{fresh_state, lemma_read_stream, lemma_prefix_state};

verus! {

/// The modulus of `k` bits, as a shift and as the mask plus one.
proof fn lemma_rem(k: u8)
    by (bit_vector)
    requires
        1 <= k <= 6,
    ensures
        (1u16 << k) as int == low_mask(k) as int + 1,
{
}

/// The parts that a chunk's sum carries, as the reading side computes them, are the chunks
/// that the hiding side put there.
proof fn lemma_parts_of_chunks(a: Seq<u8>, c: Seq<u8>, data: Seq<u8>, bits: u8, cs: nat, start: int, first: nat, t: int)
    requires
        1 <= bits <= 6,
        cs >= 1,
        0 <= start,
        0 <= t,
        start + cs * t + cs <= c.len(),
        avg_chunk_at(a, c, data, bits, cs, start, first, t),
    ensures
        chunk_parts(c.skip(start), cs, bits)[t] == stream_chunk(data, bits, (first + t) as nat),
        t < chunk_parts(c.skip(start), cs, bits).len(),
{
    lemma_rem(bits);
    lemma_stream_chunk_small(data, bits, (first + t) as nat);
    let s = start + cs * t;
    assert(c.skip(start).subrange(cs * t, cs * t + cs) =~= c.subrange(s, s + cs));
    assert(cs * (t + 1) == cs * t + cs) by (nonlinear_arith);
    lemma_fit_at_least(c.len() as int, start, cs as int, t + 1);
}


/// The chunks written after any number of images: no more than the streams hold, and no
/// message chunk before the header is whole.
proof fn lemma_avg_state_inv(imgs: Seq<Img>, j: int, h: nat, m: nat, cs: nat)
    requires
        cs >= 1,
    ensures
        avg_state(imgs, j, h, m, cs).0 <= h,
        avg_state(imgs, j, h, m, cs).1 <= m,
        avg_state(imgs, j, h, m, cs).0 < h ==> avg_state(imgs, j, h, m, cs).1 == 0,
    decreases j,
{
    if 0 < j <= imgs.len() {
        lemma_avg_state_inv(imgs, j - 1, h, m, cs);
        let s = avg_state(imgs, j - 1, h, m, cs);
        let l = imgs[j - 1].chans@.len();
        let ph = avg_phase(s.0, h, 8, l);
        lemma_phase_bounds(s.0, h, 8, l);
        if !ph.2 {
            lemma_phase_bounds(s.1, m, cs, (l - 8 * ph.0) as nat);
        }
    }
}

/// Where revealing stands once `hw` header chunks and `mw` message chunks were read.
pub open spec fn avg_scan_at(hw: nat, mw: nat, hdr: Seq<u8>, msg: Seq<u8>, ty: MsgType, bits: u8, cs: u8)
    -> ((u8, u8, Seq<u8>), Option<(MsgType, u8, u8, nat, (u8, u8, Seq<u8>))>)
{
    (
        feed(fresh_state(), stream_prefix(hdr, 4, hw), 4),
        if hw < stream_len(hdr, 4) {
            None
        } else {
            Some((ty, bits, cs, msg.len(), feed(fresh_state(), stream_prefix(msg, bits, mw), bits)))
        },
    )
}

/// Revealing the images from number `i` on, where hiding had not finished, reads on until the
/// header and the message are whole.
proof fn lemma_avg_scan_from(orig: Seq<Img>, fin: Seq<Img>, r: Result<usize>, msg: Seq<u8>, ty: MsgType, bits: u8, cs: u8, i: int)
    requires
        avg_hidden(orig, fin, r, msg, ty, bits, cs),
        1 <= bits <= 6,
        2 <= cs <= 64,
        msg.len() <= u32::MAX,
        ty == MsgType::Txt || ty == MsgType::File,
        r is Ok,
        0 <= i < r->Ok_0,
        avg_state(orig, r->Ok_0 as int, 14, stream_len(msg, bits), cs as nat) == (14nat, stream_len(msg, bits)),
        avg_state(orig, i, 14, stream_len(msg, bits), cs as nat) != (14nat, stream_len(msg, bits)),
    ensures
        ({
            let hdr = avg_header(ty, bits, cs, msg.len());
            let st = avg_state(orig, i, 14, stream_len(msg, bits), cs as nat);
            let sc = avg_scan_at(st.0, st.1, hdr, msg, ty, bits, cs);
            avg_reveal_scan(sc.0, sc.1, fin.skip(i)) == Ok::<_, AvgSumFail>(avg_scan_at(14, stream_len(msg, bits), hdr, msg, ty, bits, cs))
        }),
    decreases r->Ok_0 - i,
{
    let hdr = avg_header(ty, bits, cs, msg.len());
    let h = stream_len(hdr, 4);
    let m = stream_len(msg, bits);
    let n = orig.len();
    let c = r->Ok_0 as int;
    assert(hdr.len() == 7);
    assert(h == 14);
    assert(c <= n);
    let st = avg_state(orig, i, h, m, cs as nat);
    lemma_avg_state_inv(orig, i, h, m, cs as nat);
    let a = orig[i].chans@;
    let b = fin[i].chans@;
    let l = a.len();
    assert(avg_img_ok(a, b, hdr, msg, bits, cs as nat, st.0, st.1));
    reveal(avg_img_ok);
    assert(b.len() == l);
    let next = avg_state(orig, i + 1, h, m, cs as nat);
    assert(next == avg_step(st.0, st.1, h, m, cs as nat, l));
    let sk = fin.skip(i);
    assert(sk[0] == fin[i]);
    assert(sk.drop_first() =~= fin.skip(i + 1));
    let ph = avg_phase(st.0, h, 8, l);
    lemma_phase_bounds(st.0, h, 8, l);
    let hs = feed(fresh_state(), stream_prefix(hdr, 4, st.0), 4);
    lemma_prefix_state(hdr, 4, st.0);
    lemma_prefix_state(hdr, 4, h);
    assert(hdr.take(7) =~= hdr);
    if st.0 < 14 {
        // the header goes on in this image
        let hp = chunk_parts(b, 8, 4);
        let u = ph.0;
        assert(b.skip(0) =~= b);
        assert forall|t: int| 0 <= t < u implies hp[t] == stream_chunk(hdr, 4, (st.0 + t) as nat) by {
            lemma_chunk_inside(0, 8, t, u as int);
            assert(avg_chunk_at(a, b, hdr, 4, 8, 0, st.0, t));
            lemma_parts_of_chunks(a, b, hdr, 4, 8, 0, st.0, t);
        }
        assert(hp.len() == l / 8);
        lemma_read_stream(hdr, 4, st.0, hp, u);
        lemma_prefix_state(hdr, 4, st.0 + u);
        if ph.2 {
            assert(next == (st.0 + u, st.1));
            if i + 1 == c {
                assert(false);
            }
            lemma_avg_scan_from(orig, fin, r, msg, ty, bits, cs, i + 1);
            return;
        }
        assert(st.0 + u == 14);
        assert(st.1 == 0);
        lemma_le_bytes_roundtrip(msg.len());
        assert(hdr.subrange(3, 7) =~= le_bytes_of(msg.len()));
        assert(avg_header_fields(hdr) == Ok::<_, AvgSumFail>((ty, bits, cs, msg.len())));
        assert(stream_prefix(msg, bits, 0) =~= Seq::<u8>::empty());
    } else {
        assert(st.0 == 14);
        assert(ph == (0nat, 14nat, false));
    }
    // the message goes on in this image, after the header's chunks
    let pos = 8 * ph.0;
    let pm = avg_phase(st.1, m, cs as nat, (l - pos) as nat);
    lemma_phase_bounds(st.1, m, cs as nat, (l - pos) as nat);
    let km = pm.0;
    let mp = chunk_parts(b.skip(pos as int), cs as nat, bits);
    assert forall|t: int| 0 <= t < km implies mp[t] == stream_chunk(msg, bits, (st.1 + t) as nat) by {
        lemma_chunk_inside(pos as int, cs as int, t, km as int);
        assert(avg_chunk_at(a, b, msg, bits, cs as nat, pos as int, st.1, t));
        lemma_parts_of_chunks(a, b, msg, bits, cs as nat, pos as int, st.1, t);
    }
    assert(mp.len() == ((l - pos) as nat) / (cs as nat));
    lemma_read_stream(msg, bits, st.1, mp, km);
    lemma_prefix_state(msg, bits, st.1 + km);
    assert(next == (14nat, st.1 + km));
    if st.1 + km < m {
        if i + 1 == c {
            assert(false);
        }
        lemma_avg_scan_from(orig, fin, r, msg, ty, bits, cs, i + 1);
    }
}

/// Revealing what the average-sum method hid gives back the message and its kind, whenever the
/// hiding succeeded, over as many images as it took. An empty message needs its header in
/// the first image, since hiding it changes that image only.
pub proof fn law_avg_sum_roundtrip(orig: Seq<Img>, fin: Seq<Img>, r: Result<usize>, msg: Seq<u8>, ty: MsgType, bits: u8, cs: u8)
    requires
        avg_hidden(orig, fin, r, msg, ty, bits, cs),
        1 <= bits <= 6,
        2 <= cs <= 64,
        msg.len() <= u32::MAX,
        ty == MsgType::Txt || ty == MsgType::File,
        r is Ok,
        msg.len() == 0 ==> orig.len() >= 1 && 8 * 14 <= orig[0].chans@.len(),
    ensures
        spec_avg_reveal(fin) == Ok::<(Seq<u8>, MsgType), AvgSumFail>((msg, ty)),
{
    let hdr = avg_header(ty, bits, cs, msg.len());
    let h = stream_len(hdr, 4);
    let m = stream_len(msg, bits);
    let n = orig.len();
    let c = r->Ok_0 as int;
    assert(hdr.len() == 7);
    assert(h == 14);
    assert((m == 0) == (msg.len() == 0)) by (nonlinear_arith)
        requires m == msg.len() * chunks_per_byte(bits), chunks_per_byte(bits) >= 1;
    lemma_avg_state_inv(orig, c, h, m, cs as nat);
    if m == 0 {
        let l = orig[0].chans@.len();
        lemma_fit_at_least(l as int, 0, 8, 14);
        assert(avg_state(orig, 0, h, m, cs as nat) == (0nat, 0nat));
        assert(avg_phase(0, h, 8, l) == (14nat, 14nat, false));
        assert(avg_state(orig, 1, h, m, cs as nat) == (14nat, 0nat));
    }
    assert(avg_state(orig, c, h, m, cs as nat) == (14nat, m));
    assert(avg_state(orig, 0, h, m, cs as nat) == (0nat, 0nat));
    lemma_avg_scan_from(orig, fin, r, msg, ty, bits, cs, 0);
    assert(fin.skip(0) =~= fin);
    assert(stream_prefix(hdr, 4, 0) =~= Seq::<u8>::empty());
    lemma_prefix_state(msg, bits, m);
    assert(msg.take(msg.len() as int) =~= msg);
}

/// When the first image holds the header's chunks and the whole message, hiding succeeds and
/// changes that image only, and revealing gives back the message and its kind.
pub proof fn law_avg_sum_one_image(orig: Seq<Img>, fin: Seq<Img>, r: Result<usize>, msg: Seq<u8>, ty: MsgType, bits: u8, cs: u8)
    requires
        avg_hidden(orig, fin, r, msg, ty, bits, cs),
        1 <= bits <= 6,
        2 <= cs <= 64,
        orig.len() >= 1,
        msg.len() <= u32::MAX,
        ty == MsgType::Txt || ty == MsgType::File,
        8 * 14 + cs * stream_len(msg, bits) <= orig[0].chans@.len(),
    ensures
        r == Ok::<usize, crate::error::Error>(1),
        spec_avg_reveal(fin) == Ok::<(Seq<u8>, MsgType), AvgSumFail>((msg, ty)),
{
    let hdr = avg_header(ty, bits, cs, msg.len());
    let h = stream_len(hdr, 4);
    let m = stream_len(msg, bits);
    let n = orig.len();
    let l = orig[0].chans@.len();
    assert(hdr.len() == 7);
    assert(h == 14);
    assert(m >= msg.len()) by (nonlinear_arith) requires m == msg.len() * chunks_per_byte(bits), chunks_per_byte(bits) >= 1;
    // the first image takes everything
    lemma_fit_at_least(l as int, 0, 8, 14);
    lemma_fit_at_least(l as int, 112, cs as int, m as int);
    assert(avg_phase(0, h, 8, l) == (14nat, 14nat, false));
    assert(avg_phase(0, m, cs as nat, (l - 112) as nat) == (m, m, false));
    assert(avg_state(orig, 0, h, m, cs as nat) == (0nat, 0nat));
    assert(avg_state(orig, 1, h, m, cs as nat) == (14nat, m));
    lemma_avg_state_mono(orig, 1, n as int, h, m, cs as nat);
    crate::png::avg_sum::lemma_avg_state_bound(orig, n as int, h, m, cs as nat);
    let c = r->Ok_0 as int;
    if c >= 2 {
        lemma_avg_state_mono(orig, 1, c - 1, h, m, cs as nat);
    }
    assert(c == 1);
    law_avg_sum_roundtrip(orig, fin, r, msg, ty, bits, cs);
}

} // verus!
