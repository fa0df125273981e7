//! What the least-significant-bits method reveals of what it hid.

use vstd::prelude::*;
use crate::bits::{low_mask, stream_chunk, stream_len, chunks_per_byte, lemma_stream_chunk_small};
use crate::reader::{feed, read_fill, masked, lemma_read_fill};
use crate::laws::{stream_prefix, lemma_feed_stream_prefix, law_chunks_roundtrip};
use crate::bits::{le_bytes_of, le_u32, lemma_le_bytes_roundtrip, chunk_of};
use crate::msg::{MsgType, spec_msg_type_byte, spec_msg_type_of};
use crate::error::Result;
use crate::png::img::Img;
use crate::png::less_sign::{hide_low, gray_of, less_sign_header, less_sign_value, less_sign_img, carriers, carriers_before,
    clamp, gray_seed, less_sign_hidden, carrier_vals, spec_gray_of_pixel, ls_header_fields, ls_reveal_scan,
    spec_less_sign_reveal, lemma_carriers_before_mono, LessSignFail};

verus! {

/// The assembler's state at the start.
pub open spec fn fresh_state() -> (u8, u8, Seq<u8>) {
    (0u8, 0u8, Seq::<u8>::empty())
}

/// Feeding two runs of chunks is feeding the first and then the second.
pub proof fn lemma_feed_concat(st: (u8, u8, Seq<u8>), a: Seq<u8>, b: Seq<u8>, k: u8)
    ensures
        feed(st, a + b, k) == feed(feed(st, a, k), b, k),
    decreases b.len(),
{
    if b.len() == 0 {
        assert(a + b =~= a);
    } else {
        lemma_feed_concat(st, a, b.drop_last(), k);
        let q = a + b;
        assert(q.drop_last() =~= a + b.drop_last());
        assert(q.last() == b.last());
    }
}

/// The bytes completed after the first `i` chunks of the stream of `data`, and whether that is
/// fewer than all of them.
pub proof fn lemma_prefix_state(data: Seq<u8>, k: u8, i: nat)
    requires
        1 <= k <= 7,
        i <= stream_len(data, k),
    ensures
        feed(fresh_state(), stream_prefix(data, k, i), k).2 == data.take((i / chunks_per_byte(k)) as int),
        (i / chunks_per_byte(k)) <= data.len(),
        ((i / chunks_per_byte(k)) < data.len()) == (i < stream_len(data, k)),
{
    lemma_feed_stream_prefix(data, k, i);
    let n = chunks_per_byte(k);
    assert(n >= 1);
    let p = i / n;
    vstd::arithmetic::div_mod::lemma_fundamental_div_mod(i as int, n as int);
    vstd::arithmetic::div_mod::lemma_mod_pos_bound(i as int, n as int);
    let l = data.len();
    assert(i == n * p + i % n);
    if p > l {
        assert(n * p >= n * (l + 1)) by (nonlinear_arith) requires p >= l + 1, n >= 1;
        assert(n * (l + 1) == l * n + n) by (nonlinear_arith);
    }
    if i < l * n {
        if p >= l {
            assert(n * p >= n * l) by (nonlinear_arith) requires p >= l, n >= 1;
            assert(n * l == l * n) by (nonlinear_arith);
        }
    } else {
        assert(i == l * n);
        vstd::arithmetic::div_mod::lemma_fundamental_div_mod_converse(i as int, n as int, l as int, 0);
    }
}

/// Reading chunks that go on with the stream of `data` from its chunk `i0` until all of
/// `data` is assembled: the state reached is that of the longer stream prefix, and `u` chunks
/// are used, where the run ends or the stream does.
pub proof fn lemma_read_stream(data: Seq<u8>, k: u8, i0: nat, parts: Seq<u8>, u: nat)
    requires
        1 <= k <= 7,
        u <= parts.len(),
        i0 + u <= stream_len(data, k),
        forall|j: int| 0 <= j < u ==> parts[j] == stream_chunk(data, k, (i0 + j) as nat),
        i0 + u == stream_len(data, k) || u == parts.len(),
    ensures
        read_fill(feed(fresh_state(), stream_prefix(data, k, i0), k), parts, k, data.len())
            == (feed(fresh_state(), stream_prefix(data, k, i0 + u), k), u),
{
    let st = feed(fresh_state(), stream_prefix(data, k, i0), k);
    assert forall|m: int| 0 <= m < u implies (#[trigger] feed(st, parts.take(m), k)).2.len() < data.len() by {
        lemma_feed_concat(fresh_state(), stream_prefix(data, k, i0), parts.take(m), k);
        assert(stream_prefix(data, k, i0) + parts.take(m) =~= stream_prefix(data, k, (i0 + m) as nat));
        lemma_prefix_state(data, k, (i0 + m) as nat);
    }
    lemma_feed_concat(fresh_state(), stream_prefix(data, k, i0), parts.take(u as int), k);
    assert(stream_prefix(data, k, i0) + parts.take(u as int) =~= stream_prefix(data, k, i0 + u));
    lemma_prefix_state(data, k, i0 + u);
    lemma_read_fill(st, parts, k, data.len(), u);
}

/// A carrier's lowest `k` bits give back the part hidden in them.
pub proof fn lemma_hide_low_mask(c: u8, part: u8, k: u8)
    by (bit_vector)
    requires
        1 <= k <= 7,
        part <= low_mask(k),
    ensures
        hide_low(c, part, k) & low_mask(k) == part,
{
}

/// The last header byte: the bits per carrier below, the gray flag on top.
proof fn lemma_flag_bits(b: u8)
    by (bit_vector)
    requires
        b <= 15,
    ensures
        ((128u8 | b) & 15u8) == b,
        ((128u8 | b) & 128u8) != 0,
        ((0u8 | b) & 15u8) == b,
        ((0u8 | b) & 128u8) == 0,
{
}

/// The lowest bit of the random header bits, as the first header chunk carries it.
proof fn lemma_seed_bit(r: u32, b: u8)
    by (bit_vector)
    ensures
        (((r & !1u32) % 256u32) as u8) & 1u8 == 0u8,
        (((r | 1u32) % 256u32) as u8) & 1u8 == 1u8,
        (b >> 0u8) == b,
        low_mask(1) == 1u8,
{
}

/// Where revealing stands after `st` carriers of a hidden stream: the mode (once a carrier
/// was seen), the header read so far, and once it is complete the message read so far.
pub open spec fn ls_state(st: nat, hdr: Seq<u8>, msg: Seq<u8>, ty: MsgType, bits: u8, gray: bool)
    -> (Option<bool>, (u8, u8, Seq<u8>), Option<(MsgType, u8, nat, (u8, u8, Seq<u8>))>)
{
    let hl = stream_len(hdr, 1);
    (
        if st == 0 { None } else { Some(gray) },
        feed(fresh_state(), stream_prefix(hdr, 1, if st < hl { st } else { hl }), 1),
        if st < hl { None } else { Some((ty, bits, msg.len(), feed(fresh_state(), stream_prefix(msg, bits, (st - hl) as nat), bits))) },
    )
}

/// The carriers of an image made by the method hold the header's chunks, then the message's.
proof fn lemma_cars_masked(b: Seq<u8>, a: Seq<u8>, hdr: Seq<u8>, msg: Seq<u8>, bits: u8, gray: bool, st: nat)
    requires
        b == less_sign_img(a, hdr, msg, bits, gray, st),
        1 <= bits <= 4,
    ensures
        carrier_vals(b, gray).len() == carriers(a, gray),
        ({
            let l = carriers(a, gray);
            let hl = stream_len(hdr, 1);
            let p = clamp(hl - st, 0, l as int);
            let p2 = clamp(hl + stream_len(msg, bits) - st, 0, l as int);
            let cars = carrier_vals(b, gray);
            &&& forall|j: int| 0 <= j < p ==> #[trigger] masked(cars, low_mask(1))[j] == stream_chunk(hdr, 1, (st + j) as nat)
            &&& forall|j: int| p <= j < p2 ==> #[trigger] masked(cars, low_mask(bits))[j] == stream_chunk(msg, bits, (st + j - hl) as nat)
        }),
{
    let l = carriers(a, gray);
    let hl = stream_len(hdr, 1);
    let p = clamp(hl - st, 0, l as int);
    let p2 = clamp(hl + stream_len(msg, bits) - st, 0, l as int);
    let cars = carrier_vals(b, gray);
    assert forall|j: int| 0 <= j < l implies #[trigger] cars[j] == less_sign_value(
        if gray { gray_of(a[3 * j], a[3 * j + 1], a[3 * j + 2]) } else { a[j] }, hdr, msg, bits, st, l, j) by {
        if gray {
            assert(3 * j < 3 * (a.len() / 3));
            assert((3 * j) / 3 == j);
        }
    }
    assert forall|j: int| 0 <= j < p implies #[trigger] masked(cars, low_mask(1))[j] == stream_chunk(hdr, 1, (st + j) as nat) by {
        lemma_stream_chunk_small(hdr, 1, (st + j) as nat);
        let v = if gray { gray_of(a[3 * j], a[3 * j + 1], a[3 * j + 2]) } else { a[j] };
        lemma_hide_low_mask(v, stream_chunk(hdr, 1, (st + j) as nat), 1);
    }
    assert forall|j: int| p <= j < p2 implies #[trigger] masked(cars, low_mask(bits))[j] == stream_chunk(msg, bits, (st + j - hl) as nat) by {
        lemma_stream_chunk_small(msg, bits, (st + j - hl) as nat);
        let v = if gray { gray_of(a[3 * j], a[3 * j + 1], a[3 * j + 2]) } else { a[j] };
        lemma_hide_low_mask(v, stream_chunk(msg, bits, (st + j - hl) as nat), bits);
    }
}

/// The header that the method writes reads back as the message's kind, bits and length, and
/// its first chunk tells the mode.
proof fn lemma_header_fields(rb: u32, len: nat, ty: MsgType, gray: bool, bits: u8)
    requires
        len <= u32::MAX,
        ty == MsgType::Txt || ty == MsgType::File,
        1 <= bits <= 4,
    ensures
        ({
            let hdr = less_sign_header(gray_seed(rb, gray), len, ty, gray, bits);
            &&& hdr.len() == 10
            &&& stream_len(hdr, 1) == 80
            &&& ls_header_fields(hdr, gray) == Ok::<(MsgType, u8, nat), LessSignFail>((ty, bits, len))
            &&& stream_chunk(hdr, 1, 0) == (if gray { 0u8 } else { 1u8 })
        }),
{
    let seed = gray_seed(rb, gray);
    let hdr = less_sign_header(seed, len, ty, gray, bits);
    lemma_le_bytes_roundtrip(len);
    lemma_le_bytes_roundtrip(seed as nat);
    assert(hdr.subrange(4, 8) =~= le_bytes_of(len));
    lemma_flag_bits(bits);
    let b0 = hdr[0];
    lemma_seed_bit(rb, b0);
    assert(b0 == ((seed as nat) % 256) as u8);
    assert(stream_chunk(hdr, 1, 0) == chunk_of(b0, 1, 0));
}

/// The facts about one image of the hidden stream that reading it rests on.
pub open spec fn step_pre(imgs: Seq<Img>, a: Seq<u8>, st: nat, hdr: Seq<u8>, msg: Seq<u8>, ty: MsgType, bits: u8, gray: bool) -> bool {
    &&& imgs.len() > 0
    &&& imgs[0].chans@ == less_sign_img(a, hdr, msg, bits, gray, st)
    &&& a.len() % 3 == 0
    &&& 1 <= bits <= 4
    &&& hdr.len() == 10
    &&& stream_len(hdr, 1) == 80
    &&& st < stream_len(hdr, 1) + stream_len(msg, bits)
    &&& ls_header_fields(hdr, gray) == Ok::<(MsgType, u8, nat), LessSignFail>((ty, bits, msg.len()))
    &&& stream_chunk(hdr, 1, 0) == (if gray { 0u8 } else { 1u8 })
}

/// What reading one image of the hidden stream gives, from where revealing stood before it.
pub open spec fn step_post(imgs: Seq<Img>, a: Seq<u8>, st: nat, hdr: Seq<u8>, msg: Seq<u8>, ty: MsgType, bits: u8, gray: bool) -> bool {
    let st2 = st + carriers(a, gray);
    let total = stream_len(hdr, 1) + stream_len(msg, bits);
    let s0 = ls_state(st, hdr, msg, ty, bits, gray);
    let s2 = ls_state(st2, hdr, msg, ty, bits, gray);
    &&& st2 < total ==> ls_reveal_scan(s0.0, s0.1, s0.2, imgs) == ls_reveal_scan(s2.0, s2.1, s2.2, imgs.drop_first())
    &&& st2 >= total ==> ls_reveal_scan(s0.0, s0.1, s0.2, imgs) == Ok::<_, LessSignFail>(ls_state(total, hdr, msg, ty, bits, gray))
}

/// An image without carriers changes nothing.
proof fn lemma_step_empty(imgs: Seq<Img>, a: Seq<u8>, st: nat, hdr: Seq<u8>, msg: Seq<u8>, ty: MsgType, bits: u8, gray: bool)
    requires
        step_pre(imgs, a, st, hdr, msg, ty, bits, gray),
        carriers(a, gray) == 0,
    ensures
        step_post(imgs, a, st, hdr, msg, ty, bits, gray),
{
    let b = imgs[0].chans@;
    let hl = stream_len(hdr, 1);
    let ml = stream_len(msg, bits);
    assert(ml >= msg.len()) by (nonlinear_arith) requires ml == msg.len() * chunks_per_byte(bits), chunks_per_byte(bits) >= 1;
    lemma_prefix_state(hdr, 1, if st < hl { st } else { hl });
    if st >= hl {
        lemma_prefix_state(msg, bits, (st - hl) as nat);
    }
    assert(a.len() == 0);
    assert(b.len() == 0);
    let cars = carrier_vals(b, gray);
    assert(masked(cars, low_mask(1)) =~= Seq::<u8>::empty());
    assert(masked(cars, low_mask(bits)) =~= Seq::<u8>::empty());
}

/// The first pixel of the hidden stream tells the mode that the method used.
proof fn lemma_step_first_pixel(imgs: Seq<Img>, a: Seq<u8>, hdr: Seq<u8>, msg: Seq<u8>, ty: MsgType, bits: u8, gray: bool)
    requires
        step_pre(imgs, a, 0, hdr, msg, ty, bits, gray),
        carriers(a, gray) > 0,
    ensures
        imgs[0].chans@.len() >= 3,
        spec_gray_of_pixel(imgs[0].chans@[0], imgs[0].chans@[1], imgs[0].chans@[2]) == Ok::<bool, LessSignFail>(gray),
{
    let b = imgs[0].chans@;
    let l = carriers(a, gray);
    assert(a.len() >= 3);
    lemma_seed_bit(0, 0);
    let v = if gray { gray_of(a[0], a[1], a[2]) } else { a[0] };
    lemma_stream_chunk_small(hdr, 1, 0);
    lemma_hide_low_mask(v, stream_chunk(hdr, 1, 0), 1);
    assert(b[0] == less_sign_value(v, hdr, msg, bits, 0, l, 0));
    if gray {
        assert(b[1] == b[0]);
        assert(b[2] == b[0]);
    }
}

/// Reading an image that does not complete the header.
proof fn lemma_step_header_part(imgs: Seq<Img>, a: Seq<u8>, st: nat, hdr: Seq<u8>, msg: Seq<u8>, ty: MsgType, bits: u8, gray: bool)
    requires
        step_pre(imgs, a, st, hdr, msg, ty, bits, gray),
        carriers(a, gray) > 0,
        st + carriers(a, gray) < stream_len(hdr, 1),
        st == 0 ==> spec_gray_of_pixel(imgs[0].chans@[0], imgs[0].chans@[1], imgs[0].chans@[2]) == Ok::<bool, LessSignFail>(gray),
        imgs[0].chans@.len() >= 3,
    ensures
        step_post(imgs, a, st, hdr, msg, ty, bits, gray),
{
    let b = imgs[0].chans@;
    let l = carriers(a, gray);
    let hl = stream_len(hdr, 1);
    let ml = stream_len(msg, bits);
    let cars = carrier_vals(b, gray);
    lemma_cars_masked(b, a, hdr, msg, bits, gray, st);
    lemma_prefix_state(hdr, 1, st);
    lemma_read_stream(hdr, 1, st, masked(cars, low_mask(1)), l);
    lemma_prefix_state(hdr, 1, st + l);
    let s0 = ls_state(st, hdr, msg, ty, bits, gray);
    let hr = read_fill(s0.1, masked(cars, low_mask(1)), 1, 10);
    assert(hr == (feed(fresh_state(), stream_prefix(hdr, 1, st + l), 1), l));
    assert(hr.0.2.len() < 10);
}

/// Reading an image that completes the header.
#[verifier::rlimit(50)]
#[verifier::spinoff_prover]
proof fn lemma_step_header_end(imgs: Seq<Img>, a: Seq<u8>, st: nat, hdr: Seq<u8>, msg: Seq<u8>, ty: MsgType, bits: u8, gray: bool)
    requires
        step_pre(imgs, a, st, hdr, msg, ty, bits, gray),
        carriers(a, gray) > 0,
        st < stream_len(hdr, 1) <= st + carriers(a, gray),
        st == 0 ==> spec_gray_of_pixel(imgs[0].chans@[0], imgs[0].chans@[1], imgs[0].chans@[2]) == Ok::<bool, LessSignFail>(gray),
        imgs[0].chans@.len() >= 3,
    ensures
        step_post(imgs, a, st, hdr, msg, ty, bits, gray),
{
    let b = imgs[0].chans@;
    let l = carriers(a, gray);
    let hl = stream_len(hdr, 1);
    let ml = stream_len(msg, bits);
    let cars = carrier_vals(b, gray);
    lemma_cars_masked(b, a, hdr, msg, bits, gray, st);
    assert(ml >= msg.len()) by (nonlinear_arith) requires ml == msg.len() * chunks_per_byte(bits), chunks_per_byte(bits) >= 1;
    lemma_prefix_state(hdr, 1, st);
    let u = (hl - st) as nat;
    lemma_read_stream(hdr, 1, st, masked(cars, low_mask(1)), u);
    lemma_prefix_state(hdr, 1, hl);
    let s0 = ls_state(st, hdr, msg, ty, bits, gray);
    let hr = read_fill(s0.1, masked(cars, low_mask(1)), 1, 10);
    assert(hr == (feed(fresh_state(), stream_prefix(hdr, 1, hl), 1), u));
    assert(hr.0.2 =~= hdr);
    let rest = masked(cars.skip(u as int), low_mask(bits));
    let u2 = if l - u <= ml { (l - u) as nat } else { ml };
    assert forall|j: int| 0 <= j < u2 implies rest[j] == stream_chunk(msg, bits, (0 + j) as nat) by {
        assert(rest[j] == masked(cars, low_mask(bits))[u + j]);
    }
    assert(stream_prefix(msg, bits, 0) =~= Seq::<u8>::empty());
    assert(feed(fresh_state(), stream_prefix(msg, bits, 0), bits) == fresh_state());
    lemma_read_stream(msg, bits, 0, rest, u2);
    lemma_prefix_state(msg, bits, u2);
    let m2 = read_fill(fresh_state(), rest, bits, msg.len()).0;
    assert(m2 == feed(fresh_state(), stream_prefix(msg, bits, u2), bits));
}

/// Reading an image once the header is complete.
proof fn lemma_step_msg(imgs: Seq<Img>, a: Seq<u8>, st: nat, hdr: Seq<u8>, msg: Seq<u8>, ty: MsgType, bits: u8, gray: bool)
    requires
        step_pre(imgs, a, st, hdr, msg, ty, bits, gray),
        carriers(a, gray) > 0,
        st >= stream_len(hdr, 1),
        imgs[0].chans@.len() >= 3,
    ensures
        step_post(imgs, a, st, hdr, msg, ty, bits, gray),
{
    let b = imgs[0].chans@;
    let l = carriers(a, gray);
    let hl = stream_len(hdr, 1);
    let ml = stream_len(msg, bits);
    let cars = carrier_vals(b, gray);
    lemma_cars_masked(b, a, hdr, msg, bits, gray, st);
    assert(ml >= msg.len()) by (nonlinear_arith) requires ml == msg.len() * chunks_per_byte(bits), chunks_per_byte(bits) >= 1;
    lemma_prefix_state(hdr, 1, hl);
    let i0 = (st - hl) as nat;
    lemma_prefix_state(msg, bits, i0);
    let u = if l <= ml - i0 { l } else { (ml - i0) as nat };
    lemma_read_stream(msg, bits, i0, masked(cars, low_mask(bits)), u);
    lemma_prefix_state(msg, bits, i0 + u);
}

/// One image of the hidden stream, read.
proof fn lemma_scan_step(imgs: Seq<Img>, a: Seq<u8>, st: nat, hdr: Seq<u8>, msg: Seq<u8>, ty: MsgType, bits: u8, gray: bool)
    requires
        step_pre(imgs, a, st, hdr, msg, ty, bits, gray),
    ensures
        step_post(imgs, a, st, hdr, msg, ty, bits, gray),
{
    if carriers(a, gray) == 0 {
        lemma_step_empty(imgs, a, st, hdr, msg, ty, bits, gray);
    } else {
        assert(a.len() >= 3);
        assert(imgs[0].chans@.len() == a.len());
        if st == 0 {
            lemma_step_first_pixel(imgs, a, hdr, msg, ty, bits, gray);
        }
        if st + carriers(a, gray) < stream_len(hdr, 1) {
            lemma_step_header_part(imgs, a, st, hdr, msg, ty, bits, gray);
        } else if st < stream_len(hdr, 1) {
            lemma_step_header_end(imgs, a, st, hdr, msg, ty, bits, gray);
        } else {
            lemma_step_msg(imgs, a, st, hdr, msg, ty, bits, gray);
        }
    }
}

/// Revealing images from number `k` on, from where revealing stands after the hidden stream's
/// carriers in the images before them, reaches the end of the stream.
proof fn lemma_scan_from(fin: Seq<Img>, orig: Seq<Img>, k: int, c: int, hdr: Seq<u8>, msg: Seq<u8>, ty: MsgType, bits: u8, gray: bool)
    requires
        0 <= k < c <= fin.len(),
        fin.len() == orig.len(),
        forall|i: int| 0 <= i < c ==> (#[trigger] fin[i]).chans@ == less_sign_img(orig[i].chans@, hdr, msg, bits, gray, carriers_before(orig, i, gray)),
        forall|i: int| 0 <= i < orig.len() ==> #[trigger] orig[i].chans@.len() % 3 == 0,
        carriers_before(orig, k, gray) < stream_len(hdr, 1) + stream_len(msg, bits),
        stream_len(hdr, 1) + stream_len(msg, bits) <= carriers_before(orig, c, gray),
        1 <= bits <= 4,
        hdr.len() == 10,
        stream_len(hdr, 1) == 80,
        ls_header_fields(hdr, gray) == Ok::<(MsgType, u8, nat), LessSignFail>((ty, bits, msg.len())),
        stream_chunk(hdr, 1, 0) == (if gray { 0u8 } else { 1u8 }),
    ensures
        ({
            let s0 = ls_state(carriers_before(orig, k, gray), hdr, msg, ty, bits, gray);
            ls_reveal_scan(s0.0, s0.1, s0.2, fin.skip(k))
                == Ok::<_, LessSignFail>(ls_state(stream_len(hdr, 1) + stream_len(msg, bits), hdr, msg, ty, bits, gray))
        }),
    decreases c - k,
{
    let imgs = fin.skip(k);
    let st = carriers_before(orig, k, gray);
    assert(imgs[0] == fin[k]);
    assert(fin[k].chans@ == less_sign_img(orig[k].chans@, hdr, msg, bits, gray, st));
    assert(orig[k].chans@.len() % 3 == 0);
    lemma_scan_step(imgs, orig[k].chans@, st, hdr, msg, ty, bits, gray);
    assert(carriers_before(orig, k + 1, gray) == st + carriers(orig[k].chans@, gray));
    assert(imgs.drop_first() =~= fin.skip(k + 1));
    if carriers_before(orig, k + 1, gray) < stream_len(hdr, 1) + stream_len(msg, bits) {
        lemma_scan_from(fin, orig, k + 1, c, hdr, msg, ty, bits, gray);
    }
}

/// Revealing what the least-significant-bits method hid gives back the message and its kind:
/// for any images (each a whole number of pixels), any message of a kind that can be hidden,
/// 1 to 4 bits a carrier, either mode and any random header bits, when hiding succeeded.
/// An empty message succeeds whatever the images hold, so for it the first image must hold
/// the header's 80 carriers.
pub proof fn law_less_sign_roundtrip(orig: Seq<Img>, fin: Seq<Img>, r: Result<usize>, msg: Seq<u8>, ty: MsgType, bits: u8, gray: bool, rb: u32)
    requires
        less_sign_hidden(orig, fin, r, msg, ty, bits, gray, rb),
        r is Ok,
        msg.len() == 0 ==> orig.len() >= 1 && carriers_before(orig, 1, gray) >= 80,
        1 <= bits <= 4,
        ty == MsgType::Txt || ty == MsgType::File,
        forall|i: int| 0 <= i < orig.len() ==> #[trigger] orig[i].chans@.len() % 3 == 0,
    ensures
        spec_less_sign_reveal(fin) == Ok::<(Seq<u8>, MsgType), LessSignFail>((msg, ty)),
{
    let hdr = less_sign_header(gray_seed(rb, gray), msg.len(), ty, gray, bits);
    lemma_header_fields(rb, msg.len(), ty, gray, bits);
    let ml = stream_len(msg, bits);
    assert(ml >= msg.len()) by (nonlinear_arith) requires ml == msg.len() * chunks_per_byte(bits), chunks_per_byte(bits) >= 1;
    let c = r->Ok_0 as int;
    let n = orig.len();
    if msg.len() == 0 {
        assert(hdr.len() == 10);
        assert(stream_len(msg, bits) == 0);
    }
    assert forall|i: int| 0 <= i < c implies (#[trigger] fin[i]).chans@ == less_sign_img(orig[i].chans@, hdr, msg, bits, gray, carriers_before(orig, i, gray)) by {
        assert(0 <= i < n);
    }
    assert(carriers_before(orig, 0, gray) == 0);
    lemma_scan_from(fin, orig, 0, c, hdr, msg, ty, bits, gray);
    assert(fin.skip(0) =~= fin);
    assert(stream_prefix(hdr, 1, 0) =~= Seq::<u8>::empty());
    law_chunks_roundtrip(msg, bits);
}

} // verus!
