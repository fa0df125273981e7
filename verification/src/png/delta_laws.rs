//! What the delta method reveals of what it hid.

use vstd::prelude::*;
use crate::bits::{stream_chunk, stream_len, chunks_per_byte, lemma_stream_chunk_small, le_bytes_of, lemma_le_bytes_roundtrip};
use crate::laws::{stream_prefix, law_chunks_roundtrip, law_delta_roundtrip, lemma_scan_equals_feed};
use crate::msg::{MsgType, spec_msg_type_byte};
use crate::png::img::Img;
use crate::png::algo::{delta_hide_outcome, delta_hidden, delta_encoded, chans_before, delta_reveal_scan, spec_delta_reveal, lemma_chans_before_mono};
use crate::png::reader::{deltas, scan_msg, msg_finished, msg_bad, msg_stopped, decode_msg, lemma_scan_msg_concat, lemma_scan_msg_stopped};
use crate::png::writer::msg_header;
use crate::png::less_sign_laws::lemma_prefix_state;
use crate::error::{Error, Result};

verus! {

/// Where reading the hidden stream stands after its first `x` chunks.
pub open spec fn delta_state(data: Seq<u8>, k: u8, x: nat) -> (u8, u8, Seq<u8>) {
    scan_msg((0u8, 0u8, Seq::<u8>::empty()), stream_prefix(data, k, x), k)
}

/// Before the end of the stream reading neither finishes nor fails; at the end it has the
/// whole header and message.
proof fn lemma_delta_state(msg: Seq<u8>, ty: MsgType, k: u8, x: nat)
    requires
        1 <= k <= 7,
        ty == MsgType::Txt || ty == MsgType::File,
        msg.len() <= u32::MAX,
        x <= stream_len(msg_header(ty, msg.len()) + msg, k),
    ensures
        ({
            let data = msg_header(ty, msg.len()) + msg;
            let s = delta_state(data, k, x);
            &&& !msg_bad(s.2)
            &&& msg_finished(s.2) == (x == stream_len(data, k))
            &&& x == stream_len(data, k) ==> s.2 == data
        }),
{
    let data = msg_header(ty, msg.len()) + msg;
    lemma_scan_equals_feed(msg, ty, k, x);
    lemma_prefix_state(data, k, x);
    lemma_le_bytes_roundtrip(msg.len());
    let p = x / chunks_per_byte(k);
    let b = data.take(p as int);
    if p >= 1 {
        assert(b[0] == spec_msg_type_byte(ty));
    }
    if p >= 5 {
        assert(b.subrange(1, 5) =~= le_bytes_of(msg.len()));
    }
    if x == stream_len(data, k) {
        assert(b =~= data);
    }
}

/// The deltas of a hidden image, from chunk `st` of the stream on: the stream's chunks as far
/// as it goes, then zeros.
proof fn lemma_image_deltas(a: Seq<u8>, data: Seq<u8>, k: u8, st: nat)
    requires
        1 <= k <= 7,
    ensures
        ({
            let d = deltas(a, delta_encoded(a, data, k, st));
            &&& d.len() == a.len()
            &&& forall|j: int| 0 <= j < a.len() && st + j < stream_len(data, k) ==> #[trigger] d[j] == stream_chunk(data, k, (st + j) as nat)
            &&& forall|j: int| 0 <= j < a.len() && st + j >= stream_len(data, k) ==> #[trigger] d[j] == 0
        }),
{
    let b = delta_encoded(a, data, k, st);
    let d = deltas(a, b);
    assert forall|j: int| 0 <= j < a.len() && st + j < stream_len(data, k) implies #[trigger] d[j] == stream_chunk(data, k, (st + j) as nat) by {
        lemma_stream_chunk_small(data, k, (st + j) as nat);
        law_delta_roundtrip(a[j], stream_chunk(data, k, (st + j) as nat));
    }
}

/// One hidden image pair, read.
proof fn lemma_delta_step(a: Seq<u8>, msg: Seq<u8>, ty: MsgType, k: u8, st: nat)
    requires
        1 <= k <= 7,
        ty == MsgType::Txt || ty == MsgType::File,
        msg.len() <= u32::MAX,
        st < stream_len(msg_header(ty, msg.len()) + msg, k),
    ensures
        ({
            let data = msg_header(ty, msg.len()) + msg;
            let l = stream_len(data, k);
            let s2 = scan_msg(delta_state(data, k, st), deltas(a, delta_encoded(a, data, k, st)), k);
            &&& st + a.len() < l ==> s2 == delta_state(data, k, st + a.len())
            &&& st + a.len() >= l ==> s2 == delta_state(data, k, l)
        }),
{
    let data = msg_header(ty, msg.len()) + msg;
    let l = stream_len(data, k);
    let d = deltas(a, delta_encoded(a, data, k, st));
    lemma_image_deltas(a, data, k, st);
    let u: nat = if st + a.len() < l { a.len() } else { (l - st) as nat };
    let st0 = (0u8, 0u8, Seq::<u8>::empty());
    assert(stream_prefix(data, k, st) + d.take(u as int) =~= stream_prefix(data, k, st + u));
    lemma_scan_msg_concat(st0, stream_prefix(data, k, st), d.take(u as int), k);
    lemma_scan_msg_concat(delta_state(data, k, st), d.take(u as int), d.skip(u as int), k);
    assert(d.take(u as int) + d.skip(u as int) =~= d);
    if st + a.len() < l {
        assert(d.skip(u as int) =~= Seq::<u8>::empty());
    } else {
        lemma_delta_state(msg, ty, k, l);
        lemma_scan_msg_stopped(delta_state(data, k, l), d.skip(u as int), k);
    }
}

/// Revealing from image pair `i` on, from where the hidden stream stands after the images
/// before it, reaches the end of the stream.
proof fn lemma_delta_scan_from(orig: Seq<Img>, fin: Seq<Img>, i: int, c: int, msg: Seq<u8>, ty: MsgType, k: u8)
    requires
        0 <= i < c <= orig.len(),
        fin.len() == orig.len(),
        1 <= k <= 7,
        ty == MsgType::Txt || ty == MsgType::File,
        msg.len() <= u32::MAX,
        forall|j: int| 0 <= j < orig.len() ==> {
            &&& (#[trigger] fin[j]).chans@ == delta_hidden(orig, msg_header(ty, msg.len()) + msg, k, j)
            &&& fin[j].width == orig[j].width
            &&& fin[j].height == orig[j].height
        },
        chans_before(orig, i) < stream_len(msg_header(ty, msg.len()) + msg, k) <= chans_before(orig, c),
    ensures
        ({
            let data = msg_header(ty, msg.len()) + msg;
            delta_reveal_scan(delta_state(data, k, chans_before(orig, i)), orig.skip(i), fin.skip(i), k)
                == Ok::<(u8, u8, Seq<u8>), Error>(delta_state(data, k, stream_len(data, k)))
        }),
    decreases c - i,
{
    let data = msg_header(ty, msg.len()) + msg;
    let l = stream_len(data, k);
    let st = chans_before(orig, i);
    let a = orig[i].chans@;
    let sa = orig.skip(i);
    let sb = fin.skip(i);
    assert(sa[0] == orig[i]);
    assert(sb[0] == fin[i]);
    assert(fin[i].chans@ == delta_encoded(a, data, k, st));
    lemma_delta_step(a, msg, ty, k, st);
    assert(chans_before(orig, i + 1) == st + a.len());
    assert(sa.drop_first() =~= orig.skip(i + 1));
    assert(sb.drop_first() =~= fin.skip(i + 1));
    if st + a.len() < l {
        lemma_delta_state(msg, ty, k, st + a.len());
        lemma_delta_scan_from(orig, fin, i + 1, c, msg, ty, k);
    } else {
        lemma_delta_state(msg, ty, k, l);
    }
}

/// Revealing what the delta method hid, from the initial images and the modified ones, gives
/// back the message and its kind: for any images, any message of a kind that can be hidden
/// and 1 to 7 bits a channel, when hiding succeeded.
pub proof fn law_delta_hide_reveal(orig: Seq<Img>, fin: Seq<Img>, r: Result<usize>, msg: Seq<u8>, ty: MsgType, k: u8)
    requires
        delta_hide_outcome(orig, fin, r, msg, ty, k),
        r is Ok,
        1 <= k <= 7,
        ty == MsgType::Txt || ty == MsgType::File,
    ensures
        spec_delta_reveal(orig, fin, k) == Ok::<(Seq<u8>, MsgType), Error>((msg, ty)),
{
    let data = msg_header(ty, msg.len()) + msg;
    let l = stream_len(data, k);
    let c = r->Ok_0 as int;
    assert(l >= 5) by (nonlinear_arith) requires l == data.len() * chunks_per_byte(k), data.len() >= 5, chunks_per_byte(k) >= 1;
    assert(chans_before(orig, 0) == 0);
    lemma_delta_scan_from(orig, fin, 0, c, msg, ty, k);
    assert(orig.skip(0) =~= orig);
    assert(fin.skip(0) =~= fin);
    assert(stream_prefix(data, k, 0) =~= Seq::<u8>::empty());
    lemma_delta_state(msg, ty, k, l);
    assert(data[0] == spec_msg_type_byte(ty));
    assert(data.subrange(5, data.len() as int) =~= msg);
}

} // verus!
