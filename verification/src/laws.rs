//! Laws that tie the splitting side of the library to its reassembling side.

use vstd::prelude::*;
use crate::bits::{assemble, absorb, chunk_of, chunks_per_byte, stream_chunk, stream_len, low_mask, lemma_stream_chunk_at, lemma_chunks_reassemble, lemma_shr_shr};
use crate::reader::{feed, feed_step};
use crate::bits::{le_bytes_of, lemma_le_bytes_roundtrip};
use crate::msg::{MsgType, spec_msg_type_byte, spec_msg_type_of};
use crate::png::reader::{delta_of, deltas, decode_msg, msg_bad, msg_finished, msg_stopped, msg_len_of, scan_msg, lemma_scan_msg_push, lemma_scan_msg_concat, lemma_scan_msg_stopped};
use crate::png::writer::{delta_encode, msg_header};

verus! {

/// The first `i` chunks of the stream of `data`.
pub open spec fn stream_prefix(data: Seq<u8>, k: u8, i: nat) -> Seq<u8> {
    Seq::new(i, |t: int| stream_chunk(data, k, t as nat))
}

pub proof fn lemma_feed_stream_prefix(data: Seq<u8>, k: u8, i: nat)
    requires
        1 <= k <= 7,
        i <= stream_len(data, k),
    ensures
        ({
            let n = chunks_per_byte(k);
            let p = i / n;
            let j = i % n;
            feed((0u8, 0u8, Seq::<u8>::empty()), stream_prefix(data, k, i), k)
                == (assemble(if p < data.len() { data[p as int] } else { 0u8 }, k, j), (j * k) as u8, data.take(p as int))
        }),
    decreases i,
{
    let n = chunks_per_byte(k);
    assert(1 <= n <= 8 && n * k >= 8 && (n - 1) * k < 8) by (nonlinear_arith)
        requires 1 <= k <= 7, n == (if k >= 4 { 2int } else if k == 3 { 3int } else if k == 2 { 4int } else { 8int });
    if i == 0 {
        assert(stream_prefix(data, k, 0) =~= Seq::<u8>::empty());
        assert(data.take(0) =~= Seq::<u8>::empty());
        assert(0 * k == 0) by (nonlinear_arith);
    } else {
        let i0 = (i - 1) as nat;
        lemma_feed_stream_prefix(data, k, i0);
        let p = i0 / n;
        let j = i0 % n;
        vstd::arithmetic::div_mod::lemma_fundamental_div_mod(i0 as int, n as int);
        assert(i0 == p * n + j);
        assert(p * n + n <= data.len() * n) by (nonlinear_arith)
            requires p * n + j < data.len() * n, j >= 0, n >= 1;
        assert(p < data.len()) by (nonlinear_arith)
            requires p * n + n <= data.len() * n, n >= 1;
        let b = data[p as int];
        lemma_stream_chunk_at(data, k, p, j);
        assert(stream_prefix(data, k, i).drop_last() =~= stream_prefix(data, k, i0));
        assert(j * k < 8) by (nonlinear_arith) requires j < n, (n - 1) * k < 8, k >= 1;
        let st = feed((0u8, 0u8, Seq::<u8>::empty()), stream_prefix(data, k, i0), k);
        assert(feed((0u8, 0u8, Seq::<u8>::empty()), stream_prefix(data, k, i), k) == feed_step(st, chunk_of(b, k, j), k));
        assert(assemble(b, k, j + 1) == absorb(assemble(b, k, j), chunk_of(b, k, j), (j * k) as u8));
        assert((j + 1) * k == j * k + k) by (nonlinear_arith);
        if j * k + k >= 8 {
            assert(j + 1 == n) by (nonlinear_arith)
                requires 1 <= k <= 7, j < n, (j + 1) * k >= 8,
                    n == (if k >= 4 { 2int } else if k == 3 { 3int } else if k == 2 { 4int } else { 8int });
            lemma_chunks_reassemble(b, k, j + 1);
            assert((p + 1) * n == p * n + n) by (nonlinear_arith);
            assert(i == (p + 1) * n + 0);
            vstd::arithmetic::div_mod::lemma_fundamental_div_mod_converse(i as int, n as int, (p + 1) as int, 0);
            assert(data.take(p as int).push(b) =~= data.take((p + 1) as int));
            assert(assemble(if p + 1 < data.len() { data[(p + 1) as int] } else { 0u8 }, k, 0) == 0u8);
            assert(0 * k == 0) by (nonlinear_arith);
        } else {
            assert(j + 1 < n) by (nonlinear_arith)
                requires 1 <= k <= 7, (j + 1) * k < 8,
                    n == (if k >= 4 { 2int } else if k == 3 { 3int } else if k == 2 { 4int } else { 8int });
            vstd::arithmetic::div_mod::lemma_fundamental_div_mod_converse(i as int, n as int, p as int, (j + 1) as int);
        }
    }
}

/// Cutting a sequence of bytes into `k`-bit chunks (as the writers do) and feeding those
/// chunks to an assembler (as the readers do) gives back exactly the same bytes,
/// with the assembler left at the start of a fresh byte.
pub proof fn law_chunks_roundtrip(data: Seq<u8>, k: u8)
    requires
        1 <= k <= 7,
    ensures
        feed((0u8, 0u8, Seq::<u8>::empty()), stream_prefix(data, k, stream_len(data, k)), k) == (0u8, 0u8, data),
{
    let n = chunks_per_byte(k);
    lemma_feed_stream_prefix(data, k, stream_len(data, k));
    assert(n >= 1);
    vstd::arithmetic::div_mod::lemma_fundamental_div_mod_converse((data.len() * n) as int, n as int, data.len() as int, 0);
    assert(data.take(data.len() as int) =~= data);
    assert(0 * k == 0) by (nonlinear_arith);
}

/// Cutting a byte with [`crate::writer::SingleByteWriter::next`] and gathering the parts with
/// [`crate::reader::SingleByteReader::next_le`], `k` bits at a time: after `j` steps the writer
/// holds `b >> (j * k)` and the reader `assemble(b, k, j)`; the next step hands over chunk `j`
/// and leaves the writer and the reader at step `j + 1`. After every chunk the reader holds
/// `b` ([`crate::bits::lemma_chunks_reassemble`]).
pub proof fn law_byte_chunks_step(b: u8, k: u8, j: nat)
    requires
        1 <= k <= 7,
        j * k < 8,
    ensures
        (b >> ((j * k) as u8)) & low_mask(k) == chunk_of(b, k, j),
        ((b >> ((j * k) as u8)) >> k) == (if (j + 1) * k >= 8 { 0u8 } else { b >> (((j + 1) * k) as u8) }),
        absorb(assemble(b, k, j), chunk_of(b, k, j), (j * k) as u8) == assemble(b, k, j + 1),
{
    assert((j + 1) * k == j * k + k) by (nonlinear_arith);
    lemma_shr_shr(b, (j * k) as u8, k);
}

/// Moving a channel value by `d` and measuring how far it moved gives `d` back.
pub proof fn law_delta_roundtrip(c: u8, d: u8)
    requires
        d <= 127,
    ensures
        delta_of(c, delta_encode(c, d)) == d,
{
}

/// The hidden bytes, as far as they go, never stop the reader early.
proof fn lemma_header_prefix_not_stopped(msg: Seq<u8>, ty: MsgType, p: nat)
    requires
        ty == MsgType::Txt || ty == MsgType::File,
        msg.len() <= u32::MAX,
        p < 5 + msg.len(),
    ensures
        !msg_stopped((msg_header(ty, msg.len()) + msg).take(p as int)),
{
    let data = msg_header(ty, msg.len()) + msg;
    let b = data.take(p as int);
    lemma_le_bytes_roundtrip(msg.len());
    if p >= 1 {
        assert(b[0] == spec_msg_type_byte(ty));
    }
    if p >= 5 {
        assert(b.subrange(1, 5) =~= le_bytes_of(msg.len()));
    }
}

/// Hiding with the delta method and then reading the differences back gives the message and its kind.
///
/// `orig` are the channels of the initial images, `modified` those after hiding: each of the first
/// chunks of header and message moved a channel by that chunk, the others are left as they were.
pub proof fn law_delta_message_roundtrip(msg: Seq<u8>, ty: MsgType, k: u8, orig: Seq<u8>, modified: Seq<u8>)
    requires
        1 <= k <= 7,
        ty == MsgType::Txt || ty == MsgType::File,
        msg.len() <= u32::MAX,
        orig.len() == modified.len(),
        orig.len() >= stream_len(msg_header(ty, msg.len()) + msg, k),
        forall|i: int| 0 <= i < stream_len(msg_header(ty, msg.len()) + msg, k) ==>
            #[trigger] modified[i] == delta_encode(orig[i], stream_chunk(msg_header(ty, msg.len()) + msg, k, i as nat)),
    ensures
        msg_finished(scan_msg((0u8, 0u8, Seq::<u8>::empty()), deltas(orig, modified), k).2),
        decode_msg(scan_msg((0u8, 0u8, Seq::<u8>::empty()), deltas(orig, modified), k).2) == Ok::<(Seq<u8>, MsgType), crate::error::Error>((msg, ty)),
{
    let data = msg_header(ty, msg.len()) + msg;
    let l = stream_len(data, k);
    let st0 = (0u8, 0u8, Seq::<u8>::empty());
    let d = deltas(orig, modified);
    assert forall|i: int| 0 <= i < l implies #[trigger] d[i] == stream_chunk(data, k, i as nat) by {
        crate::bits::lemma_stream_chunk_small(data, k, i as nat);
        law_delta_roundtrip(orig[i], stream_chunk(data, k, i as nat));
    }
    assert(d.take(l as int) =~= stream_prefix(data, k, l));
    lemma_scan_equals_feed(msg, ty, k, l);
    law_chunks_roundtrip(data, k);
    lemma_le_bytes_roundtrip(msg.len());
    assert(data.subrange(1, 5) =~= le_bytes_of(msg.len()));
    assert(msg_finished(data));
    lemma_scan_msg_concat(st0, d.take(l as int), d.skip(l as int), k);
    assert(d.take(l as int) + d.skip(l as int) =~= d);
    lemma_scan_msg_stopped(scan_msg(st0, d.take(l as int), k), d.skip(l as int), k);
    assert(data[0] == spec_msg_type_byte(ty));
    assert(data.subrange(5, data.len() as int) =~= msg);
}

pub proof fn lemma_scan_equals_feed(msg: Seq<u8>, ty: MsgType, k: u8, i: nat)
    requires
        1 <= k <= 7,
        ty == MsgType::Txt || ty == MsgType::File,
        msg.len() <= u32::MAX,
        i <= stream_len(msg_header(ty, msg.len()) + msg, k),
    ensures
        scan_msg((0u8, 0u8, Seq::<u8>::empty()), stream_prefix(msg_header(ty, msg.len()) + msg, k, i), k)
            == feed((0u8, 0u8, Seq::<u8>::empty()), stream_prefix(msg_header(ty, msg.len()) + msg, k, i), k),
    decreases i,
{
    let data = msg_header(ty, msg.len()) + msg;
    let st0 = (0u8, 0u8, Seq::<u8>::empty());
    if i == 0 {
        assert(stream_prefix(data, k, 0) =~= Seq::<u8>::empty());
    } else {
        let i0 = (i - 1) as nat;
        lemma_scan_equals_feed(msg, ty, k, i0);
        let pre = stream_prefix(data, k, i0);
        let x = stream_chunk(data, k, i0);
        assert(stream_prefix(data, k, i) =~= pre.push(x));
        lemma_scan_msg_push(st0, pre, x, k);
        lemma_feed_stream_prefix(data, k, i0);
        let n = chunks_per_byte(k);
        assert(n >= 1);
        let p = i0 / n;
        vstd::arithmetic::div_mod::lemma_fundamental_div_mod(i0 as int, n as int);
        assert(p * n + n <= data.len() * n) by (nonlinear_arith)
            requires p * n + (i0 % n) < data.len() * n, i0 % n >= 0, n >= 1, i0 == p * n + (i0 % n);
        assert(p < data.len()) by (nonlinear_arith)
            requires p * n + n <= data.len() * n, n >= 1;
        lemma_header_prefix_not_stopped(msg, ty, p);
        assert(pre.push(x).drop_last() =~= pre);
        assert(feed(st0, pre, k).2 == data.take(p as int));
        assert(scan_msg(st0, pre, k) == feed(st0, pre, k));
        assert(!msg_stopped(scan_msg(st0, pre, k).2));
    }
}

} // verus!
