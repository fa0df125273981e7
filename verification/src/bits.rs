//! Bit-level vocabulary shared by the byte splitters and assemblers.

use vstd::prelude::*;

verus! {

/// The `k` lowest bits set (all eight when `k >= 8`).
pub open spec fn low_mask(k: u8) -> u8 {
    if k >= 8 { 255u8 } else { ((1u8 << k) - 1u8) as u8 }
}

/// Number of `k`-bit chunks that one byte is cut into.
/// How many bytes of `len` bytes cut into `k`-bit chunks are not started once `emitted`
/// chunks are handed out: none when all are, else those after the byte being cut.
pub open spec fn bytes_not_started(len: nat, k: u8, emitted: nat) -> nat {
    if emitted >= len * chunks_per_byte(k) { 0 } else { (len - (emitted / chunks_per_byte(k) + 1)) as nat }
}

pub open spec fn chunks_per_byte(k: u8) -> nat {
    if k >= 8 { 1 } else if k >= 4 { 2 } else if k == 3 { 3 } else if k == 2 { 4 } else { 8 }
}

/// The `j`-th `k`-bit chunk of `b`, lowest bits first.
pub open spec fn chunk_of(b: u8, k: u8, j: nat) -> u8 {
    if j * k >= 8 { 0u8 } else { ((b >> ((j * k) as u8)) & low_mask(k)) as u8 }
}

/// `acc` with `part` shifted into place at bit `bit` (bits pushed past the top are lost).
pub open spec fn absorb(acc: u8, part: u8, bit: u8) -> u8 {
    (acc | ((part << (bit % 8)) as u8)) as u8
}

/// Small facts about bytes: one shifted by at most 7 is at least 1, a shift by 0 keeps the
/// byte, the mask of 0 bits is 0, and the mask of `k` bits (1 to 7) is the complement of `m`.
pub proof fn lemma_byte_facts(b: u8, s: u8, k: u8, m: u8)
    by (bit_vector)
    ensures
        s <= 7 ==> 1u8 << s >= 1,
        b >> 0u8 == b,
        b & 0u8 == 0u8,
        low_mask(0u8) == 0u8,
        (m == !low_mask(k) && 1 <= k <= 7 && low_mask(k) == ((1u8 << k) - 1) as u8) ==> (!m == low_mask(k) && low_mask(k) <= 127),
{
}

/// Folding the first `j` chunks of `b` back into a byte.
pub open spec fn assemble(b: u8, k: u8, j: nat) -> u8
    decreases j,
{
    if j == 0 { 0u8 } else {
        let prev = (j - 1) as nat;
        if prev * k >= 8 { assemble(b, k, prev) } else {
            absorb(assemble(b, k, prev), chunk_of(b, k, prev), (prev * k) as u8)
        }
    }
}

/// One step of reassembly: adding the next chunk keeps the low bits of `b` seen so far.
proof fn lemma_absorb_step(b: u8, s: u8, k: u8)
    requires
        s < 8,
        1 <= k <= 7,
    ensures
        s + k < 8 ==> absorb(b & low_mask(s), ((b >> s) & low_mask(k)) as u8, s) == b & low_mask((s + k) as u8),
        s + k >= 8 ==> absorb(b & low_mask(s), ((b >> s) & low_mask(k)) as u8, s) == b,
{
    let lm_s: u8 = ((1u8 << s) - 1u8) as u8;
    let lm_k: u8 = ((1u8 << k) - 1u8) as u8;
    assert(lm_s == low_mask(s));
    assert(lm_k == low_mask(k));
    assert(s % 8 == s);
    if s + k < 8 {
        let sk: u8 = (s + k) as u8;
        assert(low_mask(sk) == ((1u8 << sk) - 1u8) as u8);
        assert(((b & lm_s) | ((((b >> s) & lm_k) << s) as u8)) == b & (((1u8 << sk) - 1u8) as u8)) by (bit_vector)
            requires s < 8u8, 1u8 <= k, k <= 7u8, sk == s + k, sk < 8u8, lm_s == ((1u8 << s) - 1u8) as u8, lm_k == ((1u8 << k) - 1u8) as u8;
    } else {
        assert(((b & lm_s) | ((((b >> s) & lm_k) << s) as u8)) == b) by (bit_vector)
            requires s < 8u8, 1u8 <= k, k <= 7u8, s + k >= 8, lm_s == ((1u8 << s) - 1u8) as u8, lm_k == ((1u8 << k) - 1u8) as u8;
    }
}

/// Shifting right twice is shifting right by the sum.
pub proof fn lemma_shr_shr(b: u8, s: u8, k: u8)
    requires
        s < 8,
        k <= 8,
    ensures
        (b >> s) >> k == (if s + k >= 8 { 0u8 } else { b >> ((s + k) as u8) }),
{
    if s + k >= 8 {
        assert((b >> s) >> k == 0u8) by (bit_vector)
            requires s < 8u8, k <= 8u8, s + k >= 8;
    } else {
        let sk = (s + k) as u8;
        assert((b >> s) >> k == b >> sk) by (bit_vector)
            requires sk == s + k, sk < 8u8;
    }
}

/// After `j` chunks (while they still fit), the reassembled value is the low `j * k` bits of `b`.
proof fn lemma_assemble_prefix(b: u8, k: u8, j: nat)
    requires
        1 <= k <= 7,
        j * k <= 8,
    ensures
        j * k < 8 ==> assemble(b, k, j) == b & low_mask((j * k) as u8),
        j * k == 8 ==> assemble(b, k, j) == b,
    decreases j,
{
    if j == 0 {
        assert(j * k == 0) by (nonlinear_arith) requires j == 0;
        lemma_byte_facts(b, 0, 0, 0);
        assert(assemble(b, k, j) == 0u8);
    } else {
        let prev = (j - 1) as nat;
        assert(prev * k + k == j * k) by (nonlinear_arith)
            requires prev + 1 == j;
        lemma_assemble_prefix(b, k, prev);
        let s = (prev * k) as u8;
        assert(s == prev * k);
        lemma_absorb_step(b, s, k);
        assert(chunk_of(b, k, prev) == ((b >> s) & low_mask(k)) as u8);
        assert(assemble(b, k, j) == absorb(assemble(b, k, prev), chunk_of(b, k, prev), s));
        if j * k < 8 {
            assert((j * k) as u8 == (s + k) as u8);
            assert(assemble(b, k, prev) == b & low_mask(s));
        } else {
            assert(s + k >= 8);
            if prev * k == 8 {
                assert(false);
            }
            assert(assemble(b, k, prev) == b & low_mask(s));
        }
    }
}

/// Cutting a byte into `k`-bit chunks and folding them back gives the byte again.
pub proof fn lemma_chunks_reassemble(b: u8, k: u8, j: nat)
    requires
        1 <= k <= 7,
        j >= chunks_per_byte(k),
    ensures
        assemble(b, k, j) == b,
    decreases j,
{
    let n = chunks_per_byte(k);
    assert(1 <= n && n * k >= 8 && (n - 1) * k < 8) by {
        assert(n * k >= 8 && (n - 1) * k < 8) by (nonlinear_arith)
            requires 1 <= k <= 7, n == (if k >= 4 { 2int } else if k == 3 { 3int } else if k == 2 { 4int } else { 8int });
    }
    if j > n {
        let prev = (j - 1) as nat;
        assert(prev * k >= n * k) by (nonlinear_arith)
            requires prev >= n, k >= 1;
        lemma_chunks_reassemble(b, k, prev);
    } else {
        let prev = (n - 1) as nat;
        assert(prev * k + k == n * k) by (nonlinear_arith)
            requires prev + 1 == n;
        lemma_assemble_prefix(b, k, prev);
        let s = (prev * k) as u8;
        assert(s == prev * k);
        lemma_absorb_step(b, s, k);
        assert(chunk_of(b, k, prev) == ((b >> s) & low_mask(k)) as u8);
        assert(assemble(b, k, j) == absorb(assemble(b, k, prev), chunk_of(b, k, prev), s));
    }
}

/// The `i`-th chunk of the stream made by cutting every byte of `data`, in order, into `k`-bit chunks.
pub open spec fn stream_chunk(data: Seq<u8>, k: u8, i: nat) -> u8 {
    let n = chunks_per_byte(k);
    chunk_of(data[(i / n) as int], k, (i % n) as nat)
}

/// Number of chunks in the stream of `data`.
pub open spec fn stream_len(data: Seq<u8>, k: u8) -> nat {
    data.len() * chunks_per_byte(k)
}

/// Locating a chunk of the stream by its byte and its place in that byte.
pub proof fn lemma_stream_chunk_at(data: Seq<u8>, k: u8, p: nat, j: nat)
    requires
        j < chunks_per_byte(k),
    ensures
        stream_chunk(data, k, p * chunks_per_byte(k) + j) == chunk_of(data[p as int], k, j),
{
    let n = chunks_per_byte(k);
    vstd::arithmetic::div_mod::lemma_fundamental_div_mod_converse((p * n + j) as int, n as int, p as int, j as int);
}

/// The number that four bytes stand for, least significant first.
pub open spec fn le_u32(b: Seq<u8>) -> nat {
    (b[0] + 256 * b[1] + 65536 * b[2] + 16777216 * b[3]) as nat
}

/// The number that four bytes stand for, least significant first.
pub fn u32_from_le_bytes(b: [u8; 4]) -> (r: u32)
    ensures
        r == le_u32(b@),
{
    let b0 = b[0];
    let b1 = b[1];
    let b2 = b[2];
    let b3 = b[3];
    let r = (b0 as u32) | ((b1 as u32) << 8u32) | ((b2 as u32) << 16u32) | ((b3 as u32) << 24u32);
    assert(r == b0 + 256 * b1 + 65536 * b2 + 16777216 * b3) by (bit_vector)
        requires r == (b0 as u32) | ((b1 as u32) << 8u32) | ((b2 as u32) << 16u32) | ((b3 as u32) << 24u32);
    r
}

/// The four bytes of `len`, least significant first.
pub open spec fn le_bytes_of(len: nat) -> Seq<u8> {
    seq![(len % 256) as u8, ((len / 256) % 256) as u8, ((len / 256 / 256) % 256) as u8, ((len / 256 / 256 / 256) % 256) as u8]
}

/// Four bytes made from a number that fits in them give that number back.
pub proof fn lemma_le_bytes_roundtrip(len: nat)
    requires
        len <= u32::MAX,
    ensures
        le_u32(le_bytes_of(len)) == len,
        le_bytes_of(len).len() == 4,
{
    let q1 = len / 256;
    let q2 = q1 / 256;
    let q3 = q2 / 256;
    vstd::arithmetic::div_mod::lemma_fundamental_div_mod(len as int, 256);
    vstd::arithmetic::div_mod::lemma_fundamental_div_mod(q1 as int, 256);
    vstd::arithmetic::div_mod::lemma_fundamental_div_mod(q2 as int, 256);
    vstd::arithmetic::div_mod::lemma_fundamental_div_mod(q3 as int, 256);
    assert(q3 < 256);
    vstd::arithmetic::div_mod::lemma_small_mod(q3, 256);
    let b = le_bytes_of(len);
    assert(b[0] == len % 256 && b[1] == q1 % 256 && b[2] == q2 % 256 && b[3] == q3 % 256);
}

/// The four bytes of `x`, least significant first.
pub fn u32_to_le_bytes(x: u32) -> (r: [u8; 4])
    ensures
        r@ == le_bytes_of(x as nat),
        le_u32(r@) == x,
{
    let b0 = (x & 0xff) as u8;
    let b1 = ((x >> 8u32) & 0xff) as u8;
    let b2 = ((x >> 16u32) & 0xff) as u8;
    let b3 = ((x >> 24u32) & 0xff) as u8;
    assert(b0 == x % 256 && b1 == (x / 256) % 256 && b2 == (x / 256 / 256) % 256 && b3 == (x / 256 / 256 / 256) % 256) by (bit_vector)
        requires b0 == (x & 0xff) as u8, b1 == ((x >> 8u32) & 0xff) as u8, b2 == ((x >> 16u32) & 0xff) as u8, b3 == ((x >> 24u32) & 0xff) as u8;
    let r = [b0, b1, b2, b3];
    assert(r@ =~= le_bytes_of(x as nat));
    proof { lemma_le_bytes_roundtrip(x as nat); }
    r
}

/// Every chunk of a `k`-bit stream fits in `k` bits, so it is at most 127 for `k <= 7`.
pub proof fn lemma_stream_chunk_small(data: Seq<u8>, k: u8, i: nat)
    requires
        k <= 7,
    ensures
        stream_chunk(data, k, i) <= low_mask(k),
        stream_chunk(data, k, i) <= 127,
{
    let n = chunks_per_byte(k);
    let j = (i % n) as nat;
    let b = data[(i / n) as int];
    if j * k < 8 {
        let s = (j * k) as u8;
        assert(((b >> s) & low_mask(k)) <= low_mask(k)) by (bit_vector);
    }
    assert(low_mask(k) <= 127) by (bit_vector) requires k <= 7u8;
}

} // verus!
