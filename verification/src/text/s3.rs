//! State spaces ("S3": how many values a carrier can take) and the bit streams that fill them.

use vstd::prelude::*;
use crate::text::num::pow2;
use crate::text::str_writer::WriteExt;
use crate::error::{Error, Result};
pub use crate::text::s3_full::{S3Full, S3TypeWriter};

verus! {

/// `floor(log2(x))`: the largest `e` with `2^e <= x`.
pub open spec fn is_log2_floor(e: nat, x: nat) -> bool {
    pow2(e) <= x < pow2(e + 1)
}

/// `floor(log2(x))` for a positive `x`.
pub open spec fn log2_floor(x: nat) -> nat
    decreases x,
{
    if x <= 1 { 0 } else { 1 + log2_floor(x / 2) }
}

/// The exponent between two powers of two is the floor of the logarithm.
pub proof fn lemma_log2_floor(e: nat, x: nat)
    requires
        is_log2_floor(e, x),
    ensures
        log2_floor(x) == e,
    decreases e,
{
    if e > 0 {
        let e1 = (e - 1) as nat;
        assert(pow2(e) == 2 * pow2(e1));
        assert(pow2(e + 1) == 2 * pow2(e));
        lemma_log2_floor(e1, x / 2);
    }
}

proof fn lemma_pow2_63()
    ensures
        pow2(63) == 0x8000_0000_0000_0000,
{
    reveal_with_fuel(pow2, 64);
}

/// Every positive number lies between the powers of two around its logarithm.
pub proof fn lemma_log2_floor_is(x: nat)
    requires
        x >= 1,
    ensures
        is_log2_floor(log2_floor(x), x),
    decreases x,
{
    if x >= 2 {
        lemma_log2_floor_is(x / 2);
        let l = log2_floor(x / 2);
        assert(pow2(l + 1) == 2 * pow2(l));
        assert(pow2(l + 2) == 2 * pow2(l + 1));
    } else {
        assert(pow2(1) == 2) by { reveal_with_fuel(pow2, 2); }
    }
}

/// A state space that fits in `u64`, told with `floor(log2(s3)) + 1` bits, can take values
/// from a bit reader.
pub proof fn lemma_bits_of(s3: nat)
    requires
        1 <= s3 <= u64::MAX,
    ensures
        1 <= log2_floor(s3) + 1 <= 64,
        is_log2_floor(log2_floor(s3), s3),
{
    lemma_log2_floor_is(s3);
    let l = log2_floor(s3);
    if l >= 64 {
        crate::text::num::lemma_pow2_ge((l - 1) as nat);
        lemma_pow2_63();
        assert(pow2(l) == 2 * pow2((l - 1) as nat));
    }
}

/// `u64::ilog2`, for a positive `x`.
pub fn ilog2(x: u64) -> (r: u32)
    requires
        x > 0,
    ensures
        is_log2_floor(r as nat, x as nat),
        r == log2_floor(x as nat),
        r < 64,
{
    let mut e: u32 = 0;
    let mut p: u64 = 1;
    while p <= x / 2
        invariant
            p == pow2(e as nat),
            1 <= p <= x,
            e < 64,
            x > 0,
        decreases x - p,
    {
        proof {
            assert(pow2((e + 1) as nat) == 2 * pow2(e as nat));
            if e >= 63 {
                crate::text::num::lemma_pow2_ge(63);
                lemma_pow2_63();
                assert(false);
            }
        }
        p = p * 2;
        e = e + 1;
    }
    assert(pow2((e + 1) as nat) == 2 * pow2(e as nat));
    proof { lemma_log2_floor(e as nat, x as nat); }
    e
}

/// What a writer of values tells about one value it writes.
pub trait S3WriterInfo {
    /// How many values one write can take.
    spec fn s3(&self) -> nat;

    /// How many bits are needed to tell one written value.
    spec fn bits(&self) -> nat;

    /// Whether the writer is well formed, so that it can tell these numbers.
    spec fn info_wf(&self) -> bool;

    fn bits_once(&self) -> (r: u8)
        requires
            self.info_wf(),
        ensures
            r == self.bits();

    fn s3_once(&self) -> (r: u64)
        requires
            self.info_wf(),
        ensures
            r == self.s3();
}


/// How the bit reader changes when a writer of `s3` values takes the value `x` from it (see
/// [`S3BitReader::take_bits`]).
pub open spec fn takes(before: S3BitReader, after: S3BitReader, s3: nat, x: u64) -> bool {
    &&& after.wf()
    &&& after.buf() == before.buf()
    &&& after.eof() == before.eof()
    &&& after.total() == before.total()
    &&& ({
        let prod = (before.max_written() * s3) as nat;
        if bit_len(prod) <= before.total() {
            &&& x == (before.bits_to_write() as nat) % s3
            &&& after.bits_to_write() == (before.bits_to_write() as nat) / s3
            &&& after.max_written() == prod
        } else {
            &&& x < s3
            &&& after.max_written() == 0
            &&& low_bits(x, (bit_len(s3) + before.total() - bit_len(prod)) as u64)
                == low_bits(before.bits_to_write(), (bit_len(s3) + before.total() - bit_len(prod)) as u64)
        }
    })
}

/// When the value taken ends the chunk (the spaces no longer fit in its bits), it still carries
/// what was left of the chunk in its lowest bits, and only random bits above them may differ:
/// with `k` the chunk's bits that the value must carry, the value's `k` lowest bits are those
/// left, so a left part that fits in `k` bits is the value modulo `2^k`.
pub proof fn law_last_value_keeps_chunk(before: S3BitReader, after: S3BitReader, s3: nat, x: u64)
    requires
        takes(before, after, s3, x),
        bit_len((before.max_written() * s3) as nat) > before.total(),
    ensures
        ({
            let k = (bit_len(s3) + before.total() - bit_len((before.max_written() * s3) as nat)) as u64;
            &&& x < s3
            &&& low_bits(x, k) == low_bits(before.bits_to_write(), k)
            &&& k < 64 && before.bits_to_write() < (1u64 << k) ==> low_bits(x, k) == before.bits_to_write()
        }),
{
    let k = (bit_len(s3) + before.total() - bit_len((before.max_written() * s3) as nat)) as u64;
    let b = before.bits_to_write();
    assert(k < 64 && b < (1u64 << k) ==> low_bits(b, k) == b) by (bit_vector);
}

/// What a writer needs of its numbers to take values from a bit reader: `bits - 1` is the
/// floor of `log2(s3)`.
pub open spec fn takes_from_reader<T: S3WriterInfo>(s3w: &T) -> bool {
    &&& s3w.info_wf()
    &&& 1 <= s3w.bits() <= 64
    &&& s3w.s3() >= 1
    &&& is_log2_floor((s3w.bits() - 1) as nat, s3w.s3())
}

/// A writer of values as text, that needs no random numbers.
pub trait S3Writer<W: WriteExt>: S3WriterInfo + Sized {
    /// Whether `out` is the text that this writer writes for `x`.
    spec fn writes(&self, x: u64, out: Seq<u8>) -> bool;

    /// Writes `x`.
    fn write(&mut self, x: u64, w: &mut W)
        requires
            old(self).info_wf(),
            x < old(self).s3(),
        ensures
            final(self).info_wf(),
            final(self).s3() == old(self).s3(),
            final(self).bits() == old(self).bits(),
            exists|out: Seq<u8>| #[trigger] old(self).writes(x, out) && final(w).written() == old(w).written() + out;

    /// Writes the next value of `reader`, unless a new chunk must be taken first; tells
    /// whether it wrote.
    fn write_full(&mut self, reader: &mut S3BitReader, w: &mut W) -> (r: bool)
        requires
            takes_from_reader(old(self)),
            old(reader).wf(),
            old(reader).rng_ready() >= old(self).bits(),
        ensures
            r == (old(reader).max_written() != 0),
            !r ==> *final(reader) == *old(reader) && final(w).written() == old(w).written(),
            takes_from_reader(final(self)),
            final(self).s3() == old(self).s3(),
            final(self).bits() == old(self).bits(),
            r ==> exists|x: u64, out: Seq<u8>| #[trigger] takes(*old(reader), *final(reader), old(self).s3(), x)
                && #[trigger] old(self).writes(x, out) && final(w).written() == old(w).written() + out,
    {
        if reader.need_fill() {
            false
        } else {
            let ghost r0 = *reader;
            let bits = reader.take_bits_from_writer(self);
            assert(takes(r0, *reader, self.s3(), bits));
            self.write(bits, w);
            true
        }
    }
}

/// A writer of values as text, that may draw random numbers.
pub trait S3WriterRand<W: WriteExt, Rng: RngMinimal>: S3WriterInfo + Sized {
    /// Whether `out` is a text that this writer may write for `x`.
    spec fn writes(&self, x: u64, out: Seq<u8>) -> bool;

    /// How many more values the writer can write.
    spec fn writes_left(&self) -> nat;

    /// Writes `x`.
    fn write(&mut self, x: u64, w: &mut W, rng: &mut Rng)
        requires
            old(self).info_wf(),
            old(self).writes_left() > 0,
            x < old(self).s3(),
        ensures
            final(self).info_wf(),
            final(self).s3() == old(self).s3(),
            final(self).bits() == old(self).bits(),
            final(self).writes_left() + 1 >= old(self).writes_left(),
            exists|out: Seq<u8>| #[trigger] old(self).writes(x, out) && final(w).written() == old(w).written() + out;

    /// Writes the next value of `reader`, unless a new chunk must be taken first; tells
    /// whether it wrote.
    fn write_full(&mut self, reader: &mut S3BitReader, w: &mut W, rng: &mut Rng) -> (r: bool)
        requires
            takes_from_reader(old(self)),
            old(self).writes_left() > 0,
            old(reader).wf(),
            old(reader).rng_ready() >= old(self).bits(),
        ensures
            r == (old(reader).max_written() != 0),
            !r ==> *final(self) == *old(self) && *final(reader) == *old(reader) && final(w).written() == old(w).written()
                && *final(rng) == *old(rng),
            takes_from_reader(final(self)),
            final(self).s3() == old(self).s3(),
            final(self).bits() == old(self).bits(),
            r ==> final(self).writes_left() + 1 >= old(self).writes_left(),
            r ==> exists|x: u64, out: Seq<u8>| #[trigger] takes(*old(reader), *final(reader), old(self).s3(), x)
                && #[trigger] old(self).writes(x, out) && final(w).written() == old(w).written() + out,
    {
        if reader.need_fill() {
            false
        } else {
            let ghost r0 = *reader;
            let bits = reader.take_bits_from_writer(self);
            assert(takes(r0, *reader, self.s3(), bits));
            self.write(bits, w, rng);
            true
        }
    }

    /// Writes a value drawn at random, which carries no bits.
    fn write_fake(&mut self, w: &mut W, rng: &mut Rng)
        requires
            old(self).info_wf(),
            old(self).writes_left() > 0,
            old(self).s3() >= 1,
        ensures
            final(self).info_wf(),
            final(self).s3() == old(self).s3(),
            final(self).bits() == old(self).bits(),
            final(self).writes_left() + 1 >= old(self).writes_left(),
            exists|x: u64, out: Seq<u8>| x < old(self).s3() && #[trigger] old(self).writes(x, out)
                && final(w).written() == old(w).written() + out,
    {
        let x = rng.r64_range_excl(0..self.s3_once());
        self.write(x, w, rng);
    }
}

/// A writer of values that needs no random numbers, for places that offer them.
pub struct S3WriterRandWrap<T>(pub T);

impl<T: S3WriterInfo> S3WriterInfo for S3WriterRandWrap<T> {
    open spec fn s3(&self) -> nat {
        self.0.s3()
    }

    open spec fn bits(&self) -> nat {
        self.0.bits()
    }

    open spec fn info_wf(&self) -> bool {
        self.0.info_wf()
    }

    fn bits_once(&self) -> (r: u8) {
        self.0.bits_once()
    }

    fn s3_once(&self) -> (r: u64) {
        self.0.s3_once()
    }
}

impl<W: WriteExt, Rng: RngMinimal, T: S3Writer<W>> S3WriterRand<W, Rng> for S3WriterRandWrap<T> {
    open spec fn writes(&self, x: u64, out: Seq<u8>) -> bool {
        self.0.writes(x, out)
    }

    open spec fn writes_left(&self) -> nat {
        u64::MAX as nat
    }

    fn write(&mut self, x: u64, w: &mut W, rng: &mut Rng) {
        let ghost s0 = *self;
        let ghost w0 = w.written();
        self.0.write(x, w);
        proof {
            let out = choose|out: Seq<u8>| #[trigger] s0.0.writes(x, out) && w.written() == w0 + out;
            assert(<S3WriterRandWrap<T> as S3WriterRand<W, Rng>>::writes(&s0, x, out));
        }
    }
}

/// Writers of whole chunks of bits.
pub trait S3ChunkWriter {
}

/// What filling the bit queue found: the stream ended, or a new chunk is needed.
pub struct S3FillResult {
    pub eof_stream: bool,
    pub need_chunk: bool,
}

/// The few random numbers that the text writers need. Implement it to choose where
/// they come from; an implementation keeps each number inside the range it was asked for.
pub trait RngMinimal {
    fn r8(&mut self) -> u8;

    fn r64(&mut self) -> u64;

    /// A number in `range`, which is not empty.
    fn r8_range(&mut self, range: std::ops::RangeInclusive<u8>) -> (r: u8)
        requires
            !range@.exhausted,
            range@.start <= range@.end,
        ensures
            range@.start <= r <= range@.end;

    /// A number in `range`, which is not empty.
    fn r64_range_excl(&mut self, range: std::ops::Range<u64>) -> (r: u64)
        requires
            range.start < range.end,
        ensures
            range.start <= r < range.end;

    /// A digit character: [`digit_char`] of one draw of `r8_range(0..=9)`.
    fn r_char_num(&mut self) -> (c: char)
        ensures
            '0' <= c <= '9',
    {
        let d = self.r8_range(0..=9);
        digit_char(d)
    }
}

/// The character of the decimal digit `d`.
pub fn digit_char(d: u8) -> (c: char)
    requires
        d <= 9,
    ensures
        c as u32 == d as u32 + 48,
        '0' <= c <= '9',
{
    (d + 48) as char
}

/// `rand::rngs::ThreadRng`, the thread's random generator, carried as an opaque value.
#[verifier::external_type_specification]
#[verifier::external_body]
pub struct ExThreadRng(rand::rngs::ThreadRng);

/// The thread's random generator: `rand::rng()`. Nothing is claimed of it.
#[verifier::external_body]
pub(crate) fn thread_rng() -> (r: rand::rngs::ThreadRng) {
    rand::rng()
}

/// `rand::RngCore::next_u32`: a random `u32`. Nothing is claimed of it.
#[verifier::external_body]
pub(crate) fn next_u32_of(rng: &mut rand::rngs::ThreadRng) -> (r: u32) {
    rand::RngCore::next_u32(rng)
}

/// `rand::RngCore::next_u64`: a random `u64`. Nothing is claimed of it.
#[verifier::external_body]
fn next_u64_of(rng: &mut rand::rngs::ThreadRng) -> (r: u64) {
    rand::RngCore::next_u64(rng)
}

/// `rand::Rng::random_range` on a non-empty inclusive range of `u8`: claimed, a number
/// inside the range (what `random_range` promises; it panics on an empty range).
#[verifier::external_body]
fn random_range_incl_u8(rng: &mut rand::rngs::ThreadRng, range: std::ops::RangeInclusive<u8>) -> (r: u8)
    requires
        !range@.exhausted,
        range@.start <= range@.end,
    ensures
        range@.start <= r <= range@.end,
{
    rand::Rng::random_range(rng, range)
}

/// `rand::Rng::random_range` on a non-empty half-open range of `u64`: claimed, a number
/// inside the range (what `random_range` promises; it panics on an empty range).
#[verifier::external_body]
pub(crate) fn random_range_u64(rng: &mut rand::rngs::ThreadRng, range: std::ops::Range<u64>) -> (r: u64)
    requires
        range.start < range.end,
    ensures
        range.start <= r < range.end,
{
    rand::Rng::random_range(rng, range)
}

impl RngMinimal for rand::rngs::ThreadRng {
    fn r8(&mut self) -> u8 {
        let x = next_u32_of(self);
        (x % 256) as u8
    }

    fn r64(&mut self) -> u64 {
        next_u64_of(self)
    }

    fn r8_range(&mut self, range: std::ops::RangeInclusive<u8>) -> (r: u8) {
        random_range_incl_u8(self, range)
    }

    fn r64_range_excl(&mut self, range: std::ops::Range<u64>) -> (r: u64) {
        random_range_u64(self, range)
    }
}


/// Bits below `s3` padded on top with `delta` random bits stay below `2^n`, and `s3` is at
/// least `2^(n - 1)`.
proof fn lemma_padded_below(btw: u64, x: u64, bits: u64, n: u8, delta: u8, s3: u64)
    requires
        1 <= delta <= n <= 64,
        btw < s3,
        is_log2_floor((n - 1) as nat, s3 as nat),
        bits == put_above(btw, x, (n - delta) as u8),
        x as u128 <= mask128(delta),
    ensures
        n < 64 ==> bits < (1u64 << n as u64),
        s3 >= (1u64 << (n - 1) as u64),
{
    let sh = (n - delta) as u64;
    let nn = n as u64;
    lemma_shl_pow2_64((nn - 1) as u64);
    assert(mask128(delta) == ((1u128 << delta) - 1) as u128);
    if n < 64 {
        lemma_shl_pow2_64(nn);
        assert(bits < (1u64 << nn)) by (bit_vector)
            requires bits == btw | (x << sh), btw < (1u64 << nn), (x as u128) <= ((1u128 << delta) - 1) as u128,
                1 <= delta, delta as u64 <= nn, nn < 64, sh == nn - delta as u64;
    }
}

/// The product of the spaces written so far with one more needs at most `n` more bits.
proof fn lemma_product_bits(max0: nat, s3: nat, total: nat, n: nat)
    requires
        max0 <= pow2(total),
        s3 < pow2(n),
    ensures
        bit_len(max0 * s3) <= total + n,
{
    crate::text::num::lemma_pow2_ge1(total);
    assert(max0 * s3 <= pow2(total) * s3) by (nonlinear_arith) requires max0 <= pow2(total);
    assert(pow2(total) * s3 < pow2(total) * pow2(n)) by (nonlinear_arith)
        requires s3 < pow2(n), pow2(total) >= 1;
    lemma_pow2_add(total, n);
    lemma_bit_len_pow2(max0 * s3, total + n);
}

/// Dividing what is left by `s3` keeps it below the bound once the product grew by `s3`.
proof fn lemma_quotient_fits(btw0: nat, s3: nat, max0: nat, bound: nat)
    requires
        s3 >= 1,
        btw0 * max0 < bound,
    ensures
        (btw0 / s3) * (max0 * s3) < bound,
{
    let b1 = btw0 / s3;
    vstd::arithmetic::div_mod::lemma_fundamental_div_mod(btw0 as int, s3 as int);
    vstd::arithmetic::div_mod::lemma_mod_pos_bound(btw0 as int, s3 as int);
    assert(b1 * s3 <= btw0) by (nonlinear_arith)
        requires btw0 == s3 * b1 + btw0 % s3, btw0 % s3 >= 0;
    assert(b1 * (max0 * s3) <= btw0 * max0) by (nonlinear_arith)
        requires b1 * s3 <= btw0;
}

/// The product `max * s3` and the bits it needs; the product is kept only when it needs
/// at most `total` bits (else `0`).
fn next_product(max: u64, s3: u64, total: u8) -> (r: (u64, u8))
    requires
        total <= 64,
    ensures
        r.1 == bit_len((max * s3) as nat),
        r.1 <= total ==> r.0 == max * s3,
        r.1 > total ==> r.0 == 0,
{
    match max.checked_mul(s3) {
        Some(written_after) => {
            let after_bit_len = bit_len_u64(written_after);
            if after_bit_len > total {
                (0, after_bit_len)
            } else {
                (written_after, after_bit_len)
            }
        }
        None => {
            proof {
                assert(pow2(64) == 0x1_0000_0000_0000_0000) by { reveal_with_fuel(pow2, 65); }
                lemma_bit_len_pow2((max * s3) as nat, 64);
            }
            assert(max as u128 * s3 as u128 <= 0xFFFF_FFFF_FFFF_FFFFu128 * 0xFFFF_FFFF_FFFF_FFFFu128) by (nonlinear_arith)
                requires max <= 0xFFFF_FFFF_FFFF_FFFFu64, s3 <= 0xFFFF_FFFF_FFFF_FFFFu64;
            let written_after = max as u128 * s3 as u128;
            (0, bit_len_u128(written_after))
        }
    }
}

/// The `k` lowest bits of `v`.
pub open spec fn low_bits(v: u64, k: u64) -> u64 {
    v & (((1u64 << k) - 1) as u64)
}

/// `bits` brought below `s3` by clearing bit `n - 1`, when it is not below already: the bits
/// below bit `n - 1` stay as they are.
fn fold_below(bits: u64, s3: u64, n: u8) -> (r: u64)
    requires
        1 <= n <= 64,
        n < 64 ==> bits < (1u64 << n as u64),
        s3 >= (1u64 << (n - 1) as u64),
    ensures
        r < s3,
        low_bits(r, (n - 1) as u64) == low_bits(bits, (n - 1) as u64),
{
    let nn = n as u64;
    let sh1: u64 = nn - 1;
    if bits < s3 {
        return bits;
    }
    let r = bits ^ (1u64 << sh1);
    assert(r < s3 && low_bits(r, sh1) == low_bits(bits, sh1)) by (bit_vector)
        requires r == bits ^ (1u64 << sh1), nn < 64 ==> bits < (1u64 << nn), bits >= s3, s3 >= (1u64 << sh1),
            1 <= nn <= 64, sh1 == nn - 1;
    r
}

/// Facts about zero and about shifts by zero.
proof fn lemma_zero_bits()
    by (bit_vector)
    ensures
        0u128 & !mask128(0) == 0,
        0u64 >> 0u64 == 0,
        1u128 << 0u8 == 1,
{
}

/// The mask of the `n` lowest bits of a `u128`.
pub open spec fn mask128(n: u8) -> u128 {
    if n >= 128 { u128::MAX } else { ((1u128 << n) - 1) as u128 }
}

/// A queue of up to 128 bits: filled at the top, taken from the bottom.
#[derive(Debug)]
pub struct S3BitBuf {
    bits: u128,
    bit_rest: u8,
}

impl View for S3BitBuf {
    /// (the bits, lowest first; how many there are)
    type V = (u128, u8);

    closed spec fn view(&self) -> (u128, u8) {
        (self.bits, self.bit_rest)
    }
}

impl S3BitBuf {
    pub open spec fn wf(&self) -> bool {
        &&& self@.1 <= 128
        &&& self@.0 & !mask128(self@.1) == 0
    }

    /// An empty queue.
    pub fn new() -> (r: Self)
        ensures
            r@ == (0u128, 0u8),
            r.wf(),
    {
        proof { lemma_zero_bits(); }
        Self { bits: 0, bit_rest: 0 }
    }

    /// A full queue of 128 bits: `lower_bits` first.
    pub fn new_full(lower_bits: u64, upper_bits: u64) -> (r: Self)
        ensures
            r@ == ((lower_bits as u128) | ((upper_bits as u128) << 64u128), 128u8),
            r.wf(),
    {
        let bits = (lower_bits as u128) | ((upper_bits as u128) << 64u128);
        assert(bits & !mask128(128) == 0) by (bit_vector) requires mask128(128) == u128::MAX;
        Self { bits, bit_rest: 128 }
    }

    /// Puts the `n` lowest bits of `bits` on top.
    pub fn fill_trimed(&mut self, bits: u64, n: u8)
        requires
            old(self).wf(),
            1 <= n <= 64,
            old(self)@.1 <= 64,
        ensures
            final(self).wf(),
            final(self)@ == (old(self)@.0 | (((bits & (u64::MAX >> (64 - n) as u64)) as u128) << old(self)@.1 as u128), (old(self)@.1 + n) as u8),
    {
        let b = bits & (u64::MAX >> (64 - n) as u64);
        let m = (64 - n) as u64;
        assert(b >> n as u64 == 0) by (bit_vector) requires b == bits & (u64::MAX >> m), m == 64 - n, 1 <= n <= 64;
        self.fill(b, n);
    }

    /// Puts `n` bits (`bits`, which has no higher bits) on top, when they fit.
    pub fn fill(&mut self, bits: u64, n: u8)
        requires
            old(self).wf(),
            n <= 64,
            old(self)@.1 <= 64,
            n < 64 ==> bits >> n as u64 == 0,
        ensures
            final(self).wf(),
            final(self)@ == (old(self)@.0 | ((bits as u128) << old(self)@.1 as u128), (old(self)@.1 + n) as u8),
    {
        if 128 < self.bit_rest + n {
            return;
        }
        let r = self.bit_rest;
        let v = self.bits;
        let nv = v | ((bits as u128) << (r as u128));
        proof {
            let mo = mask128(r);
            let mn = mask128((r + n) as u8);
            assert(mo == (if r >= 128 { u128::MAX } else { ((1u128 << r) - 1) as u128 }));
            assert(mn == (if r + n >= 128 { u128::MAX } else { ((1u128 << (r + n) as u8) - 1) as u128 }));
            assert(nv & !mn == 0) by (bit_vector)
                requires
                    nv == v | ((bits as u128) << (r as u128)),
                    v & !mo == 0,
                    r <= 64, n <= 64,
                    n < 64 ==> bits >> n as u64 == 0,
                    mo == (if r >= 128 { u128::MAX } else { ((1u128 << r) - 1) as u128 }),
                    mn == (if r + n >= 128 { u128::MAX } else { ((1u128 << (r + n) as u8) - 1) as u128 });
        }
        self.bits = nv;
        self.bit_rest = r + n;
    }

    /// Takes the `n` lowest bits (all there are, if fewer): the bits and how many.
    pub fn try_take_bits(&mut self, n: u8) -> (r: (u64, u8))
        requires
            old(self).wf(),
            n <= 64,
        ensures
            final(self).wf(),
            old(self)@.1 < n ==> r == (old(self)@.0 as u64, old(self)@.1) && r.0 as u128 == old(self)@.0 && final(self)@ == (0u128, 0u8),
            old(self)@.1 >= n ==> r.1 == n && r.0 as u128 == old(self)@.0 & mask128(n)
                && final(self)@ == (old(self)@.0 >> n as u128, (old(self)@.1 - n) as u8),
    {
        if self.bit_rest < n {
            let ret = self.bits as u64;
            let n_ret = self.bit_rest;
            let v = self.bits;
            let r = self.bit_rest;
            let ghost mo = mask128(r);
            assert(mo == ((1u128 << r) - 1) as u128);
            assert(ret as u128 == v) by (bit_vector)
                requires ret == v as u64, v & !mo == 0, r < 64, mo == ((1u128 << r) - 1) as u128;
            self.bits = 0;
            self.bit_rest = 0;
            proof { lemma_zero_bits(); }
            (ret, n_ret)
        } else {
            (self.take_bits(n), n)
        }
    }

    /// Takes the `n` lowest bits.
    pub fn take_bits(&mut self, n: u8) -> (r: u64)
        requires
            old(self).wf(),
            n <= 64,
            n <= old(self)@.1,
        ensures
            final(self).wf(),
            r as u128 == old(self)@.0 & mask128(n),
            final(self)@ == (old(self)@.0 >> n as u128, (old(self)@.1 - n) as u8),
    {
        let v = self.bits;
        let r = self.bit_rest;
        if n == 0 {
            assert(v >> 0u128 == v && v & mask128(0) == 0) by (bit_vector) requires mask128(0) == ((1u128 << 0u8) - 1) as u128;
            return 0;
        }
        assert(1u128 << (n as u128) >= 1) by (bit_vector) requires 1 <= n <= 64;
        let mask: u128 = (1u128 << (n as u128)) - 1;
        let ret = (v & mask) as u64;
        let nv = v >> (n as u128);
        proof {
            let mo = mask128(r);
            let mn = mask128((r - n) as u8);
            assert(mo == (if r >= 128 { u128::MAX } else { ((1u128 << r) - 1) as u128 }));
            assert(mn == (if r - n >= 128 { u128::MAX } else { ((1u128 << (r - n) as u8) - 1) as u128 }));
            assert(mask128(n) == ((1u128 << n) - 1) as u128);
            assert(ret as u128 == v & mask128(n)) by (bit_vector)
                requires ret == (v & mask) as u64, mask == ((1u128 << (n as u128)) - 1) as u128, 1 <= n <= 64,
                    mask128(n) == ((1u128 << n) - 1) as u128;
            assert(nv & !mn == 0) by (bit_vector)
                requires nv == v >> (n as u128), v & !mo == 0, 1 <= n <= r, r <= 128,
                    mo == (if r >= 128 { u128::MAX } else { ((1u128 << r) - 1) as u128 }),
                    mn == (if r - n >= 128 { u128::MAX } else { ((1u128 << (r - n) as u8) - 1) as u128 });
        }
        self.bits = nv;
        self.bit_rest = r - n;
        ret
    }
}


/// Bytes read in order, as from a file or a pipe: each read gives at most `limit` bytes
/// (a pipe may hand over fewer bytes than were asked for).
pub struct ByteSrc {
    data: Vec<u8>,
    pos: usize,
    limit: usize,
}

impl ByteSrc {
    /// The bytes not yet read.
    pub closed spec fn rest(&self) -> Seq<u8> {
        self.data@.subrange(self.pos as int, self.data@.len() as int)
    }

    /// The most bytes that one read gives.
    pub closed spec fn limit(&self) -> nat {
        self.limit as nat
    }

    pub closed spec fn wf(&self) -> bool {
        &&& self.pos <= self.data@.len()
        &&& self.limit >= 1
    }

    /// A source that gives as many bytes as are asked for, while there are some.
    pub fn new(data: Vec<u8>) -> (r: Self)
        ensures
            r.wf(),
            r.rest() == data@,
            r.limit() == usize::MAX,
    {
        Self::with_limit(data, usize::MAX)
    }

    /// A source that gives at most `limit` bytes a read.
    pub fn with_limit(data: Vec<u8>, limit: usize) -> (r: Self)
        requires
            limit >= 1,
        ensures
            r.wf(),
            r.rest() == data@,
            r.limit() == limit,
    {
        let r = Self { data, pos: 0, limit };
        assert(r.rest() =~= r.data@);
        r
    }

    /// Reads up to `n` bytes: no more than are left, nor than the limit.
    pub fn read_up_to(&mut self, n: usize) -> (r: Vec<u8>)
        requires
            old(self).wf(),
        ensures
            final(self).wf(),
            final(self).limit() == old(self).limit(),
            r@.len() == ({
                let m = if n <= old(self).rest().len() { n as nat } else { old(self).rest().len() };
                if m <= old(self).limit() { m } else { old(self).limit() }
            }),
            r@ == old(self).rest().subrange(0, r@.len() as int),
            final(self).rest() == old(self).rest().subrange(r@.len() as int, old(self).rest().len() as int),
            r@.len() == 0 ==> n == 0 || old(self).rest().len() == 0,
    {
        let mut r: Vec<u8> = Vec::new();
        let ghost rest0 = self.rest();
        let ghost p0 = self.pos;
        let max = if n <= self.limit { n } else { self.limit };
        while r.len() < max && self.pos < self.data.len()
            invariant
                self.wf(),
                self.limit == old(self).limit,
                p0 <= self.pos,
                r@.len() == self.pos - p0,
                r@.len() <= max,
                max <= n,
                max <= self.limit,
                max == n || max == self.limit,
                rest0 == self.data@.subrange(p0 as int, self.data@.len() as int),
                r@ == rest0.subrange(0, r@.len() as int),
            decreases self.data@.len() - self.pos,
        {
            r.push(self.data[self.pos]);
            self.pos = self.pos + 1;
            assert(r@ =~= rest0.subrange(0, r@.len() as int));
        }
        assert(self.rest() =~= rest0.subrange(r@.len() as int, rest0.len() as int));
        r
    }

    /// Reads until `n` bytes are read or nothing is left: `n` bytes, or all that are left.
    pub fn read_full(&mut self, n: usize) -> (r: Vec<u8>)
        requires
            old(self).wf(),
        ensures
            final(self).wf(),
            final(self).limit() == old(self).limit(),
            r@.len() == (if n <= old(self).rest().len() { n as nat } else { old(self).rest().len() }),
            r@ == old(self).rest().subrange(0, r@.len() as int),
            final(self).rest() == old(self).rest().subrange(r@.len() as int, old(self).rest().len() as int),
    {
        let ghost rest0 = self.rest();
        let mut r: Vec<u8> = Vec::new();
        while r.len() < n
            invariant
                self.wf(),
                self.limit() == old(self).limit(),
                rest0 == old(self).rest(),
                r@.len() <= n,
                r@.len() <= rest0.len(),
                r@ == rest0.subrange(0, r@.len() as int),
                self.rest() == rest0.subrange(r@.len() as int, rest0.len() as int),
            ensures
                self.wf(),
                self.limit() == old(self).limit(),
                r@.len() == (if n <= rest0.len() { n as nat } else { rest0.len() }),
                r@ == rest0.subrange(0, r@.len() as int),
                self.rest() == rest0.subrange(r@.len() as int, rest0.len() as int),
            decreases n - r@.len(),
        {
            let got = self.read_up_to(n - r.len());
            if got.len() == 0 {
                break;
            }
            let ghost r0 = r@;
            let mut i: usize = 0;
            while i < got.len()
                invariant
                    i <= got@.len(),
                    r@ == r0 + got@.subrange(0, i as int),
                decreases got@.len() - i,
            {
                r.push(got[i]);
                i = i + 1;
                assert(r@ =~= r0 + got@.subrange(0, i as int));
            }
            assert(got@.subrange(0, i as int) =~= got@);
            assert(r@ =~= rest0.subrange(0, r@.len() as int));
            assert(self.rest() =~= rest0.subrange(r@.len() as int, rest0.len() as int));
        }
        r
    }
}

/// The little-endian value of up to eight bytes.
pub open spec fn le_u64_of(s: Seq<u8>) -> u64
    decreases s.len(),
{
    if s.len() == 0 { 0 } else { le_u64_of(s.drop_last()) | ((s.last() as u64) << (8 * (s.len() - 1)) as u64) }
}

/// The little-endian value of up to eight bytes, as `u64::from_le_bytes` of them padded with zeros.
fn le_u64(b: &Vec<u8>, from: usize, count: usize) -> (r: u64)
    requires
        count <= 8,
        from + count <= b@.len(),
        from <= 8,
    ensures
        r == le_u64_of(b@.subrange(from as int, from + count)),
        count < 8 ==> r >> (8 * count) as u64 == 0,
{
    let mut v: u64 = 0;
    let mut i: usize = 0;
    proof {
        assert(b@.subrange(from as int, from as int) =~= Seq::<u8>::empty());
        lemma_zero_bits();
    }
    while i < count
        invariant
            i <= count <= 8,
            from <= 8,
            from + count <= b@.len(),
            v == le_u64_of(b@.subrange(from as int, from + i)),
            v >> (8 * i) as u64 == 0 || i == 8,
        decreases count - i,
    {
        assert(from + i < b@.len());
        let x = b[from + i];
        let sh = (8 * i) as u64;
        let nv = v | ((x as u64) << sh);
        proof {
            assert(b@.subrange(from as int, from + i + 1).drop_last() =~= b@.subrange(from as int, from + i));
            assert(b@.subrange(from as int, from + i + 1).last() == x);
            let ii = i as u64;
            assert(ii < 7 ==> nv >> (8 * (ii + 1)) == 0) by (bit_vector)
                requires nv == v | ((x as u64) << (8 * ii)), v >> (8 * ii) == 0, ii < 8;
        }
        v = nv;
        i = i + 1;
    }
    v
}

/// A bit queue filled from bytes, eight at a time.
#[derive(Debug)]
pub struct S3BitBufReader {
    buf: S3BitBuf,
    reader_eof: bool,
}

impl S3BitBufReader {
    pub closed spec fn buf(&self) -> S3BitBuf {
        self.buf
    }

    pub closed spec fn reader_eof(&self) -> bool {
        self.reader_eof
    }

    pub open spec fn wf(&self) -> bool {
        self.buf().wf()
    }

    /// Starts with the first 16 bytes of `r` (all of them, if fewer).
    pub fn new(r: &mut ByteSrc) -> (res: Self)
        requires
            old(r).wf(),
        ensures
            final(r).wf(),
            res.wf(),
            ({
                let got = old(r).rest().subrange(0, if old(r).rest().len() >= 16 { 16int } else { old(r).rest().len() as int });
                let lo = if got.len() < 8 { got.len() as int } else { 8 };
                &&& final(r).rest() == old(r).rest().subrange(got.len() as int, old(r).rest().len() as int)
                &&& res.reader_eof() == (got.len() < 16)
                &&& res.buf()@.1 == got.len() * 8
                &&& res.buf()@.0 == (le_u64_of(got.subrange(0, lo)) as u128)
                    | ((le_u64_of(got.subrange(lo, got.len() as int)) as u128) << (8 * lo) as u128)
            }),
    {
        let bytes = r.read_full(16);
        let n = bytes.len();
        let lo_n = if n < 8 { n } else { 8 };
        let lower = le_u64(&bytes, 0, lo_n);
        let upper = le_u64(&bytes, lo_n, n - lo_n);
        let mut buf = S3BitBuf::new();
        buf.fill(lower, (lo_n * 8) as u8);
        assert((0u128 | ((lower as u128) << 0u128)) == lower as u128) by (bit_vector);
        buf.fill(upper, ((n - lo_n) * 8) as u8);
        Self { buf, reader_eof: n < 16 }
    }

    /// Tops the queue up with the next eight bytes of `r`, when there is room for them.
    pub fn fill(&mut self, r: &mut ByteSrc)
        requires
            old(self).wf(),
            old(r).wf(),
        ensures
            final(self).wf(),
            final(r).wf(),
            old(self).reader_eof() || old(self).buf()@.1 >= 64 ==> *final(self) == *old(self) && final(r).rest() == old(r).rest(),
            !(old(self).reader_eof() || old(self).buf()@.1 >= 64) ==> ({
                let k = if old(r).rest().len() >= 8 { 8int } else { old(r).rest().len() as int };
                let got = old(r).rest().subrange(0, k);
                &&& final(r).rest() == old(r).rest().subrange(k, old(r).rest().len() as int)
                &&& final(self).reader_eof() == (k != 8)
                &&& final(self).buf()@ == (old(self).buf()@.0 | ((le_u64_of(got) as u128) << old(self).buf()@.1 as u128), (old(self).buf()@.1 + 8 * k) as u8)
            }),
    {
        if self.reader_eof {
            return;
        }
        if self.buf.bit_rest >= 64 {
            return;
        }
        let bytes = r.read_full(8);
        let n = bytes.len();
        let bits = le_u64(&bytes, 0, n);
        assert(bytes@.subrange(0, n as int) =~= bytes@);
        self.buf.fill(bits, (n * 8) as u8);
        self.reader_eof = n != 8;
    }

    pub fn try_take_bits(&mut self, n: u8) -> (r: (u64, u8))
        requires
            old(self).wf(),
            n <= 64,
        ensures
            final(self).wf(),
            final(self).reader_eof() == old(self).reader_eof(),
            old(self).buf()@.1 < n ==> r == (old(self).buf()@.0 as u64, old(self).buf()@.1) && r.0 as u128 == old(self).buf()@.0 && final(self).buf()@ == (0u128, 0u8),
            old(self).buf()@.1 >= n ==> r.1 == n && r.0 as u128 == old(self).buf()@.0 & mask128(n)
                && final(self).buf()@ == (old(self).buf()@.0 >> n as u128, (old(self).buf()@.1 - n) as u8),
    {
        self.buf.try_take_bits(n)
    }

    pub fn is_reader_eof(&self) -> (r: bool)
        ensures
            r == self.reader_eof(),
    {
        self.reader_eof
    }

    /// Whether every bit was read and taken.
    pub fn is_eof(&self) -> (r: bool)
        ensures
            r == (self.reader_eof() && self.buf()@.1 == 0),
    {
        self.reader_eof && self.buf.bit_rest == 0
    }
}

/// `x` put above the `n` low bits of `bits`.
pub open spec fn put_above(bits: u64, x: u64, n: u8) -> u64 {
    bits | (x << n as u64)
}

/// A queue of random bits.
#[derive(Debug)]
pub struct RngBuf {
    buf: S3BitBuf,
}

impl RngBuf {
    /// How many random bits are ready.
    pub closed spec fn ready(&self) -> nat {
        self.buf@.1 as nat
    }

    pub closed spec fn wf(&self) -> bool {
        self.buf.wf()
    }

    /// Starts with 128 random bits.
    pub fn new<R: RngMinimal>(rng: &mut R) -> (r: Self)
        ensures
            r.wf(),
            r.ready() == 128,
    {
        let lower = rng.r64();
        let upper = rng.r64();
        Self { buf: S3BitBuf::new_full(lower, upper) }
    }

    /// Tops the queue up with 64 random bits when fewer than 64 are ready.
    pub fn fill<R: RngMinimal>(&mut self, rng: &mut R)
        requires
            old(self).wf(),
        ensures
            final(self).wf(),
            final(self).ready() >= 64,
            old(self).ready() >= 64 ==> *final(self) == *old(self),
            old(self).ready() < 64 ==> final(self).ready() == old(self).ready() + 64,
    {
        if self.buf.bit_rest >= 64 {
            return;
        }
        let r_bits = rng.r64();
        self.buf.fill(r_bits, 64);
    }

    /// `n` random bits.
    pub fn r_bits(&mut self, n: u8) -> (r: u64)
        requires
            old(self).wf(),
            n <= 64,
            n <= old(self).ready(),
        ensures
            final(self).wf(),
            final(self).ready() == old(self).ready() - n,
            r as u128 <= mask128(n),
    {
        let ghost v = self.buf@.0;
        let ghost m = mask128(n);
        let r = self.buf.take_bits(n);
        assert(v & m <= m) by (bit_vector);
        r
    }

    /// `bits` (of `bits_n` bits) with `more_n` random bits above them.
    pub fn concat(&mut self, bits: u64, bits_n: u8, more_n: u8) -> (r: u64)
        requires
            old(self).wf(),
            bits_n < 64,
            more_n <= 64,
            more_n <= old(self).ready(),
        ensures
            final(self).wf(),
            final(self).ready() == old(self).ready() - more_n,
            exists|x: u64| r == #[trigger] put_above(bits, x, bits_n) && x as u128 <= mask128(more_n),
    {
        let x = self.r_bits(more_n);
        let r = bits | (x << bits_n as u64);
        assert(r == put_above(bits, x, bits_n));
        r
    }
}


/// How many bits `x` needs: `0` for `0`, else `floor(log2(x)) + 1`.
pub open spec fn bit_len(x: nat) -> nat {
    if x == 0 { 0 } else { log2_floor(x) + 1 }
}

/// `64 - x.leading_zeros()`: how many bits `x` needs.
pub fn bit_len_u64(x: u64) -> (r: u8)
    ensures
        r == bit_len(x as nat),
        r <= 64,
{
    if x == 0 { 0 } else { (ilog2(x) + 1) as u8 }
}

/// How a bit writer changes when the value `v` of a state space of `s3` values is added: the
/// chunk goes on, or, once it cannot take another such space, its `chunk_sz` bits go to the
/// queue and a new chunk is needed.
pub open spec fn writes_s3(before: S3BitWriter, after: S3BitWriter, v: u64, s3: u64) -> bool {
    let read = (before.bits_read() + before.max_read_value() * v) as u64;
    let prod = before.max_read_value() * s3;
    let bits_after = if prod <= u64::MAX { bit_len(prod as nat) } else { 65nat };
    &&& after.eof() == before.eof()
    &&& if before.chunk_sz() < bits_after {
        &&& after.buf()@ == (before.buf()@.0 | (((read & (u64::MAX >> (64 - before.chunk_sz()) as u64)) as u128) << before.buf()@.1 as u128),
            (before.buf()@.1 + before.chunk_sz()) as u8)
        &&& after.max_read_value() == 0
        &&& after.bits_read() == 0
        &&& after.chunk_sz() == 0
    } else {
        &&& after.buf() == before.buf()
        &&& after.max_read_value() == prod
        &&& after.bits_read() == read
        &&& after.chunk_sz() == before.chunk_sz()
    }
}

/// Gathers values of state spaces (a value of `0..s3` at a time) back into chunks of bits.
pub struct S3BitWriter {
    buf: S3BitBuf,
    bits_read: u64,
    max_read_value: u64,
    chunk_sz: u8,
    is_eof: bool,
}

impl S3BitWriter {
    pub closed spec fn buf(&self) -> S3BitBuf {
        self.buf
    }

    /// The chunk gathered so far.
    pub closed spec fn bits_read(&self) -> u64 {
        self.bits_read
    }

    /// The product of the state spaces gathered into the chunk so far (`0`: a new chunk is needed).
    pub closed spec fn max_read_value(&self) -> u64 {
        self.max_read_value
    }

    /// The bits of the chunk being gathered.
    pub closed spec fn chunk_sz(&self) -> u8 {
        self.chunk_sz
    }

    pub closed spec fn eof(&self) -> bool {
        self.is_eof
    }

    pub open spec fn wf(&self) -> bool {
        self.buf().wf()
    }

    pub fn new() -> (r: Self)
        ensures
            r.wf(),
            r.buf()@ == (0u128, 0u8),
            r.bits_read() == 0,
            r.max_read_value() == 0,
            r.chunk_sz() == 0,
            !r.eof(),
    {
        Self { buf: S3BitBuf::new(), bits_read: 0, max_read_value: 0, chunk_sz: 0, is_eof: false }
    }

    /// Whether a new chunk size must be set before more values come.
    pub fn need_fill(&self) -> (r: bool)
        ensures
            r == (self.max_read_value() == 0),
    {
        self.max_read_value == 0
    }

    pub fn is_eof(&self) -> (r: bool)
        ensures
            r == self.eof(),
    {
        self.is_eof
    }

    /// Adds the value `s3_value` of a state space of `s3` values to the chunk; once the chunk
    /// cannot take another such space, its `chunk_sz` bits go to the queue.
    pub fn write_s3(&mut self, s3_value: u64, s3: u64)
        requires
            old(self).wf(),
            old(self).max_read_value() != 0,
            old(self).bits_read() + old(self).max_read_value() * s3_value <= u64::MAX,
            1 <= old(self).chunk_sz() <= 64,
            old(self).buf()@.1 <= 64,
        ensures
            final(self).wf(),
            writes_s3(*old(self), *final(self), s3_value, s3),
    {
        self.bits_read = self.bits_read + self.max_read_value * s3_value;
        let after_bit_len: u8;
        match self.max_read_value.checked_mul(s3) {
            Some(read_after) => {
                after_bit_len = bit_len_u64(read_after);
                self.max_read_value = read_after;
            }
            None => {
                after_bit_len = 65;
            }
        }
        if self.chunk_sz < after_bit_len {
            self.buf.fill_trimed(self.bits_read, self.chunk_sz);
            self.max_read_value = 0;
            self.bits_read = 0;
            self.chunk_sz = 0;
        }
    }

    /// Starts a new chunk of `chunk_sz` bits, if one is needed.
    pub fn set_chunk_size(&mut self, chunk_sz: u8) -> (r: bool)
        requires
            chunk_sz <= 64,
        ensures
            r == (old(self).max_read_value() == 0),
            !r ==> *final(self) == *old(self),
            r ==> final(self).bits_read() == 0 && final(self).max_read_value() == 1 && final(self).chunk_sz() == chunk_sz
                && final(self).buf() == old(self).buf() && final(self).eof() == old(self).eof(),
    {
        if !self.need_fill() {
            return false;
        }
        self.bits_read = 0;
        self.max_read_value = 1;
        self.chunk_sz = chunk_sz;
        true
    }

    /// Whether a whole 64-bit chunk is ready.
    pub fn has_chunk(&self) -> (r: bool)
        ensures
            r == (!self.eof() && self.buf()@.1 >= 64),
    {
        !self.is_eof && self.buf.bit_rest >= 64
    }

    /// The next 64 gathered bits, once they are ready.
    pub fn try_take_chunk(&mut self) -> (r: Option<u64>)
        requires
            old(self).wf(),
        ensures
            final(self).wf(),
            !(!old(self).eof() && old(self).buf()@.1 >= 64) ==> r is None && *final(self) == *old(self),
            !old(self).eof() && old(self).buf()@.1 >= 64 ==> ({
                &&& r matches Some(x) && x as u128 == old(self).buf()@.0 & mask128(64)
                &&& final(self).buf()@ == (old(self).buf()@.0 >> 64u128, (old(self).buf()@.1 - 64) as u8)
                &&& final(self).eof() == old(self).eof()
                &&& final(self).bits_read() == old(self).bits_read()
                &&& final(self).max_read_value() == old(self).max_read_value()
                &&& final(self).chunk_sz() == old(self).chunk_sz()
            }),
    {
        if self.has_chunk() {
            Some(self.buf.take_bits(64))
        } else {
            None
        }
    }

    /// Ends the stream: the bits left and how many there are. They must be whole bytes and
    /// fewer than a chunk: with 64 or more buffered a whole chunk is still waiting to be taken.
    pub fn take_on_eof(&mut self) -> (r: (u64, u8))
        requires
            old(self).wf(),
            !old(self).eof() && old(self).buf()@.1 != 0 ==> old(self).buf()@.1 < 64 && old(self).buf()@.1 % 8 == 0,
        ensures
            final(self).wf(),
            final(self).eof(),
            old(self).eof() || old(self).buf()@.1 == 0 ==> r == (0u64, 0u8),
            !(old(self).eof() || old(self).buf()@.1 == 0) ==> r.1 == old(self).buf()@.1
                && r.0 as u128 == old(self).buf()@.0 & mask128(old(self).buf()@.1)
                && final(self).buf()@.1 == 0,
    {
        let rest = self.buf.bit_rest;
        let is_eof = self.is_eof;
        self.is_eof = true;
        if is_eof || rest == 0 {
            return (0, 0);
        }
        (self.buf.take_bits(rest), rest)
    }
}


/// The product of the first `n` state spaces.
pub open spec fn radix_prod(ss: Seq<u64>, n: nat) -> nat
    decreases n,
{
    if n == 0 { 1 } else { radix_prod(ss, (n - 1) as nat) * (ss[n - 1] as nat) }
}

/// The number whose digits are `vs` in the mixed radix `ss`, lowest first:
/// `vs[0] + ss[0] * (vs[1] + ss[1] * (vs[2] + ...))`.
pub open spec fn radix_value(vs: Seq<u64>, ss: Seq<u64>) -> nat
    decreases vs.len(),
{
    if vs.len() == 0 { 0 } else { radix_value(vs.drop_last(), ss) + (vs.last() as nat) * radix_prod(ss, (vs.len() - 1) as nat) }
}

/// Step `j` of gathering: the value `vs[j]` of the space `ss[j]` takes the writer from
/// `ws[j]` to `ws[j + 1]`.
pub open spec fn gathers(ws: Seq<S3BitWriter>, vs: Seq<u64>, ss: Seq<u64>, j: int) -> bool {
    vs[j] < ss[j] && writes_s3(ws[j], ws[j + 1], vs[j], ss[j])
}

/// After `i` values gathered without the chunk ending, the writer holds the mixed-radix number
/// of them and the product of their spaces.
proof fn lemma_gather_prefix(ws: Seq<S3BitWriter>, vs: Seq<u64>, ss: Seq<u64>, i: nat)
    requires
        vs.len() == ss.len(),
        ws.len() == vs.len() + 1,
        ws[0].bits_read() == 0,
        ws[0].max_read_value() == 1,
        forall|j: int| 0 <= j < vs.len() ==> #[trigger] gathers(ws, vs, ss, j),
        forall|j: int| 0 < j < vs.len() ==> #[trigger] ws[j].max_read_value() != 0,
        i < ws.len(),
        i < vs.len() || ws[i as int].max_read_value() != 0,
    ensures
        ws[i as int].bits_read() == radix_value(vs.take(i as int), ss),
        ws[i as int].max_read_value() == radix_prod(ss, i),
        radix_value(vs.take(i as int), ss) < radix_prod(ss, i),
    decreases i,
{
    if i == 0 {
        assert(vs.take(0) =~= Seq::<u64>::empty());
    } else {
        let j = (i - 1) as nat;
        lemma_gather_prefix(ws, vs, ss, j);
        let a = ws[j as int];
        let b = ws[i as int];
        assert(gathers(ws, vs, ss, j as int));
        assert(b.max_read_value() != 0);
        let p = radix_prod(ss, j);
        let r0 = radix_value(vs.take(j as int), ss);
        let v = vs[j as int];
        let sj = ss[j as int];
        assert(vs.take(i as int).drop_last() =~= vs.take(j as int));
        assert(radix_value(vs.take(i as int), ss) == r0 + v * p);
        assert(r0 + p * v < p * sj) by (nonlinear_arith)
            requires r0 < p, v < sj;
        assert(v * p == p * v) by (nonlinear_arith);
        assert(radix_prod(ss, i) == p * sj);
    }
}

/// Gathering values `vs` of the state spaces `ss` into a chunk (each with
/// [`S3BitWriter::write_s3`]) gives their number in that mixed radix, `vs[0] + ss[0] * vs[1] +
/// ss[0] * ss[1] * vs[2] + ...`, the inverse of taking them with [`S3BitReader::take_bits`];
/// when the last value ends the chunk, the chunk's bits of that number go to the queue.
pub proof fn law_gather_values(ws: Seq<S3BitWriter>, vs: Seq<u64>, ss: Seq<u64>)
    requires
        vs.len() == ss.len(),
        vs.len() >= 1,
        ws.len() == vs.len() + 1,
        ws[0].bits_read() == 0,
        ws[0].max_read_value() == 1,
        forall|j: int| 0 <= j < vs.len() ==> #[trigger] gathers(ws, vs, ss, j),
        forall|j: int| 0 < j < vs.len() ==> #[trigger] ws[j].max_read_value() != 0,
    ensures
        ({
            let n = vs.len() as int;
            &&& ws[n].max_read_value() != 0 ==> ws[n].bits_read() == radix_value(vs, ss)
                && ws[n].max_read_value() == radix_prod(ss, n as nat)
            &&& ws[n].max_read_value() == 0 ==> ws[n].buf()@ == (ws[n - 1].buf()@.0
                    | ((((radix_value(vs, ss) as u64) & (u64::MAX >> (64 - ws[n - 1].chunk_sz()) as u64)) as u128) << ws[n - 1].buf()@.1 as u128),
                (ws[n - 1].buf()@.1 + ws[n - 1].chunk_sz()) as u8)
        }),
{
    let n = vs.len() as int;
    assert(vs.take(n) =~= vs);
    if ws[n].max_read_value() != 0 {
        lemma_gather_prefix(ws, vs, ss, n as nat);
    } else {
        let j = (n - 1) as nat;
        lemma_gather_prefix(ws, vs, ss, j);
        let a = ws[j as int];
        assert(gathers(ws, vs, ss, j as int));
        assert(vs.drop_last() =~= vs.take(j as int));
        let p = radix_prod(ss, j);
        let v = vs[j as int];
        assert(v * p == p * v) by (nonlinear_arith);
        assert(radix_value(vs, ss) == radix_value(vs.take(j as int), ss) + v * p);
        let prod = a.max_read_value() * ss[j as int];
        let bits_after = if prod <= u64::MAX { bit_len(prod as nat) } else { 65nat };
        if !(a.chunk_sz() < bits_after) {
            assert(ws[n].max_read_value() == prod);
            assert(a.max_read_value() * ss[j as int] >= 1) by (nonlinear_arith) requires a.max_read_value() >= 1, ss[j as int] >= 1;
        }
    }
}

/// A reader of values from text of kind `R`: the other side of a writer of values, whose
/// values go back into a [`S3BitWriter`].
pub trait S3Reader<R>: S3WriterInfo + Sized {
    /// Whether a value can be read from `r`.
    spec fn can_read(&self, r: R) -> bool;

    /// Whether reading from `before` gives `x` and leaves `after`.
    spec fn reads(&self, before: R, after: R, x: u64) -> bool;

    /// No value read is above this one.
    spec fn max_value(&self) -> nat;

    /// Reads one value.
    fn read(&mut self, r: &mut R) -> (res: Result<u64>)
        requires
            old(self).info_wf(),
            old(self).can_read(*old(r)),
        ensures
            *final(self) == *old(self),
            res matches Ok(x) ==> x <= old(self).max_value() && old(self).reads(*old(r), *final(r), x);

    /// Reads the next value into `writer`, unless a new chunk size must be set first; tells
    /// whether it read.
    fn read_full(&mut self, writer: &mut S3BitWriter, r: &mut R) -> (res: Result<bool>)
        requires
            old(self).info_wf(),
            old(self).can_read(*old(r)),
            old(writer).wf(),
            old(writer).max_read_value() != 0 ==> 1 <= old(writer).chunk_sz() <= 64 && old(writer).buf()@.1 <= 64
                && old(writer).bits_read() + old(writer).max_read_value() * old(self).max_value() <= u64::MAX,
        ensures
            *final(self) == *old(self),
            final(writer).wf(),
            old(writer).max_read_value() == 0 ==> res == Ok::<bool, Error>(false) && *final(writer) == *old(writer)
                && *final(r) == *old(r),
            old(writer).max_read_value() != 0 ==> match res {
                Ok(b) => b && exists|x: u64| x <= old(self).max_value() && #[trigger] old(self).reads(*old(r), *final(r), x)
                    && writes_s3(*old(writer), *final(writer), x, old(self).s3() as u64),
                Err(_) => *final(writer) == *old(writer),
            },
    {
        if writer.need_fill() {
            Ok(false)
        } else {
            let s3 = self.s3_once();
            match self.read(r) {
                Ok(v) => {
                    assert(writer.max_read_value() * v <= writer.max_read_value() * self.max_value()) by (nonlinear_arith)
                        requires v <= self.max_value();
                    writer.write_s3(v, s3);
                    Ok(true)
                },
                Err(e) => Err(e),
            }
        }
    }

    /// Reads a value that carries no bits.
    fn read_fake(&mut self, r: &mut R) -> (res: Result<()>)
        requires
            old(self).info_wf(),
            old(self).can_read(*old(r)),
        ensures
            *final(self) == *old(self),
            res is Ok ==> exists|x: u64| x <= old(self).max_value() && #[trigger] old(self).reads(*old(r), *final(r), x),
    {
        match self.read(r) {
            Ok(_) => Ok(()),
            Err(e) => Err(e),
        }
    }
}

/// `x` needs at most `k` bits exactly when it is below `2^k`.
pub proof fn lemma_bit_len_pow2(x: nat, k: nat)
    ensures
        (bit_len(x) <= k) == (x < pow2(k)),
    decreases k,
{
    if x == 0 {
        crate::text::num::lemma_pow2_ge1(k);
    } else if k == 0 {
        assert(pow2(0) == 1);
    } else if x == 1 {
        assert(log2_floor(1) == 0);
        assert(pow2(k) == 2 * pow2((k - 1) as nat));
        crate::text::num::lemma_pow2_ge1((k - 1) as nat);
    } else {
        lemma_bit_len_pow2(x / 2, (k - 1) as nat);
        assert(pow2(k) == 2 * pow2((k - 1) as nat));
        assert(log2_floor(x) == 1 + log2_floor(x / 2));
        if x / 2 == 0 {
        } else {
            assert(bit_len(x) == 1 + bit_len(x / 2));
        }
    }
}

/// `2^(a + b) == 2^a * 2^b`.
pub proof fn lemma_pow2_add(a: nat, b: nat)
    ensures
        pow2(a + b) == pow2(a) * pow2(b),
    decreases a,
{
    if a > 0 {
        lemma_pow2_add((a - 1) as nat, b);
        assert(pow2(a + b) == 2 * pow2((a - 1 + b) as nat));
        assert(pow2(a) == 2 * pow2((a - 1) as nat));
        assert(2 * (pow2((a - 1) as nat) * pow2(b)) == (2 * pow2((a - 1) as nat)) * pow2(b)) by (nonlinear_arith);
    } else {
        assert(pow2(0) == 1);
        assert(pow2(a) * pow2(b) == pow2(b)) by (nonlinear_arith) requires pow2(a) == 1;
    }
}

/// `1 << n` is `2^n`.
pub proof fn lemma_shl_pow2(n: u8)
    requires
        n < 128,
    ensures
        (1u128 << n) as nat == pow2(n as nat),
    decreases n,
{
    if n == 0 {
        lemma_zero_bits();
    } else {
        let m = (n - 1) as u8;
        lemma_shl_pow2(m);
        assert((1u128 << n) == (1u128 << m) * 2) by (bit_vector) requires 0 < n < 128, m == n - 1;
    }
}

/// `1 << n` is `2^n`, in 64 bits.
pub proof fn lemma_shl_pow2_64(n: u64)
    requires
        n < 64,
    ensures
        (1u64 << n) as nat == pow2(n as nat),
{
    lemma_shl_pow2(n as u8);
    assert((1u64 << n) as u128 == (1u128 << (n as u8))) by (bit_vector) requires n < 64;
}

/// A value under the mask of `n` bits is below `2^n`.
pub proof fn lemma_masked_below(v: u128, n: u8)
    requires
        n <= 127,
    ensures
        ((v & mask128(n)) as nat) < pow2(n as nat),
{
    lemma_shl_pow2(n);
    assert(v & mask128(n) < (1u128 << n)) by (bit_vector) requires n <= 127, mask128(n) == ((1u128 << n) - 1) as u128;
}

/// How many bits a `u128` needs.
pub fn bit_len_u128(x: u128) -> (r: u8)
    ensures
        r == bit_len(x as nat),
        r <= 128,
{
    proof {
        assert(pow2(64) == 0x1_0000_0000_0000_0000) by { reveal_with_fuel(pow2, 65); }
        lemma_pow2_add(64, 64);
        assert(pow2(128) == 0x1_0000_0000_0000_0000_0000_0000_0000_0000);
        lemma_bit_len_pow2(x as nat, 128);
    }
    let mut v = x;
    let mut c: u8 = 0;
    while v > 0
        invariant
            bit_len(x as nat) <= 128,
            bit_len(x as nat) == c + bit_len(v as nat),
        decreases v,
    {
        let ghost v0 = v;
        assert(v >> 1 == v / 2) by (bit_vector);
        proof {
            if v0 >= 2 {
                assert(log2_floor(v0 as nat) == 1 + log2_floor((v0 / 2) as nat));
            } else {
                assert(log2_floor(1) == 0);
            }
        }
        v = v >> 1;
        c = c + 1;
    }
    c
}


/// Turns a stream of bits into values of state spaces: a chunk of bits at a time, each
/// chunk spread over several spaces (its digits in their mixed base), the last digit
/// completed with random bits when the chunk runs short.
pub struct S3BitReader {
    buf: S3BitBufReader,
    rng_buf: RngBuf,
    bits_to_write: u64,
    max_written_value: u64,
    total_bits_to_write: u8,
    eof_stream: bool,
}

impl S3BitReader {
    pub closed spec fn buf(&self) -> S3BitBufReader {
        self.buf
    }

    /// Random bits ready.
    pub closed spec fn rng_ready(&self) -> nat {
        self.rng_buf.ready()
    }

    /// What is left of the chunk being written.
    pub closed spec fn bits_to_write(&self) -> u64 {
        self.bits_to_write
    }

    /// The product of the state spaces written of the chunk so far (`0`: a new chunk is needed).
    pub closed spec fn max_written(&self) -> u64 {
        self.max_written_value
    }

    /// The bits of the chunk being written.
    pub closed spec fn total(&self) -> u8 {
        self.total_bits_to_write
    }

    pub closed spec fn eof(&self) -> bool {
        self.eof_stream
    }

    pub closed spec fn wf(&self) -> bool {
        &&& self.buf.wf()
        &&& self.rng_buf.wf()
        &&& self.total_bits_to_write <= 64
        &&& self.max_written_value != 0 ==> self.max_written_value <= pow2(self.total_bits_to_write as nat)
            && self.bits_to_write * self.max_written_value < pow2(self.total_bits_to_write as nat)
    }

    /// A well-formed reader's chunk product stays within the chunk's bits.
    pub proof fn lemma_wf(&self)
        requires
            self.wf(),
        ensures
            self.total() <= 64,
            self.max_written() != 0 ==> self.max_written() <= pow2(self.total() as nat),
    {
    }

    /// Starts on the bytes of `r`, with 128 random bits.
    pub fn new<R: RngMinimal>(r: &mut ByteSrc, rng: &mut R) -> (res: Self)
        requires
            old(r).wf(),
        ensures
            final(r).wf(),
            res.wf(),
            res.max_written() == 0,
            !res.eof(),
            res.rng_ready() == 128,
    {
        Self {
            buf: S3BitBufReader::new(r),
            rng_buf: RngBuf::new(rng),
            bits_to_write: 0,
            max_written_value: 0,
            total_bits_to_write: 0,
            eof_stream: false,
        }
    }

    /// Whether a new chunk must be taken ([`Self::fill`]) before more values are written.
    pub fn need_fill(&self) -> (r: bool)
        ensures
            r == (self.max_written() == 0),
    {
        self.max_written_value == 0
    }

    /// Whether the bits ran out.
    pub fn is_eof(&self) -> (r: bool)
        ensures
            r == self.eof(),
    {
        self.eof_stream
    }

    /// The next value for a writer: of its state space, with its bits.
    pub fn take_bits_from_writer<W: S3WriterInfo>(&mut self, s3w: &W) -> (r: u64)
        requires
            old(self).wf(),
            old(self).max_written() != 0,
            s3w.info_wf(),
            1 <= s3w.bits() <= 64,
            s3w.s3() >= 1,
            is_log2_floor((s3w.bits() - 1) as nat, s3w.s3()),
            old(self).rng_ready() >= s3w.bits(),
        ensures
            final(self).wf(),
            final(self).buf() == old(self).buf(),
            final(self).eof() == old(self).eof(),
            final(self).total() == old(self).total(),
            ({
                let prod = (old(self).max_written() * s3w.s3()) as nat;
                if bit_len(prod) <= old(self).total() {
                    &&& r == (old(self).bits_to_write() as nat) % s3w.s3()
                    &&& final(self).bits_to_write() == (old(self).bits_to_write() as nat) / s3w.s3()
                    &&& final(self).max_written() == prod
                } else {
                    &&& r < s3w.s3()
                    &&& final(self).max_written() == 0
                    &&& low_bits(r, (bit_len(s3w.s3()) + old(self).total() - bit_len(prod)) as u64)
                        == low_bits(old(self).bits_to_write(), (bit_len(s3w.s3()) + old(self).total() - bit_len(prod)) as u64)
                }
            }),
    {
        let s3 = s3w.s3_once();
        let n = s3w.bits_once();
        proof { lemma_log2_floor((n - 1) as nat, s3 as nat); }
        self.take_bits(s3, n)
    }

    /// The next value of a state space of `s3` values, which `n` bits tell.
    #[verifier::rlimit(100)]
    #[verifier::spinoff_prover]
    pub fn take_bits(&mut self, s3: u64, n: u8) -> (r: u64)
        requires
            old(self).wf(),
            old(self).max_written() != 0,
            1 <= n <= 64,
            s3 >= 1,
            is_log2_floor((n - 1) as nat, s3 as nat),
            old(self).rng_ready() >= n,
        ensures
            final(self).wf(),
            final(self).buf() == old(self).buf(),
            final(self).eof() == old(self).eof(),
            final(self).total() == old(self).total(),
            ({
                let prod = (old(self).max_written() * s3) as nat;
                if bit_len(prod) <= old(self).total() {
                    &&& r == old(self).bits_to_write() % s3
                    &&& final(self).bits_to_write() == old(self).bits_to_write() / s3
                    &&& final(self).max_written() == prod
                } else {
                    &&& r < s3
                    &&& final(self).max_written() == 0
                    &&& low_bits(r, (n + old(self).total() - bit_len(prod)) as u64)
                        == low_bits(old(self).bits_to_write(), (n + old(self).total() - bit_len(prod)) as u64)
                }
            }),
    {
        let ghost max0 = self.max_written_value as nat;
        let ghost total = self.total_bits_to_write as nat;
        let ghost btw0 = self.bits_to_write as nat;
        let ghost prod = (max0 * s3) as nat;
        proof {
            lemma_product_bits(max0, s3 as nat, total, n as nat);
        }
        let (mw, after_bit_len) = next_product(self.max_written_value, s3, self.total_bits_to_write);
        self.max_written_value = mw;
        if self.total_bits_to_write >= after_bit_len {
            let bits = self.bits_to_write % s3;
            self.bits_to_write = self.bits_to_write / s3;
            proof {
                lemma_quotient_fits(btw0, s3 as nat, max0, pow2(total));
                lemma_bit_len_pow2(prod, total);
            }
            bits
        } else {
            let delta = after_bit_len - self.total_bits_to_write;
            let btw = self.bits_to_write;
            let ghost ready0 = self.rng_buf.ready();
            let bits = self.rng_buf.concat(btw, n - delta, delta);
            proof {
                // what is left of the chunk is below the space
                lemma_bit_len_pow2(prod, total);
                assert(prod >= pow2(total));
                assert(btw0 < s3) by (nonlinear_arith)
                    requires btw0 * max0 < pow2(total), pow2(total) <= max0 * s3, max0 >= 1;
                let x = choose|x: u64| bits == #[trigger] put_above(btw, x, (n - delta) as u8) && x as u128 <= mask128(delta);
                lemma_padded_below(btw, x, bits, n, delta, s3);
            }
            let r = fold_below(bits, s3, n);
            proof {
                let x = choose|x: u64| bits == #[trigger] put_above(btw, x, (n - delta) as u8) && x as u128 <= mask128(delta);
                let k = (n - delta) as u64;
                let sh1 = (n - 1) as u64;
                assert(low_bits(r, k) == low_bits(btw, k)) by (bit_vector)
                    requires low_bits(r, sh1) == low_bits(bits, sh1), bits == btw | (x << k), k <= sh1, sh1 < 64;
            }
            r
        }
    }

    /// Tops the bit queue up from `r`.
    pub fn fill_buf(&mut self, r: &mut ByteSrc)
        requires
            old(self).wf(),
            old(r).wf(),
        ensures
            final(self).wf(),
            final(r).wf(),
            final(self).max_written() == old(self).max_written(),
            final(self).bits_to_write() == old(self).bits_to_write(),
            final(self).total() == old(self).total(),
            final(self).eof() == old(self).eof(),
            final(self).rng_ready() == old(self).rng_ready(),
            old(self).buf().reader_eof() || old(self).buf().buf()@.1 >= 64 ==> final(self).buf() == old(self).buf(),
            !(old(self).buf().reader_eof() || old(self).buf().buf()@.1 >= 64) ==> final(self).buf().buf()@.1 >= 64 || final(self).buf().reader_eof(),
            final(r).rest().len() * 8 + final(self).buf().buf()@.1 == old(r).rest().len() * 8 + old(self).buf().buf()@.1,
    {
        self.buf.fill(r)
    }

    /// Tops the random bits up.
    pub fn fill_rng<R: RngMinimal>(&mut self, rng: &mut R)
        requires
            old(self).wf(),
        ensures
            final(self).wf(),
            final(self).rng_ready() >= 64,
            final(self).buf() == old(self).buf(),
            final(self).max_written() == old(self).max_written(),
            final(self).bits_to_write() == old(self).bits_to_write(),
            final(self).total() == old(self).total(),
            final(self).eof() == old(self).eof(),
    {
        self.rng_buf.fill(rng)
    }

    /// Takes the next chunk of `chunk_sz` bits, if none is being written; `false` if one is,
    /// or if the bits ran out (then the stream is at its end).
    pub fn fill(&mut self, chunk_sz: u8) -> (res: bool)
        requires
            old(self).wf(),
            chunk_sz <= 64,
            old(self).buf().buf()@.1 >= chunk_sz || old(self).buf().reader_eof(),
        ensures
            final(self).wf(),
            final(self).rng_ready() == old(self).rng_ready(),
            old(self).max_written() != 0 ==> !res && *final(self) == *old(self),
            old(self).max_written() == 0 ==> ({
                let rest = old(self).buf().buf()@;
                if rest.1 == 0 && chunk_sz != 0 {
                    !res && final(self).eof() && final(self).max_written() == 0 && final(self).buf().buf()@.1 == 0
                } else {
                    &&& res
                    &&& final(self).max_written() == 1
                    &&& final(self).total() == chunk_sz
                    &&& final(self).eof() == old(self).eof()
                    &&& (rest.1 >= chunk_sz ==> final(self).bits_to_write() as u128 == rest.0 & mask128(chunk_sz)
                        && final(self).buf().buf()@ == (rest.0 >> chunk_sz as u128, (rest.1 - chunk_sz) as u8))
                    &&& (rest.1 < chunk_sz ==> final(self).bits_to_write() as u128 == rest.0 && final(self).buf().buf()@ == (0u128, 0u8))
                }
            }),
    {
        if self.max_written_value != 0 {
            return false;
        }
        let ghost rest = self.buf.buf()@;
        let (bits, real_sz) = self.buf.try_take_bits(chunk_sz);
        if real_sz != chunk_sz {
            if real_sz == 0 {
                self.eof_stream = true;
                return false;
            }
        }
        self.bits_to_write = bits;
        self.total_bits_to_write = chunk_sz;
        self.max_written_value = 1;
        proof {
            let v = rest.0;
            if rest.1 >= chunk_sz {
                if chunk_sz <= 127 {
                    lemma_masked_below(v, chunk_sz);
                }
            } else {
                let m = mask128(rest.1);
                assert(v & !m == 0);
                assert(m == ((1u128 << rest.1) - 1) as u128);
                let rr = rest.1;
                assert(v == v & m) by (bit_vector) requires v & !m == 0, m == ((1u128 << rr) - 1) as u128, rr < 64;
                lemma_masked_below(v, rest.1);
                lemma_bit_len_pow2(bits as nat, rest.1 as nat);
                lemma_bit_len_pow2(bits as nat, chunk_sz as nat);
            }
            assert(bits * 1 == bits);
        }
        true
    }
}

} // verus!
