//! Numbers as carriers of bits: a chunk of bits written as decimal digits, and back.

use vstd::prelude::*;
use crate::text::str_writer::{WriteExt, digit, lemma_encode_ascii};
use crate::text::s3::{S3WriterInfo, S3Writer, ilog2, log2_floor, takes_from_reader, lemma_bits_of};

verus! {

/// `10^n`.
pub open spec fn pow10(n: nat) -> nat
    decreases n,
{
    if n == 0 { 1 } else { 10 * pow10((n - 1) as nat) }
}

/// `2^n`.
pub open spec fn pow2(n: nat) -> nat
    decreases n,
{
    if n == 0 { 1 } else { 2 * pow2((n - 1) as nat) }
}

pub proof fn lemma_pow10_pos(n: nat)
    ensures
        pow10(n) >= 1,
    decreases n,
{
    if n > 0 { lemma_pow10_pos((n - 1) as nat); }
}

pub proof fn lemma_pow10_mono(a: nat, b: nat)
    requires
        a <= b,
    ensures
        pow10(a) <= pow10(b),
    decreases b,
{
    if a < b {
        lemma_pow10_mono(a, (b - 1) as nat);
        lemma_pow10_pos((b - 1) as nat);
    }
}

/// Whether `n` decimal digits are the fewest that hold every value of `b` bits.
pub open spec fn is_digits_for_bits(n: nat, b: nat) -> bool {
    &&& pow10(n) >= pow2(b)
    &&& n == 0 || pow10((n - 1) as nat) < pow2(b)
}

/// The `n` decimal digits of `x`, lowest first (`x` taken modulo `10^n`).
pub open spec fn digits_le(x: nat, n: nat) -> Seq<u8> {
    Seq::new(n, |i: int| ((x / pow10(i as nat)) % 10) as u8)
}

/// The number whose decimal digits are `s`, lowest first.
pub open spec fn from_digits_le(s: Seq<u8>) -> nat
    decreases s.len(),
{
    if s.len() == 0 { 0 } else { from_digits_le(s.drop_last()) + (s.last() as nat) * pow10((s.len() - 1) as nat) }
}

/// Drops the zeros at the front of a sequence of digit characters.
pub open spec fn drop_zeros(s: Seq<u8>) -> Seq<u8>
    decreases s.len(),
{
    if s.len() > 0 && s[0] == digit(0) { drop_zeros(s.drop_first()) } else { s }
}

/// The digit characters of a sequence of digits.
pub open spec fn digit_chars(s: Seq<u8>) -> Seq<u8> {
    s.map_values(|d: u8| digit(d as int))
}

/// Writing the `n` lowest decimal digits of `x` and reading them back gives `x` modulo `10^n`.
pub proof fn lemma_digits_roundtrip(x: nat, n: nat)
    ensures
        from_digits_le(digits_le(x, n)) == x % pow10(n),
    decreases n,
{
    if n == 0 {
        assert(x % 1 == 0);
    } else {
        let m = (n - 1) as nat;
        lemma_digits_roundtrip(x, m);
        assert(digits_le(x, n).drop_last() =~= digits_le(x, m));
        lemma_pow10_pos(m);
        vstd::arithmetic::div_mod::lemma_breakdown(x as int, pow10(m) as int, 10);
        assert(pow10(m) * 10 == pow10(n));
        vstd::arithmetic::div_mod::lemma_mod_pos_bound((x / pow10(m)) as int, 10);
        assert(digits_le(x, n).last() == ((x / pow10(m)) % 10) as u8);
    }
}

/// A value of `b` bits, written with the digits that `b` bits need and read back, is itself.
pub proof fn law_num10_roundtrip(x: nat, b: nat, n: nat)
    requires
        x < pow2(b),
        is_digits_for_bits(n, b),
    ensures
        from_digits_le(digits_le(x, n)) == x,
{
    lemma_digits_roundtrip(x, n);
    vstd::arithmetic::div_mod::lemma_small_mod(x, pow10(n));
}

/// Writing a chunk with [`BitsToNum10::next_n10`] and reading the digits with
/// [`Num10ToBits::next_n10`]: after `i` digits the writer holds `x / 10^i` and the reader has
/// read `digits_le(x, i)`; the next digit is digit `i` of `x`, and leaves both at step `i + 1`.
/// Once all `n` digits are read, the reader's chunk is `x` ([`law_num10_roundtrip`]).
pub proof fn law_num10_step(x: nat, n: nat, i: nat)
    requires
        i < n,
    ensures
        ((x / pow10(i)) % 10) as u8 == digits_le(x, n)[i as int],
        (x / pow10(i)) / 10 == x / pow10(i + 1),
        digits_le(x, i).push(((x / pow10(i)) % 10) as u8) == digits_le(x, i + 1),
{
    lemma_pow10_pos(i);
    assert(pow10(i + 1) == 10 * pow10(i));
    vstd::arithmetic::div_mod::lemma_div_denominator(x as int, pow10(i) as int, 10);
    assert(pow10(i) * 10 == 10 * pow10(i)) by (nonlinear_arith);
    assert(digits_le(x, i).push(((x / pow10(i)) % 10) as u8) =~= digits_le(x, i + 1));
}

/// Counts the decimal digits that a chunk of `b` bits needs.
fn digits_for_bits(b: u8) -> (r: u8)
    requires
        b <= 64,
    ensures
        is_digits_for_bits(r as nat, b as nat),
        r <= 20,
{
    let mut target: u128 = 1;
    let mut i: u8 = 0;
    while i < b
        invariant
            i <= b <= 64,
            target == pow2(i as nat),
            target <= 0x1_0000_0000_0000_0000u128,
        decreases b - i,
    {
        proof {
            assert(pow2((i + 1) as nat) == 2 * pow2(i as nat));
            if i + 1 <= 64 {
                lemma_pow2_le_64(i as nat);
            }
        }
        target = target * 2;
        i = i + 1;
    }
    let mut p: u128 = 1;
    let mut n: u8 = 0;
    proof { lemma_pow2_ge1(b as nat); }
    while p < target
        invariant
            p == pow10(n as nat),
            n == 0 || pow10((n - 1) as nat) < target,
            target == pow2(b as nat),
            1 <= target <= 0x1_0000_0000_0000_0000u128,
            n <= 20,
            p < 10 * target || n == 0,
            p <= 10 * 0x1_0000_0000_0000_0000u128,
        decreases 20 - n,
    {
        proof {
            assert(pow10((n + 1) as nat) == 10 * pow10(n as nat));
            if n >= 20 {
                lemma_pow10_mono(20, n as nat);
                assert(pow10(20) > 0x1_0000_0000_0000_0000u128) by { reveal_with_fuel(pow10, 21); }
                assert(false);
            }
        }
        p = p * 10;
        n = n + 1;
    }
    n
}

/// `2^n >= 2^63` for `n >= 63`.
pub proof fn lemma_pow2_ge(n: nat)
    requires
        n >= 63,
    ensures
        pow2(n) >= pow2(63),
    decreases n,
{
    if n > 63 {
        lemma_pow2_ge((n - 1) as nat);
        lemma_pow2_ge1((n - 1) as nat);
    }
}

pub proof fn lemma_pow2_ge1(n: nat)
    ensures
        pow2(n) >= 1,
    decreases n,
{
    if n > 0 { lemma_pow2_ge1((n - 1) as nat); }
}

proof fn lemma_pow2_le_64(i: nat)
    requires
        i < 64,
    ensures
        2 * pow2(i) <= 0x1_0000_0000_0000_0000,
    decreases 64 - i,
{
    if i + 1 < 64 {
        lemma_pow2_le_64(i + 1);
        lemma_pow2_ge1(i);
    } else {
        assert(pow2(63) == 0x8000_0000_0000_0000) by { reveal_with_fuel(pow2, 64); }
    }
}

/// Reads decimal digits, lowest first, back into a chunk of bits.
pub struct Num10ToBits {
    bits: u64,
    mul: u64,
    rest_n: u8,
    read: Ghost<Seq<u8>>,
}

impl Num10ToBits {
    /// The digits read so far, lowest first.
    pub closed spec fn digits(&self) -> Seq<u8> {
        self.read@
    }

    /// How many digits are still to be read.
    pub closed spec fn rest(&self) -> nat {
        self.rest_n as nat
    }

    pub closed spec fn wf(&self) -> bool {
        &&& self.bits == from_digits_le(self.read@)
        &&& self.read@.len() <= 19 ==> self.mul == pow10(self.read@.len())
        &&& self.read@.len() + self.rest_n <= 20
    }

    /// A reader of the digits that a chunk of `chunk_bit_sz` bits needs.
    pub fn new(chunk_bit_sz: u8) -> (r: Self)
        requires
            chunk_bit_sz <= 64,
        ensures
            r.wf(),
            r.digits() == Seq::<u8>::empty(),
            is_digits_for_bits(r.rest(), chunk_bit_sz as nat),
    {
        let n = digits_for_bits(chunk_bit_sz);
        Self { bits: 0, mul: 1, rest_n: n, read: Ghost(Seq::empty()) }
    }

    /// A reader of the digits for `CHUNK_SZ` bits, the size given by the type.
    pub fn new_const<const CHUNK_SZ: u8>() -> (r: Self)
        requires
            CHUNK_SZ <= 64,
        ensures
            r.wf(),
            r.digits() == Seq::<u8>::empty(),
            is_digits_for_bits(r.rest(), CHUNK_SZ as nat),
    {
        Self::new(CHUNK_SZ)
    }

    pub fn new_u32() -> (r: Self)
        ensures
            r.wf(),
            r.digits() == Seq::<u8>::empty(),
            is_digits_for_bits(r.rest(), 32),
    {
        Self::new_const::<32>()
    }

    /// Digits for 64 bits (about 3.8% of the digits' capacity is lost).
    pub fn new_u64() -> (r: Self)
        ensures
            r.wf(),
            r.digits() == Seq::<u8>::empty(),
            is_digits_for_bits(r.rest(), 64),
    {
        Self::new_const::<64>()
    }

    /// Digits for 63 bits (about 0.185% of the digits' capacity is lost).
    pub fn new_low_loss() -> (r: Self)
        ensures
            r.wf(),
            r.digits() == Seq::<u8>::empty(),
            is_digits_for_bits(r.rest(), 63),
    {
        Self::new_const::<63>()
    }

    pub fn is_done(&self) -> (r: bool)
        ensures
            r == (self.rest() == 0),
    {
        self.rest_n == 0
    }

    /// The chunk, once every digit was read.
    pub fn try_take(&self) -> (r: Option<u64>)
        requires
            self.wf(),
        ensures
            r == (if self.rest() == 0 { Some(from_digits_le(self.digits()) as u64) } else { None::<u64> }),
    {
        if self.is_done() { Some(self.bits) } else { None }
    }

    /// Reads the next digit.
    #[verifier::rlimit(40)]
    #[verifier::spinoff_prover]
    pub fn next_n10(&mut self, n: u8) -> (r: Option<u64>)
        requires
            old(self).wf(),
            old(self).rest() > 0,
            from_digits_le(old(self).digits()) + n * pow10(old(self).digits().len()) <= u64::MAX,
        ensures
            final(self).wf(),
            final(self).digits() == old(self).digits().push(n),
            final(self).rest() == old(self).rest() - 1,
            r == (if final(self).rest() == 0 { Some(from_digits_le(final(self).digits()) as u64) } else { None::<u64> }),
    {
        let ghost k = self.read@.len();
        proof {
            lemma_pow10_pos(k);
            if n > 0 {
                assert(n * pow10(k) >= pow10(k)) by (nonlinear_arith) requires n >= 1, pow10(k) >= 1;
                if k > 19 {
                    lemma_pow10_mono(20, k);
                    assert(pow10(20) > u64::MAX) by { reveal_with_fuel(pow10, 21); }
                }
            }
            if k + 1 <= 19 {
                lemma_pow10_mono(k + 1, 19);
                assert(pow10(19) < u64::MAX) by { reveal_with_fuel(pow10, 20); }
            }
            assert(self.read@.push(n).drop_last() =~= self.read@);
        }
        self.rest_n = self.rest_n - 1;
        let add: u64 = if n == 0 { 0 } else { n as u64 * self.mul };
        self.bits = add + self.bits;
        self.mul = self.mul.wrapping_mul(10);
        proof {
            self.read@ = self.read@.push(n);
            if k + 1 <= 19 {
                assert(pow10(k + 1) == 10 * pow10(k));
                assert(10 * pow10(k) <= u64::MAX);
                vstd::arithmetic::div_mod::lemma_small_mod((pow10(k) * 10) as nat, 0x1_0000_0000_0000_0000nat);
            }
        }
        self.try_take()
    }

    /// Reads the digit character `num_ch`.
    pub fn next_n10_char(&mut self, num_ch: char) -> (r: Option<u64>)
        requires
            old(self).wf(),
            old(self).rest() > 0,
            '0' <= num_ch <= '9',
            from_digits_le(old(self).digits()) + (num_ch as u32 - 48) * pow10(old(self).digits().len()) <= u64::MAX,
        ensures
            final(self).wf(),
            final(self).digits() == old(self).digits().push((num_ch as u32 - 48) as u8),
            final(self).rest() == old(self).rest() - 1,
            r == (if final(self).rest() == 0 { Some(from_digits_le(final(self).digits()) as u64) } else { None::<u64> }),
    {
        let n = (num_ch as u32 - 48) as u8;
        self.next_n10(n)
    }

    /// Reads `ch` if it is a digit; other characters are ignored.
    pub fn next_any_char(&mut self, ch: char) -> (r: Option<u64>)
        requires
            old(self).wf(),
            '0' <= ch <= '9' ==> old(self).rest() > 0,
            '0' <= ch <= '9' ==> from_digits_le(old(self).digits()) + (ch as u32 - 48) * pow10(old(self).digits().len()) <= u64::MAX,
        ensures
            final(self).wf(),
            !('0' <= ch <= '9') ==> r is None && *final(self) == *old(self),
            '0' <= ch <= '9' ==> final(self).digits() == old(self).digits().push((ch as u32 - 48) as u8)
                && final(self).rest() == old(self).rest() - 1
                && r == (if final(self).rest() == 0 { Some(from_digits_le(final(self).digits()) as u64) } else { None::<u64> }),
    {
        if '0' <= ch && ch <= '9' {
            self.next_n10_char(ch)
        } else {
            None
        }
    }
}

/// Writes a chunk of bits as decimal digits, lowest first.
pub struct BitsToNum10 {
    bits: u64,
    rest_n: u8,
}

impl View for BitsToNum10 {
    /// (what is left of the chunk, digits still to give)
    type V = (u64, u8);

    closed spec fn view(&self) -> (u64, u8) {
        (self.bits, self.rest_n)
    }
}

impl BitsToNum10 {
    /// Gives the digits of `chunk`, a value of `chunk_bit_sz` bits.
    pub fn new(chunk: u64, chunk_bit_sz: u8) -> (r: Self)
        requires
            chunk_bit_sz <= 64,
            chunk < pow2(chunk_bit_sz as nat),
        ensures
            r@.0 == chunk,
            is_digits_for_bits(r@.1 as nat, chunk_bit_sz as nat),
    {
        Self { bits: chunk, rest_n: digits_for_bits(chunk_bit_sz) }
    }

    /// The digits of a chunk of `CHUNK_SZ` bits, the size given by the type.
    pub fn new_const<const CHUNK_SZ: u8>(chunk: u64) -> (r: Self)
        requires
            CHUNK_SZ <= 64,
            chunk < pow2(CHUNK_SZ as nat),
        ensures
            r@.0 == chunk,
            is_digits_for_bits(r@.1 as nat, CHUNK_SZ as nat),
    {
        Self::new(chunk, CHUNK_SZ)
    }

    /// Gives no digit at all.
    pub fn new_empty() -> (r: Self)
        ensures
            r@ == (0u64, 0u8),
    {
        Self { bits: 0, rest_n: 0 }
    }

    pub fn new_u32(chunk: u64) -> (r: Self)
        requires
            chunk < pow2(32),
        ensures
            r@.0 == chunk,
            is_digits_for_bits(r@.1 as nat, 32),
    {
        Self::new(chunk, 32)
    }

    pub fn new_u64(chunk: u64) -> (r: Self)
        ensures
            r@.0 == chunk,
            is_digits_for_bits(r@.1 as nat, 64),
    {
        assert(pow2(64) == 0x1_0000_0000_0000_0000) by { reveal_with_fuel(pow2, 65); }
        Self::new(chunk, 64)
    }

    pub fn new_low_loss(chunk: u64) -> (r: Self)
        requires
            chunk < pow2(63),
        ensures
            r@.0 == chunk,
            is_digits_for_bits(r@.1 as nat, 63),
    {
        Self::new(chunk, 63)
    }

    pub fn is_done(&self) -> (r: bool)
        ensures
            r == (self@.1 == 0),
    {
        self.rest_n == 0
    }

    /// The next digit, lowest first; `None` once all were given.
    pub fn next_n10(&mut self) -> (r: Option<u8>)
        ensures
            old(self)@.1 == 0 ==> r is None && final(self)@ == old(self)@,
            old(self)@.1 > 0 ==> r == Some((old(self)@.0 % 10) as u8)
                && final(self)@ == (old(self)@.0 / 10, (old(self)@.1 - 1) as u8),
    {
        if self.is_done() {
            None
        } else {
            self.rest_n = self.rest_n - 1;
            let ret = (self.bits % 10) as u8;
            self.bits = self.bits / 10;
            Some(ret)
        }
    }

    /// The next digit as a character.
    pub fn next_n10_char(&mut self) -> (r: Option<char>)
        ensures
            old(self)@.1 == 0 ==> r is None && final(self)@ == old(self)@,
            old(self)@.1 > 0 ==> r == Some(((old(self)@.0 % 10) + 48) as char)
                && final(self)@ == (old(self)@.0 / 10, (old(self)@.1 - 1) as u8),
    {
        match self.next_n10() {
            Some(x) => Some((48 + x) as char),
            None => None,
        }
    }
}


/// Dropping leading zeros after one more digit.
pub proof fn lemma_drop_zeros_push(s: Seq<u8>, d: u8)
    ensures
        drop_zeros(s.push(d)) == (if drop_zeros(s).len() == 0 {
            if d == digit(0) { Seq::<u8>::empty() } else { seq![d] }
        } else {
            drop_zeros(s).push(d)
        }),
    decreases s.len(),
{
    assert(drop_zeros(Seq::<u8>::empty()) =~= Seq::<u8>::empty());
    if s.len() == 0 {
        assert(s.push(d) =~= seq![d]);
        assert(seq![d].drop_first() =~= Seq::<u8>::empty());
        assert(drop_zeros(s) =~= Seq::<u8>::empty());
    } else {
        assert(s.push(d)[0] == s[0]);
        assert(s.push(d).drop_first() =~= s.drop_first().push(d));
        if s[0] == digit(0) {
            lemma_drop_zeros_push(s.drop_first(), d);
        }
    }
}

/// What a writer of decimal numbers writes for the digits `ds` (in writing order):
/// all of them when `zeroed`, else without the zeros in front, and `"0"` for nothing
/// unless `allow_empty`.
pub open spec fn shown_digits(ds: Seq<u8>, zeroed: bool, allow_empty: bool) -> Seq<u8> {
    let chars = digit_chars(ds);
    if zeroed {
        chars
    } else if drop_zeros(chars).len() == 0 && !allow_empty {
        seq![digit(0)]
    } else {
        drop_zeros(chars)
    }
}

/// The `n` decimal digits of `x`, highest first.
pub open spec fn digits_be(x: nat, n: nat) -> Seq<u8> {
    digits_le(x, n).reverse()
}

/// Writes one decimal digit; when `IS_ZERO_DISPLAY` is off, a zero is written as nothing.
#[derive(Clone, Copy)]
pub struct S3NumWriter<const IS_ZERO_DISPLAY: bool> {}

impl S3NumWriter<true> {
    pub fn new_display_zero() -> (r: S3NumWriter<true>) {
        S3NumWriter {}
    }
}

impl S3NumWriter<false> {
    pub fn new_non_display_zero() -> (r: S3NumWriter<false>) {
        S3NumWriter {}
    }
}

impl<const IS_ZERO_DISPLAY: bool> S3NumWriter<IS_ZERO_DISPLAY> {
    pub fn write_u8<W: WriteExt>(&mut self, w: &mut W, x: u8)
        requires
            x < 10,
        ensures
            final(w).written() == old(w).written() + (if !IS_ZERO_DISPLAY && x == 0 { Seq::<u8>::empty() } else { seq![digit(x as int)] }),
    {
        if !IS_ZERO_DISPLAY && x == 0 {
            assert(old(w).written() + Seq::<u8>::empty() =~= old(w).written());
            return;
        }
        w.write_n1z(x);
    }

    pub fn write<W: WriteExt>(&mut self, x: u64, w: &mut W)
        requires
            x < 10,
        ensures
            final(w).written() == old(w).written() + (if !IS_ZERO_DISPLAY && x == 0 { Seq::<u8>::empty() } else { seq![digit(x as int)] }),
    {
        self.write_u8(w, x as u8)
    }
}

impl<const IS_ZERO_DISPLAY: bool> S3WriterInfo for S3NumWriter<IS_ZERO_DISPLAY> {
    open spec fn info_wf(&self) -> bool {
        true
    }

    open spec fn s3(&self) -> nat {
        10
    }

    open spec fn bits(&self) -> nat {
        4
    }

    fn bits_once(&self) -> (r: u8) {
        4
    }

    fn s3_once(&self) -> (r: u64) {
        10
    }
}

/// `10^n` for `n <= 19`.
fn pow10_u64(n: u8) -> (r: u64)
    requires
        n <= 19,
    ensures
        r == pow10(n as nat),
{
    let mut p: u64 = 1;
    let mut i: u8 = 0;
    while i < n
        invariant
            i <= n <= 19,
            p == pow10(i as nat),
        decreases n - i,
    {
        proof {
            lemma_pow10_mono((i + 1) as nat, 19);
            assert(pow10(19) < u64::MAX) by { reveal_with_fuel(pow10, 20); }
        }
        p = p * 10;
        i = i + 1;
    }
    p
}

/// Writes a value as a decimal number of `len` digits, highest first.
#[derive(Clone)]
pub struct S3NumsWriter {
    buf: Vec<u8>,
    s3_once: u64,
    len: u8,
    zeroed: bool,
}

impl S3NumsWriter {
    /// Digits written.
    pub closed spec fn len(&self) -> nat {
        self.len as nat
    }

    /// Whether zeros in front are written.
    pub closed spec fn zeroed(&self) -> bool {
        self.zeroed
    }

    pub closed spec fn wf(&self) -> bool {
        self.len <= 19 && self.s3_once == pow10(self.len as nat)
    }

    /// One write takes `10^len` values, and its bits are those of `10^len`.
    pub proof fn lemma_s3(&self)
        requires
            self.wf(),
        ensures
            self.s3() == pow10(self.len()),
            self.bits() == log2_floor(pow10(self.len())) + 1,
    {
        lemma_pow10_pos(self.len());
    }

    pub fn new(num_len: u8, zeroed: bool) -> (r: S3NumsWriter)
        requires
            num_len <= 19,
        ensures
            r.wf(),
            r.len() == num_len,
            r.zeroed() == zeroed,
    {
        Self { buf: Vec::new(), s3_once: pow10_u64(num_len), len: num_len, zeroed }
    }

    /// Writes `x` with its `len` digits, highest first: all of them when zeroed, else
    /// without the zeros in front (`"0"` for zero).
    pub fn write<W: WriteExt>(&mut self, x: u64, w: &mut W)
        requires
            old(self).wf(),
            x < pow10(old(self).len()),
        ensures
            final(self).wf(),
            final(self).len() == old(self).len(),
            final(self).zeroed() == old(self).zeroed(),
            final(w).written() == old(w).written() + shown_digits(digits_be(x as nat, old(self).len()), old(self).zeroed(), false),
    {
        let ghost x0 = x as nat;
        let ghost n = self.len as nat;
        let mut x = x;
        self.buf.clear();
        let mut i: u8 = 0;
        assert(self.buf@ =~= digits_le(x0, 0));
        assert(pow10(0) == 1);
        assert(x0 / pow10(0) == x0);
        while i < self.len
            invariant
                i <= self.len,
                self.len as nat == n,
                x == x0 / pow10(i as nat),
                self.buf@ == digits_le(x0, i as nat),
                self.s3_once == old(self).s3_once,
                self.zeroed == old(self).zeroed,
                old(self).wf(),
            decreases self.len - i,
        {
            let num = (x % 10) as u8;
            proof {
                lemma_pow10_pos(i as nat);
                vstd::arithmetic::div_mod::lemma_div_denominator(x0 as int, pow10(i as nat) as int, 10);
                assert(pow10((i + 1) as nat) == pow10(i as nat) * 10);
            }
            x = x / 10;
            self.buf.push(num);
            i = i + 1;
            assert(self.buf@ =~= digits_le(x0, i as nat));
        }
        let ghost ds = digits_be(x0, n);
        let ghost w0 = w.written();
        let mut display_zero = self.zeroed;
        let mut j: usize = self.len as usize;
        proof {
            assert(digit_chars(ds.subrange(0, 0)) =~= Seq::<u8>::empty());
            assert(drop_zeros(Seq::<u8>::empty()) =~= Seq::<u8>::empty());
        }
        while j > 0
            invariant
                j <= n,
                self.len as nat == n,
                self.buf@ == digits_le(x0, n),
                self.s3_once == old(self).s3_once,
                self.zeroed == old(self).zeroed,
                old(self).len == self.len,
                old(self).wf(),
                ds == digits_be(x0, n),
                ({
                    let shown = digit_chars(ds.subrange(0, n - j));
                    &&& display_zero == (self.zeroed || drop_zeros(shown).len() > 0)
                    &&& w.written() == w0 + (if self.zeroed { shown } else { drop_zeros(shown) })
                }),
            decreases j,
        {
            let ghost t = (n - j) as int;
            let ghost before = ds.subrange(0, t);
            let d = self.buf[j - 1];
            proof {
                assert(ds[t] == d);
                assert(ds.subrange(0, t + 1) =~= before.push(d));
                assert(digit_chars(before.push(d)) =~= digit_chars(before).push(digit(d as int)));
                lemma_drop_zeros_push(digit_chars(before), digit(d as int));
                lemma_pow10_pos((j - 1) as nat);
                vstd::arithmetic::div_mod::lemma_mod_pos_bound((x0 / pow10((j - 1) as nat)) as int, 10);
            }
            let is_zero = d == 0;
            display_zero = display_zero || !is_zero;
            if display_zero || !is_zero {
                w.write_n1z(d);
            }
            j = j - 1;
            proof {
                let shown = digit_chars(ds.subrange(0, n - j));
                if self.zeroed || drop_zeros(digit_chars(before)).len() > 0 || !is_zero {
                    assert(w.written() =~= w0 + (if self.zeroed { shown } else { drop_zeros(shown) }));
                } else {
                    assert(w.written() =~= w0 + drop_zeros(shown));
                }
            }
        }
        if !display_zero {
            w.write_n1z(0);
        }
        proof {
            assert(ds.subrange(0, n as int) =~= ds);
            assert(w.written() =~= old(w).written() + shown_digits(ds, self.zeroed, false));
        }
    }
}

impl S3WriterInfo for S3NumsWriter {
    open spec fn info_wf(&self) -> bool {
        self.wf()
    }

    closed spec fn s3(&self) -> nat {
        self.s3_once as nat
    }

    closed spec fn bits(&self) -> nat {
        if self.s3_once == 0 { 0 } else { log2_floor(self.s3_once as nat) + 1 }
    }

    fn bits_once(&self) -> (r: u8) {
        if self.s3_once == 0 { 0 } else { (ilog2(self.s3_once) + 1) as u8 }
    }

    fn s3_once(&self) -> (r: u64) {
        self.s3_once
    }
}


/// Writes a value as a decimal number of `len` digits, lowest first.
#[derive(Clone, Copy)]
pub struct S3RevNumsWriter {
    s3_once: u64,
    len: u8,
    zeroed: bool,
    allow_empty: bool,
}

impl S3RevNumsWriter {
    pub closed spec fn len(&self) -> nat {
        self.len as nat
    }

    pub closed spec fn zeroed(&self) -> bool {
        self.zeroed
    }

    /// Whether zero may be written as nothing at all.
    pub closed spec fn allow_empty(&self) -> bool {
        self.allow_empty
    }

    pub closed spec fn wf(&self) -> bool {
        self.len <= 19 && self.s3_once == pow10(self.len as nat)
    }

    pub proof fn lemma_s3(&self)
        requires
            self.wf(),
        ensures
            self.s3() == pow10(self.len()),
            self.bits() == log2_floor(pow10(self.len())) + 1,
    {
        lemma_pow10_pos(self.len());
    }

    pub fn new(num_len: u8, zeroed: bool) -> (r: S3RevNumsWriter)
        requires
            num_len <= 19,
        ensures
            r.wf(),
            r.len() == num_len,
            r.zeroed() == zeroed,
            !r.allow_empty(),
    {
        Self { s3_once: pow10_u64(num_len), len: num_len, zeroed, allow_empty: false }
    }

    pub fn set_zeroed(&mut self, zeroed: bool)
        ensures
            final(self).wf() == old(self).wf(),
            final(self).len() == old(self).len(),
            final(self).zeroed() == zeroed,
            final(self).allow_empty() == old(self).allow_empty(),
    {
        self.zeroed = zeroed;
    }

    pub fn set_allow_empty(&mut self, allow_empty: bool)
        ensures
            final(self).wf() == old(self).wf(),
            final(self).len() == old(self).len(),
            final(self).zeroed() == old(self).zeroed(),
            final(self).allow_empty() == allow_empty,
    {
        self.allow_empty = allow_empty;
    }

    /// Writes the `len` digits of `x`, lowest first: all of them when zeroed, else
    /// without the zeros in front (`"0"` for zero, unless empty is allowed).
    pub fn write<W: WriteExt>(&mut self, x: u64, w: &mut W)
        requires
            old(self).wf(),
            x < pow10(old(self).len()),
        ensures
            *final(self) == *old(self),
            final(w).written() == old(w).written() + shown_digits(digits_le(x as nat, old(self).len()), old(self).zeroed(), old(self).allow_empty()),
    {
        let ghost x0 = x as nat;
        let ghost n = self.len as nat;
        let ghost ds = digits_le(x0, n);
        let ghost w0 = w.written();
        let mut x = x;
        let mut display_zero = self.zeroed;
        let mut i: u8 = 0;
        proof {
            assert(pow10(0) == 1);
            assert(digit_chars(ds.subrange(0, 0)) =~= Seq::<u8>::empty());
            assert(drop_zeros(Seq::<u8>::empty()) =~= Seq::<u8>::empty());
        }
        while i < self.len
            invariant
                i <= self.len,
                self.len as nat == n,
                ds == digits_le(x0, n),
                x == x0 / pow10(i as nat),
                ({
                    let shown = digit_chars(ds.subrange(0, i as int));
                    &&& display_zero == (self.zeroed || drop_zeros(shown).len() > 0)
                    &&& w.written() == w0 + (if self.zeroed { shown } else { drop_zeros(shown) })
                }),
            decreases self.len - i,
        {
            let ghost before = ds.subrange(0, i as int);
            let num = (x % 10) as u8;
            proof {
                lemma_pow10_pos(i as nat);
                vstd::arithmetic::div_mod::lemma_div_denominator(x0 as int, pow10(i as nat) as int, 10);
                assert(pow10((i + 1) as nat) == pow10(i as nat) * 10);
                assert(ds[i as int] == num);
                assert(ds.subrange(0, i + 1) =~= before.push(num));
                assert(digit_chars(before.push(num)) =~= digit_chars(before).push(digit(num as int)));
                lemma_drop_zeros_push(digit_chars(before), digit(num as int));
            }
            x = x / 10;
            let is_zero = num == 0;
            display_zero = display_zero || !is_zero;
            if display_zero || !is_zero {
                w.write_n1z(num);
            }
            i = i + 1;
            proof {
                let shown = digit_chars(ds.subrange(0, i as int));
                if self.zeroed || drop_zeros(digit_chars(before)).len() > 0 || !is_zero {
                    assert(w.written() =~= w0 + (if self.zeroed { shown } else { drop_zeros(shown) }));
                } else {
                    assert(w.written() =~= w0 + drop_zeros(shown));
                }
            }
        }
        if !display_zero && !self.allow_empty {
            w.write_n1z(0);
        }
        proof {
            assert(ds.subrange(0, n as int) =~= ds);
            assert(w.written() =~= old(w).written() + shown_digits(ds, self.zeroed, self.allow_empty));
        }
    }
}

impl S3WriterInfo for S3RevNumsWriter {
    open spec fn info_wf(&self) -> bool {
        self.wf()
    }

    closed spec fn s3(&self) -> nat {
        self.s3_once as nat
    }

    closed spec fn bits(&self) -> nat {
        if self.s3_once == 0 { 0 } else { log2_floor(self.s3_once as nat) + 1 }
    }

    fn bits_once(&self) -> (r: u8) {
        if self.s3_once == 0 { 0 } else { (ilog2(self.s3_once) + 1) as u8 }
    }

    fn s3_once(&self) -> (r: u64) {
        self.s3_once
    }
}


impl<W: WriteExt> S3Writer<W> for S3NumsWriter {
    open spec fn writes(&self, x: u64, out: Seq<u8>) -> bool {
        out == shown_digits(digits_be(x as nat, self.len()), self.zeroed(), false)
    }

    fn write(&mut self, x: u64, w: &mut W) {
        let ghost s0 = *self;
        S3NumsWriter::write(self, x, w);
        proof {
            let out = shown_digits(digits_be(x as nat, s0.len()), s0.zeroed(), false);
            assert(<S3NumsWriter as S3Writer<W>>::writes(&s0, x, out));
        }
    }
}

impl<W: WriteExt> S3Writer<W> for S3RevNumsWriter {
    open spec fn writes(&self, x: u64, out: Seq<u8>) -> bool {
        out == shown_digits(digits_le(x as nat, self.len()), self.zeroed(), self.allow_empty())
    }

    fn write(&mut self, x: u64, w: &mut W) {
        let ghost s0 = *self;
        S3RevNumsWriter::write(self, x, w);
        proof {
            let out = shown_digits(digits_le(x as nat, s0.len()), s0.zeroed(), s0.allow_empty());
            assert(<S3RevNumsWriter as S3Writer<W>>::writes(&s0, x, out));
        }
    }
}


impl S3NumsWriter {
    /// A well-formed writer can take its values from a bit reader.
    pub proof fn lemma_takes(&self)
        requires
            self.wf(),
        ensures
            takes_from_reader(self),
    {
        lemma_pow10_pos(self.len());
        lemma_bits_of(self.s3_once as nat);
    }
}

impl S3RevNumsWriter {
    /// A well-formed writer can take its values from a bit reader.
    pub proof fn lemma_takes(&self)
        requires
            self.wf(),
        ensures
            takes_from_reader(self),
    {
        lemma_pow10_pos(self.len());
        lemma_bits_of(self.s3_once as nat);
    }
}

} // verus!
