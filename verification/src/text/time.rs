//! Times of day as carriers of bits: a chunk of bits written as a few times, and back.

use vstd::prelude::*;
use crate::text::str_writer::{WriteExt, digit, lemma_encode_ascii};
use crate::text::s3::{S3WriterInfo, S3Writer, ilog2, log2_floor, takes_from_reader, lemma_bits_of};

verus! {

/// The two ASCII digits of `n` (at most 99).
pub open spec fn text_n2(n: nat) -> Seq<u8> {
    seq![digit((n / 10) as int), digit((n % 10) as int)]
}

/// The three ASCII digits of `n` (at most 999).
pub open spec fn text_n3(n: nat) -> Seq<u8> {
    seq![digit((n / 100) as int), digit(((n / 10) % 10) as int), digit((n % 10) as int)]
}

/// The number that two ASCII digits at `i` stand for.
pub open spec fn value_n2(b: Seq<u8>, i: int) -> nat {
    ((b[i] - 48) * 10 + (b[i + 1] - 48)) as nat
}

/// The number that three ASCII digits at `i` stand for.
pub open spec fn value_n3(b: Seq<u8>, i: int) -> nat {
    ((b[i] - 48) * 100 + (b[i + 1] - 48) * 10 + (b[i + 2] - 48)) as nat
}

/// Whether the byte at `i` is an ASCII digit.
pub open spec fn is_digit_at(b: Seq<u8>, i: int) -> bool {
    0 <= i < b.len() && 48 <= b[i] <= 57
}

/// Writes `n2` (at most 99) with two digits.
fn write_n2<W: WriteExt>(w: &mut W, n2: u16)
    requires
        n2 <= 99,
    ensures
        final(w).written() == old(w).written() + text_n2(n2 as nat),
{
    w.write_n2z(n2 as u8);
}

/// Writes `n3` (at most 999) with three digits.
fn write_n3<W: WriteExt>(w: &mut W, n3: u16)
    requires
        n3 <= 999,
    ensures
        final(w).written() == old(w).written() + text_n3(n3 as nat),
{
    w.write_n3z(n3);
}

/// Reads the number that two ASCII digits at `i` stand for.
fn read_n2(r: &[u8], i: usize) -> (x: u32)
    requires
        is_digit_at(r@, i as int),
        is_digit_at(r@, i + 1),
    ensures
        x == value_n2(r@, i as int),
{
    let a = r[i] - 48;
    let b = r[i + 1] - 48;
    (a * 10 + b) as u32
}

/// Reads the number that three ASCII digits at `i` stand for.
fn read_n3(r: &[u8], i: usize) -> (x: u32)
    requires
        is_digit_at(r@, i as int),
        is_digit_at(r@, i + 1),
        is_digit_at(r@, i + 2),
    ensures
        x == value_n3(r@, i as int),
{
    let a = (r[i] - 48) as u32;
    let b = (r[i + 1] - 48) as u32;
    let c = (r[i + 2] - 48) as u32;
    a * 100 + b * 10 + c
}

/// How precisely a time is written.
#[derive(Clone, Copy, PartialEq, Eq, Structural)]
pub enum TimeFormat {
    /// `23:59`
    HM,
    /// `23:59:59`
    HMS,
    /// `23:59:59.999`
    HMSMill,
}

/// How many times of day a format can write.
pub open spec fn spec_variants(fmt: TimeFormat) -> nat {
    match fmt {
        TimeFormat::HM => 1440,
        TimeFormat::HMS => 86400,
        TimeFormat::HMSMill => 86_400_000,
    }
}

/// The most times that one chunk of bits may be spread over, for each format.
pub open spec fn max_times(fmt: TimeFormat) -> nat {
    match fmt {
        TimeFormat::HM => 6,
        TimeFormat::HMS => 3,
        TimeFormat::HMSMill => 2,
    }
}

/// The text of the time number `x` (of `0..variants`) in a format.
pub open spec fn time_text(x: nat, fmt: TimeFormat) -> Seq<u8> {
    match fmt {
        TimeFormat::HM => text_n2(x / 60) + seq![58u8] + text_n2(x % 60),
        TimeFormat::HMS => text_n2(x / 3600) + seq![58u8] + text_n2((x / 60) % 60) + seq![58u8] + text_n2(x % 60),
        TimeFormat::HMSMill => text_n2(x / 3_600_000) + seq![58u8] + text_n2((x / 60000) % 60) + seq![58u8]
            + text_n2((x / 1000) % 60) + seq![46u8] + text_n3(x % 1000),
    }
}

/// The bytes that a time text must have to be read in a format: digits where digits go.
pub open spec fn is_time_text(b: Seq<u8>, fmt: TimeFormat) -> bool {
    &&& is_digit_at(b, 0) && is_digit_at(b, 1) && is_digit_at(b, 3) && is_digit_at(b, 4)
    &&& fmt != TimeFormat::HM ==> is_digit_at(b, 6) && is_digit_at(b, 7)
    &&& fmt == TimeFormat::HMSMill ==> is_digit_at(b, 9) && is_digit_at(b, 10) && is_digit_at(b, 11)
}

/// The time number that a time text stands for.
pub open spec fn time_value(b: Seq<u8>, fmt: TimeFormat) -> nat {
    match fmt {
        TimeFormat::HM => value_n2(b, 0) * 60 + value_n2(b, 3),
        TimeFormat::HMS => value_n2(b, 0) * 3600 + value_n2(b, 3) * 60 + value_n2(b, 6),
        TimeFormat::HMSMill => value_n2(b, 0) * 3_600_000 + value_n2(b, 3) * 60000 + value_n2(b, 6) * 1000 + value_n3(b, 9),
    }
}

proof fn lemma_n2_roundtrip(b: Seq<u8>, i: int, n: nat)
    requires
        n <= 99,
        0 <= i,
        i + 2 <= b.len(),
        b.subrange(i, i + 2) == text_n2(n),
    ensures
        is_digit_at(b, i) && is_digit_at(b, i + 1),
        value_n2(b, i) == n,
{
    assert(b[i] == b.subrange(i, i + 2)[0]);
    assert(b[i + 1] == b.subrange(i, i + 2)[1]);
}

proof fn lemma_n3_roundtrip(b: Seq<u8>, i: int, n: nat)
    requires
        n <= 999,
        0 <= i,
        i + 3 <= b.len(),
        b.subrange(i, i + 3) == text_n3(n),
    ensures
        is_digit_at(b, i) && is_digit_at(b, i + 1) && is_digit_at(b, i + 2),
        value_n3(b, i) == n,
{
    assert(b[i] == b.subrange(i, i + 3)[0]);
    assert(b[i + 1] == b.subrange(i, i + 3)[1]);
    assert(b[i + 2] == b.subrange(i, i + 3)[2]);
}

/// Reading the text of a time gives back the time.
pub proof fn law_time_roundtrip(x: nat, fmt: TimeFormat)
    requires
        x < spec_variants(fmt),
    ensures
        is_time_text(time_text(x, fmt), fmt),
        time_value(time_text(x, fmt), fmt) == x,
{
    let t = time_text(x, fmt);
    match fmt {
        TimeFormat::HM => {
            assert(t.subrange(0, 2) =~= text_n2(x / 60));
            assert(t.subrange(3, 5) =~= text_n2(x % 60));
            lemma_n2_roundtrip(t, 0, x / 60);
            lemma_n2_roundtrip(t, 3, x % 60);
        }
        TimeFormat::HMS => {
            assert(t.subrange(0, 2) =~= text_n2(x / 3600));
            assert(t.subrange(3, 5) =~= text_n2((x / 60) % 60));
            assert(t.subrange(6, 8) =~= text_n2(x % 60));
            lemma_n2_roundtrip(t, 0, x / 3600);
            lemma_n2_roundtrip(t, 3, (x / 60) % 60);
            lemma_n2_roundtrip(t, 6, x % 60);
            assert(x / 3600 == (x / 60) / 60) by {
                vstd::arithmetic::div_mod::lemma_div_denominator(x as int, 60, 60);
            }
            vstd::arithmetic::div_mod::lemma_fundamental_div_mod(x as int, 60);
            vstd::arithmetic::div_mod::lemma_fundamental_div_mod((x / 60) as int, 60);
        }
        TimeFormat::HMSMill => {
            assert(t.subrange(0, 2) =~= text_n2(x / 3_600_000));
            assert(t.subrange(3, 5) =~= text_n2((x / 60000) % 60));
            assert(t.subrange(6, 8) =~= text_n2((x / 1000) % 60));
            assert(t.subrange(9, 12) =~= text_n3(x % 1000));
            lemma_n2_roundtrip(t, 0, x / 3_600_000);
            lemma_n2_roundtrip(t, 3, (x / 60000) % 60);
            lemma_n2_roundtrip(t, 6, (x / 1000) % 60);
            lemma_n3_roundtrip(t, 9, x % 1000);
            assert(x / 60000 == (x / 1000) / 60) by {
                vstd::arithmetic::div_mod::lemma_div_denominator(x as int, 1000, 60);
            }
            assert(x / 3_600_000 == (x / 60000) / 60) by {
                vstd::arithmetic::div_mod::lemma_div_denominator(x as int, 60000, 60);
            }
            vstd::arithmetic::div_mod::lemma_fundamental_div_mod(x as int, 1000);
            vstd::arithmetic::div_mod::lemma_fundamental_div_mod((x / 1000) as int, 60);
            vstd::arithmetic::div_mod::lemma_fundamental_div_mod((x / 60000) as int, 60);
        }
    }
}

impl TimeFormat {
    /// How many bits tell one time: `floor(log2(variants)) + 1`.
    pub fn bit_size(self) -> (r: u8)
        ensures
            r == log2_floor(spec_variants(self)) + 1,
    {
        (ilog2(self.variants()) + 1) as u8
    }

    /// How many times of day the format can write.
    pub fn variants(self) -> (r: u64)
        ensures
            r == spec_variants(self),
    {
        match self {
            TimeFormat::HM => 24 * 60,
            TimeFormat::HMS => 24 * 60 * 60,
            TimeFormat::HMSMill => 24 * 60 * 60 * 1000,
        }
    }

    /// The length of the format's text: `23:59`, `23:59:59` or `23:59:59.999`.
    pub fn char_len(self) -> (r: usize)
        ensures
            r == (match self { TimeFormat::HM => 5usize, TimeFormat::HMS => 8usize, TimeFormat::HMSMill => 12usize }),
    {
        match self {
            TimeFormat::HM => 5,
            TimeFormat::HMS => 8,
            TimeFormat::HMSMill => 12,
        }
    }
}

/// `base^n`.
pub open spec fn pow_of(base: nat, n: nat) -> nat
    decreases n,
{
    if n == 0 { 1 } else { base * pow_of(base, (n - 1) as nat) }
}

/// The number whose digits in `base` are `s`, lowest first.
pub open spec fn from_base(s: Seq<nat>, base: nat) -> nat
    decreases s.len(),
{
    if s.len() == 0 { 0 } else { from_base(s.drop_last(), base) + s.last() * pow_of(base, (s.len() - 1) as nat) }
}

/// The `n` digits in `base` of `x`, lowest first.
pub open spec fn digits_base(x: nat, base: nat, n: nat) -> Seq<nat> {
    Seq::new(n, |i: int| (x / pow_of(base, i as nat)) % base)
}

/// The digits in `base` read back give the value modulo `base^n`.
proof fn lemma_base_roundtrip(x: nat, base: nat, n: nat)
    requires
        base >= 1,
    ensures
        from_base(digits_base(x, base, n), base) == x % pow_of(base, n),
    decreases n,
{
    if n == 0 {
        assert(x % 1 == 0);
    } else {
        let m = (n - 1) as nat;
        lemma_base_roundtrip(x, base, m);
        assert(digits_base(x, base, n).drop_last() =~= digits_base(x, base, m));
        lemma_pow_of_pos(base, m);
        vstd::arithmetic::div_mod::lemma_breakdown(x as int, pow_of(base, m) as int, base as int);
        assert(pow_of(base, m) * base == pow_of(base, n)) by (nonlinear_arith)
            requires pow_of(base, n) == base * pow_of(base, m);
        let d = (x / pow_of(base, m)) % base;
        assert(digits_base(x, base, n).last() == d);
        assert(d * pow_of(base, m) == pow_of(base, m) * d) by (nonlinear_arith);
    }
}

/// Every time written is a time of day: `hh:mm` (`hh:mm:ss`, `hh:mm:ss.mmm`) with the hours at
/// most 23, the minutes and seconds at most 59, colons and a point between. A format has as
/// many values as a day has minutes, seconds or milliseconds, and each value is read back
/// from its text.
pub proof fn law_time_of_day(x: nat, fmt: TimeFormat)
    requires
        x < spec_variants(fmt),
    ensures
        spec_variants(fmt) == (match fmt {
            TimeFormat::HM => 24 * 60,
            TimeFormat::HMS => 24 * 60 * 60,
            TimeFormat::HMSMill => 24 * 60 * 60 * 1000,
        }),
        ({
            let t = time_text(x, fmt);
            &&& is_time_text(t, fmt)
            &&& t.len() == (match fmt { TimeFormat::HM => 5nat, TimeFormat::HMS => 8nat, TimeFormat::HMSMill => 12nat })
            &&& value_n2(t, 0) <= 23
            &&& t[2] == 58u8
            &&& value_n2(t, 3) <= 59
            &&& fmt != TimeFormat::HM ==> t[5] == 58u8 && value_n2(t, 6) <= 59
            &&& fmt == TimeFormat::HMSMill ==> t[8] == 46u8
            &&& time_value(t, fmt) == x
        }),
{
    law_time_roundtrip(x, fmt);
    let t = time_text(x, fmt);
    match fmt {
        TimeFormat::HM => {
            assert(t.subrange(0, 2) =~= text_n2(x / 60));
            assert(t.subrange(3, 5) =~= text_n2(x % 60));
            assert(x / 60 <= 23);
            lemma_n2_roundtrip(t, 0, x / 60);
            lemma_n2_roundtrip(t, 3, x % 60);
        },
        TimeFormat::HMS => {
            assert(x / 3600 <= 23);
            assert(t.subrange(0, 2) =~= text_n2(x / 3600));
            assert(t.subrange(3, 5) =~= text_n2((x / 60) % 60));
            assert(t.subrange(6, 8) =~= text_n2(x % 60));
            lemma_n2_roundtrip(t, 0, x / 3600);
            lemma_n2_roundtrip(t, 3, (x / 60) % 60);
            lemma_n2_roundtrip(t, 6, x % 60);
        },
        TimeFormat::HMSMill => {
            assert(x / 3_600_000 <= 23);
            assert(t.subrange(0, 2) =~= text_n2(x / 3_600_000));
            assert(t.subrange(3, 5) =~= text_n2((x / 60000) % 60));
            assert(t.subrange(6, 8) =~= text_n2((x / 1000) % 60));
            lemma_n2_roundtrip(t, 0, x / 3_600_000);
            lemma_n2_roundtrip(t, 3, (x / 60000) % 60);
            lemma_n2_roundtrip(t, 6, (x / 1000) % 60);
        },
    }
}

/// Writing a chunk as times with [`BitsToTime::write`] and reading them with
/// [`TimeToBits::next`]: after `i` times the writer holds `x / V^i` and the reader has read
/// `digits_base(x, V, i)`; the next time written is read back as digit `i` of `x` in base `V`,
/// and leaves both at step `i + 1`.
pub proof fn law_time_step(x: nat, fmt: TimeFormat, i: nat)
    ensures
        ({
            let v = spec_variants(fmt);
            let d = (x / pow_of(v, i)) % v;
            &&& (x / pow_of(v, i)) / v == x / pow_of(v, i + 1)
            &&& is_time_text(time_text(d, fmt), fmt)
            &&& time_value(time_text(d, fmt), fmt) == d
            &&& digits_base(x, v, i).push(d) == digits_base(x, v, i + 1)
        }),
{
    let v = spec_variants(fmt);
    assert(v >= 1);
    lemma_pow_of_pos(v, i);
    vstd::arithmetic::div_mod::lemma_div_denominator(x as int, pow_of(v, i) as int, v as int);
    assert(pow_of(v, i) * v == pow_of(v, i + 1)) by (nonlinear_arith)
        requires pow_of(v, i + 1) == v * pow_of(v, i);
    let d = (x / pow_of(v, i)) % v;
    vstd::arithmetic::div_mod::lemma_mod_pos_bound((x / pow_of(v, i)) as int, v as int);
    law_time_roundtrip(d, fmt);
    assert(digits_base(x, v, i).push(d) =~= digits_base(x, v, i + 1));
}

/// Once all `n` times are read, the reader's chunk is the chunk written, when it fits.
pub proof fn law_time_chunk_roundtrip(x: nat, fmt: TimeFormat, n: nat)
    requires
        x < pow_of(spec_variants(fmt), n),
    ensures
        from_base(digits_base(x, spec_variants(fmt), n), spec_variants(fmt)) == x,
{
    let v = spec_variants(fmt);
    assert(v >= 1);
    lemma_base_roundtrip(x, v, n);
    vstd::arithmetic::div_mod::lemma_small_mod(x, pow_of(v, n));
}

proof fn lemma_pow_of_pos(base: nat, n: nat)
    requires
        base >= 1,
    ensures
        pow_of(base, n) >= 1,
    decreases n,
{
    if n > 0 {
        lemma_pow_of_pos(base, (n - 1) as nat);
        assert(base * pow_of(base, (n - 1) as nat) >= 1) by (nonlinear_arith)
            requires base >= 1, pow_of(base, (n - 1) as nat) >= 1;
    }
}

/// `V^n` for the format's `V` and `n` at most the format's limit.
fn variants_pow(fmt: TimeFormat, n: u8) -> (r: u64)
    requires
        n <= max_times(fmt),
    ensures
        r == pow_of(spec_variants(fmt), n as nat),
        r >= 1,
{
    let v = fmt.variants();
    let mut p: u64 = 1;
    let mut i: u8 = 0;
    while i < n
        invariant
            i <= n <= max_times(fmt),
            v == spec_variants(fmt),
            p == pow_of(v as nat, i as nat),
            p >= 1,
        decreases n - i,
    {
        proof {
            assert(pow_of(v as nat, (i + 1) as nat) == v * pow_of(v as nat, i as nat));
            assert(pow_of(v as nat, (i + 1) as nat) <= u64::MAX) by {
                lemma_variants_pow_fits(fmt, (i + 1) as nat);
            }
            assert(v * p >= 1) by (nonlinear_arith) requires v >= 1, p >= 1;
        }
        p = v * p;
        i = i + 1;
    }
    p
}

/// A whole chunk of `max_times` times fits in 64 bits.
proof fn lemma_variants_pow_fits(fmt: TimeFormat, n: nat)
    requires
        n <= max_times(fmt),
    ensures
        pow_of(spec_variants(fmt), n) <= u64::MAX,
{
    let v = spec_variants(fmt);
    lemma_pow_of_mono(v, n, max_times(fmt));
    match fmt {
        TimeFormat::HM => { assert(pow_of(1440, 6) <= u64::MAX) by { reveal_with_fuel(pow_of, 7); } }
        TimeFormat::HMS => { assert(pow_of(86400, 3) <= u64::MAX) by { reveal_with_fuel(pow_of, 4); } }
        TimeFormat::HMSMill => { assert(pow_of(86_400_000, 2) <= u64::MAX) by { reveal_with_fuel(pow_of, 3); } }
    }
}

proof fn lemma_pow_of_mono(base: nat, a: nat, b: nat)
    requires
        base >= 1,
        a <= b,
    ensures
        pow_of(base, a) <= pow_of(base, b),
    decreases b,
{
    if a < b {
        lemma_pow_of_mono(base, a, (b - 1) as nat);
        lemma_pow_of_pos(base, (b - 1) as nat);
        assert(base * pow_of(base, (b - 1) as nat) >= pow_of(base, (b - 1) as nat)) by (nonlinear_arith)
            requires base >= 1, pow_of(base, (b - 1) as nat) >= 1;
    }
}


/// Reads times back into a chunk of bits: the chunk's digits in base `variants`, lowest first.
pub struct TimeToBits {
    bits: u64,
    mul: u64,
    rest_n: u8,
    fmt: TimeFormat,
    read: Ghost<Seq<nat>>,
}

impl TimeToBits {
    /// The time numbers read so far.
    pub closed spec fn times(&self) -> Seq<nat> {
        self.read@
    }

    pub closed spec fn rest(&self) -> nat {
        self.rest_n as nat
    }

    pub closed spec fn format(&self) -> TimeFormat {
        self.fmt
    }

    pub closed spec fn wf(&self) -> bool {
        &&& self.bits == from_base(self.read@, spec_variants(self.fmt))
        &&& self.mul == pow_of(spec_variants(self.fmt), self.read@.len())
        &&& self.read@.len() + self.rest_n <= max_times(self.fmt)
    }

    pub fn char_len(&self) -> (r: usize)
        ensures
            r == (match self.format() { TimeFormat::HM => 5usize, TimeFormat::HMS => 8usize, TimeFormat::HMSMill => 12usize }),
    {
        self.fmt.char_len()
    }

    /// The mask of the bits that `n` times of a format can hold: `floor(n * log2(variants))` bits.
    pub fn mask(n: u8, fmt: TimeFormat) -> (r: u64)
        requires
            n <= max_times(fmt),
        ensures
            n == 0 ==> r == 0,
            n > 0 ==> r == u64::MAX >> (64 - log2_floor(pow_of(spec_variants(fmt), n as nat))) as u64,
    {
        if n == 0 {
            return 0;
        }
        let p = variants_pow(fmt, n);
        let bits = ilog2(p);
        u64::MAX >> (64 - bits) as u64
    }

    /// A reader of `n` times.
    pub fn new(n: u8, fmt: TimeFormat) -> (r: Self)
        requires
            n <= max_times(fmt),
        ensures
            r.wf(),
            r.times() == Seq::<nat>::empty(),
            r.rest() == n,
            r.format() == fmt,
    {
        Self { bits: 0, mul: 1, rest_n: n, fmt, read: Ghost(Seq::empty()) }
    }

    pub fn is_done(&self) -> (r: bool)
        ensures
            r == (self.rest() == 0),
    {
        self.rest_n == 0
    }

    pub fn try_take(&self) -> (r: Option<u64>)
        requires
            self.wf(),
        ensures
            r == (if self.rest() == 0 { Some(from_base(self.times(), spec_variants(self.format())) as u64) } else { None::<u64> }),
    {
        if self.is_done() { Some(self.bits) } else { None }
    }

    /// Reads the next time, written in the reader's format.
    pub fn next(&mut self, time_s: &str) -> (r: Option<u64>)
        requires
            old(self).wf(),
            old(self).rest() > 0,
            is_time_text(vstd::utf8::encode_utf8(time_s@), old(self).format()),
            from_base(old(self).times(), spec_variants(old(self).format()))
                + time_value(vstd::utf8::encode_utf8(time_s@), old(self).format())
                * pow_of(spec_variants(old(self).format()), old(self).times().len()) <= u64::MAX,
        ensures
            final(self).wf(),
            final(self).format() == old(self).format(),
            final(self).times() == old(self).times().push(time_value(vstd::utf8::encode_utf8(time_s@), old(self).format())),
            final(self).rest() == old(self).rest() - 1,
            r == (if final(self).rest() == 0 { Some(from_base(final(self).times(), spec_variants(final(self).format())) as u64) } else { None::<u64> }),
    {
        let b = time_s.as_bytes();
        let ghost v = spec_variants(self.fmt);
        let ghost k = self.read@.len();
        let ghost mul0 = self.mul;
        self.rest_n = self.rest_n - 1;
        let x: u32 = match self.fmt {
            TimeFormat::HM => read_n2(b, 0) * 60 + read_n2(b, 3),
            TimeFormat::HMS => read_n2(b, 0) * 3600 + read_n2(b, 3) * 60 + read_n2(b, 6),
            TimeFormat::HMSMill => read_n2(b, 0) * 3_600_000 + read_n2(b, 3) * 60000 + read_n2(b, 6) * 1000 + read_n3(b, 9),
        };
        let ghost xv = time_value(b@, self.fmt);
        assert(x == xv);
        proof {
            lemma_variants_pow_fits(self.fmt, k + 1);
            assert(pow_of(v, k + 1) == v * pow_of(v, k));
            assert(x * pow_of(v, k) <= u64::MAX) by (nonlinear_arith)
                requires self.bits + x * pow_of(v, k) <= u64::MAX;
            assert(self.read@.push(xv).drop_last() =~= self.read@);
            vstd::arithmetic::div_mod::lemma_small_mod((self.mul * v) as nat, 0x1_0000_0000_0000_0000nat);
        }
        self.bits = (x as u64 * self.mul) + self.bits;
        self.mul = self.mul.wrapping_mul(self.fmt.variants());
        proof {
            self.read@ = self.read@.push(xv);
            assert(self.mul == pow_of(v, k + 1)) by (nonlinear_arith)
                requires self.mul == mul0 * v, mul0 == pow_of(v, k), pow_of(v, k + 1) == v * pow_of(v, k);
        }
        self.try_take()
    }
}

/// Writes a chunk of bits as times: the chunk's digits in base `variants`, lowest first.
pub struct BitsToTime {
    bits: u64,
    rest_n: u8,
    fmt: TimeFormat,
}

impl View for BitsToTime {
    /// (what is left of the chunk, times still to write, format)
    type V = (u64, u8, TimeFormat);

    closed spec fn view(&self) -> (u64, u8, TimeFormat) {
        (self.bits, self.rest_n, self.fmt)
    }
}

impl BitsToTime {
    pub fn new(chunk: u64, n: u8, fmt: TimeFormat) -> (r: Self)
        requires
            n <= max_times(fmt),
        ensures
            r@ == (chunk, n, fmt),
    {
        Self { bits: chunk, rest_n: n, fmt }
    }

    pub fn new_hm(chunk: u64, n: u8) -> (r: Self)
        requires
            n <= 6,
        ensures
            r@ == (chunk, n, TimeFormat::HM),
    {
        Self { bits: chunk, rest_n: n, fmt: TimeFormat::HM }
    }

    pub fn new_hms(chunk: u64, n: u8) -> (r: Self)
        requires
            n <= 3,
        ensures
            r@ == (chunk, n, TimeFormat::HMS),
    {
        Self { bits: chunk, rest_n: n, fmt: TimeFormat::HMS }
    }

    pub fn new_hms_ms(chunk: u64, n: u8) -> (r: Self)
        requires
            n <= 2,
        ensures
            r@ == (chunk, n, TimeFormat::HMSMill),
    {
        Self { bits: chunk, rest_n: n, fmt: TimeFormat::HMSMill }
    }

    pub fn is_done(&self) -> (r: bool)
        ensures
            r == (self@.1 == 0),
    {
        self.rest_n == 0
    }

    fn next_u32(&mut self) -> (r: Option<u32>)
        ensures
            old(self)@.1 == 0 ==> r is None && final(self)@ == old(self)@,
            old(self)@.1 > 0 ==> r == Some(((old(self)@.0 as nat) % spec_variants(old(self)@.2)) as u32)
                && final(self)@ == (((old(self)@.0 as nat) / spec_variants(old(self)@.2)) as u64, (old(self)@.1 - 1) as u8, old(self)@.2),
    {
        if self.is_done() {
            None
        } else {
            self.rest_n = self.rest_n - 1;
            let v = self.fmt.variants();
            let ret = (self.bits % v) as u32;
            self.bits = self.bits / v;
            Some(ret)
        }
    }

    /// Writes the next time; `None` (and nothing written) once all were written.
    pub fn write<W: WriteExt>(&mut self, w: &mut W) -> (r: Option<()>)
        ensures
            old(self)@.1 == 0 ==> r is None && final(self)@ == old(self)@ && final(w).written() == old(w).written(),
            old(self)@.1 > 0 ==> r is Some
                && final(self)@ == (((old(self)@.0 as nat) / spec_variants(old(self)@.2)) as u64, (old(self)@.1 - 1) as u8, old(self)@.2)
                && final(w).written() == old(w).written() + time_text(((old(self)@.0 as nat) % spec_variants(old(self)@.2)) as nat, old(self)@.2),
    {
        match self.next_u32() {
            Some(bits) => {
                S3TimeWriter::new(self.fmt).write(bits as u64, w);
                Some(())
            }
            None => None,
        }
    }
}

/// Writes one value of `0..variants` as a time of day.
#[derive(Clone, Copy)]
pub struct S3TimeWriter {
    fmt: TimeFormat,
}

impl S3TimeWriter {
    pub closed spec fn format(&self) -> TimeFormat {
        self.fmt
    }

    pub fn new(fmt: TimeFormat) -> (r: Self)
        ensures
            r.format() == fmt,
    {
        Self { fmt }
    }

    /// Writes `x` as a time: `hh:mm`, `hh:mm:ss` or `hh:mm:ss.mmm`.
    pub fn write<W: WriteExt>(&mut self, x: u64, w: &mut W)
        requires
            x < spec_variants(old(self).format()),
        ensures
            *final(self) == *old(self),
            final(w).written() == old(w).written() + time_text(x as nat, old(self).format()),
    {
        let ghost w0 = w.written();
        proof {
            lemma_encode_ascii(':');
            lemma_encode_ascii('.');
        }
        match self.fmt {
            TimeFormat::HM => {
                let m = x % 60;
                let h = x / 60;
                write_n2(w, h as u16);
                w.write_char(':');
                write_n2(w, m as u16);
                assert(w.written() =~= w0 + time_text(x as nat, self.fmt));
            }
            TimeFormat::HMS => {
                let s = x % 60;
                let x1 = x / 60;
                let m = x1 % 60;
                let h = x1 / 60;
                proof {
                    vstd::arithmetic::div_mod::lemma_div_denominator(x as int, 60, 60);
                }
                write_n2(w, h as u16);
                w.write_char(':');
                write_n2(w, m as u16);
                w.write_char(':');
                write_n2(w, s as u16);
                assert(w.written() =~= w0 + time_text(x as nat, self.fmt));
            }
            TimeFormat::HMSMill => {
                let ms = x % 1000;
                let x1 = x / 1000;
                let s = x1 % 60;
                let x2 = x1 / 60;
                let m = x2 % 60;
                let h = x2 / 60;
                proof {
                    vstd::arithmetic::div_mod::lemma_div_denominator(x as int, 1000, 60);
                    vstd::arithmetic::div_mod::lemma_div_denominator(x as int, 60000, 60);
                }
                write_n2(w, h as u16);
                w.write_char(':');
                write_n2(w, m as u16);
                w.write_char(':');
                write_n2(w, s as u16);
                w.write_char('.');
                write_n3(w, ms as u16);
                assert(w.written() =~= w0 + time_text(x as nat, self.fmt));
            }
        }
    }
}

impl S3WriterInfo for S3TimeWriter {
    open spec fn info_wf(&self) -> bool {
        true
    }

    closed spec fn s3(&self) -> nat {
        spec_variants(self.fmt)
    }

    closed spec fn bits(&self) -> nat {
        log2_floor(spec_variants(self.fmt)) + 1
    }

    fn bits_once(&self) -> (r: u8) {
        self.fmt.bit_size()
    }

    fn s3_once(&self) -> (r: u64) {
        self.fmt.variants()
    }
}

impl S3TimeWriter {
    /// One write takes `variants` values.
    pub proof fn lemma_s3(&self)
        ensures
            self.s3() == spec_variants(self.format()),
            self.bits() == log2_floor(spec_variants(self.format())) + 1,
    {
    }
}


impl<W: WriteExt> S3Writer<W> for S3TimeWriter {
    open spec fn writes(&self, x: u64, out: Seq<u8>) -> bool {
        out == time_text(x as nat, self.format())
    }

    fn write(&mut self, x: u64, w: &mut W) {
        let ghost s0 = *self;
        S3TimeWriter::write(self, x, w);
        proof {
            assert(<S3TimeWriter as S3Writer<W>>::writes(&s0, x, time_text(x as nat, s0.format())));
        }
    }
}


impl S3TimeWriter {
    /// A writer of times can take its values from a bit reader.
    pub proof fn lemma_takes(&self)
        ensures
            takes_from_reader(self),
    {
        lemma_bits_of(spec_variants(self.fmt));
    }
}

} // verus!
