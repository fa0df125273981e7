//! Prices as carriers of bits: a value written as the digits of a price.

use vstd::prelude::*;
use crate::text::str_writer::{WriteExt, digit, dec, lemma_encode_ascii};
use crate::text::num::{S3RevNumsWriter, shown_digits, digits_le, pow10};
use crate::text::s3::{S3WriterInfo, S3WriterRand, RngMinimal, ilog2, log2_floor, takes_from_reader, lemma_bits_of};

verus! {

/// The digit that a price's ending repeats.
#[derive(Clone, Copy, PartialEq, Eq, Structural)]
pub enum PostfixSymb {
    /// `9`: `$12.99` or `$1299`
    Nine,
    /// `0`: `$12.00` or `$1200`
    Zero,
}

pub open spec fn spec_to_n1(s: PostfixSymb) -> u8 {
    match s {
        PostfixSymb::Nine => 9,
        PostfixSymb::Zero => 0,
    }
}

impl PostfixSymb {
    pub fn to_n1(self) -> (r: u8)
        ensures
            r == spec_to_n1(self),
    {
        match self {
            PostfixSymb::Nine => 9,
            PostfixSymb::Zero => 0,
        }
    }
}

/// The ending of a price: a few nines or a few zeros.
#[derive(Clone, Copy)]
pub struct PricePostfixInfo {
    pub postfix_len: u8,
    pub postfix_symb: PostfixSymb,
}

/// The text of a price's ending.
pub open spec fn postfix_text(p: PricePostfixInfo) -> Seq<u8> {
    Seq::new(p.postfix_len as nat, |i: int| digit(spec_to_n1(p.postfix_symb) as int))
}

impl PricePostfixInfo {
    /// No ending.
    pub fn new_empty() -> (r: Self)
        ensures
            r.postfix_len == 0 && r.postfix_symb == PostfixSymb::Zero,
    {
        Self { postfix_len: 0, postfix_symb: PostfixSymb::Zero }
    }

    /// An ending of `len` zeros.
    pub fn new_0(len: u8) -> (r: Self)
        ensures
            r.postfix_len == len && r.postfix_symb == PostfixSymb::Zero,
    {
        Self { postfix_len: len, postfix_symb: PostfixSymb::Zero }
    }

    /// An ending of `len` nines.
    pub fn new_9(len: u8) -> (r: Self)
        ensures
            r.postfix_len == len && r.postfix_symb == PostfixSymb::Nine,
    {
        Self { postfix_len: len, postfix_symb: PostfixSymb::Nine }
    }

    pub fn is_zero_ty(&self) -> (r: bool)
        ensures
            r == (self.postfix_symb == PostfixSymb::Zero),
    {
        match self.postfix_symb {
            PostfixSymb::Zero => true,
            PostfixSymb::Nine => false,
        }
    }

    pub fn wrtie<W: WriteExt>(&self, w: &mut W)
        ensures
            final(w).written() == old(w).written() + postfix_text(*self),
    {
        let d = self.postfix_symb.to_n1();
        let mut i: u8 = 0;
        while i < self.postfix_len
            invariant
                i <= self.postfix_len,
                d == spec_to_n1(self.postfix_symb),
                w.written() == old(w).written() + Seq::new(i as nat, |j: int| digit(d as int)),
            decreases self.postfix_len - i,
        {
            w.write_n1z(d);
            i = i + 1;
            assert(w.written() =~= old(w).written() + Seq::new(i as nat, |j: int| digit(d as int)));
        }
        assert(postfix_text(*self) =~= Seq::new(i as nat, |j: int| digit(d as int)));
    }
}

/// The text of an integer price: the prefix, the value's digits lowest first (all of them
/// after a non-zero prefix), and the ending (a lone `0` in place of everything for a zero price
/// with a zero ending).
pub open spec fn int_price_text(x: nat, prefix: nat, int_len: nat, postfix: PricePostfixInfo) -> Seq<u8> {
    dec(prefix) + shown_digits(digits_le(x, int_len), prefix != 0, true)
        + (if prefix == 0 && x == 0 && postfix.postfix_symb == PostfixSymb::Zero { seq![digit(0)] } else { postfix_text(postfix) })
}

/// The prefix written for a random `roll`: raised to the least prefix `min`.
pub open spec fn raised(roll: u8, min: u8) -> nat {
    (if roll < min { min } else { roll }) as nat
}

/// Writes a value as an integer price: a random prefix, the value's digits, an ending.
#[derive(Clone, Copy)]
pub struct S3IntPriceWriter {
    rev_num_writer: S3RevNumsWriter,
    min_prefix: u8,
    prefix_range: u8,
    postfix: PricePostfixInfo,
}

impl S3IntPriceWriter {
    pub closed spec fn int_len(&self) -> nat {
        self.rev_num_writer.len()
    }

    pub closed spec fn min_prefix(&self) -> u8 {
        self.min_prefix
    }

    pub closed spec fn prefix_range(&self) -> u8 {
        self.prefix_range
    }

    pub closed spec fn postfix(&self) -> PricePostfixInfo {
        self.postfix
    }

    pub closed spec fn wf(&self) -> bool {
        &&& self.rev_num_writer.wf()
        &&& self.rev_num_writer.allow_empty()
        &&& self.min_prefix <= self.prefix_range
        &&& 1 <= self.rev_num_writer.len()
    }

    /// One write takes `10^int_len` values.
    pub proof fn lemma_s3(&self)
        requires
            self.wf(),
        ensures
            self.s3() == pow10(self.int_len()),
            self.bits() == log2_floor(pow10(self.int_len())) + 1,
    {
        self.rev_num_writer.lemma_s3();
    }

    pub fn new(int_len: u8, prefix_range: u8, postfix: PricePostfixInfo) -> (r: Self)
        requires
            1 <= int_len <= 19,
        ensures
            r.wf(),
            r.int_len() == int_len,
            r.min_prefix() == 0,
            r.prefix_range() == prefix_range,
            r.postfix() == postfix,
    {
        let mut rev_num_writer = S3RevNumsWriter::new(int_len, false);
        rev_num_writer.set_allow_empty(true);
        Self { min_prefix: 0, rev_num_writer, prefix_range, postfix }
    }

    pub fn set_min_prefix(&mut self, min_prefix: u8)
        requires
            old(self).wf(),
            min_prefix <= old(self).prefix_range(),
        ensures
            final(self).wf(),
            final(self).int_len() == old(self).int_len(),
            final(self).min_prefix() == min_prefix,
            final(self).prefix_range() == old(self).prefix_range(),
            final(self).postfix() == old(self).postfix(),
    {
        self.min_prefix = min_prefix;
    }

    /// Writes `x` after the prefix `roll`, raised to the least prefix.
    pub fn write_prefixed<W: WriteExt>(&mut self, x: u64, w: &mut W, roll: u8)
        requires
            old(self).wf(),
            x < pow10(old(self).int_len()),
        ensures
            final(self).wf(),
            final(self).int_len() == old(self).int_len(),
            final(self).min_prefix() == old(self).min_prefix(),
            final(self).prefix_range() == old(self).prefix_range(),
            final(self).postfix() == old(self).postfix(),
            final(w).written() == old(w).written() + int_price_text(x as nat,
                raised(roll, old(self).min_prefix()), old(self).int_len(), old(self).postfix()),
    {
        let mut prefix = roll;
        if prefix < self.min_prefix {
            prefix = self.min_prefix;
        }
        let ghost w0 = w.written();
        w.write_n3e(prefix as u16);
        let is_zero = prefix == 0;
        self.rev_num_writer.set_zeroed(!is_zero);
        let ghost w1 = w.written();
        self.rev_num_writer.write(x, w);
        let ghost w2 = w.written();
        if prefix == 0 && x == 0 && self.postfix.is_zero_ty() {
            proof { lemma_encode_ascii('0'); }
            w.write_char('0');
            assert(w.written() =~= w0 + int_price_text(x as nat, prefix as nat, self.int_len(), self.postfix));
            return;
        }
        self.postfix.wrtie(w);
        assert(w.written() =~= w0 + int_price_text(x as nat, prefix as nat, self.int_len(), self.postfix));
    }

    /// Writes `x` after a random prefix of `0..=prefix_range` (raised to the least prefix).
    pub fn write<W: WriteExt, R: RngMinimal>(&mut self, x: u64, w: &mut W, rng: &mut R)
        requires
            old(self).wf(),
            x < pow10(old(self).int_len()),
        ensures
            final(self).wf(),
            final(self).int_len() == old(self).int_len(),
            final(self).min_prefix() == old(self).min_prefix(),
            final(self).prefix_range() == old(self).prefix_range(),
            final(self).postfix() == old(self).postfix(),
            exists|roll: u8| roll <= old(self).prefix_range() && final(w).written() == old(w).written() + int_price_text(x as nat,
                #[trigger] raised(roll, old(self).min_prefix()), old(self).int_len(), old(self).postfix()),
    {
        let roll = rng.r8_range(0..=self.prefix_range);
        self.write_prefixed(x, w, roll);
        assert(raised(roll, old(self).min_prefix()) == raised(roll, old(self).min_prefix()));
    }
}

impl S3WriterInfo for S3IntPriceWriter {
    open spec fn info_wf(&self) -> bool {
        self.wf()
    }

    closed spec fn s3(&self) -> nat {
        self.rev_num_writer.s3()
    }

    closed spec fn bits(&self) -> nat {
        self.rev_num_writer.bits()
    }

    fn bits_once(&self) -> (r: u8) {
        self.rev_num_writer.bits_once()
    }

    fn s3_once(&self) -> (r: u64) {
        self.rev_num_writer.s3_once()
    }
}

/// The fraction of a price.
#[derive(Clone, Copy, PartialEq, Eq, Structural)]
pub enum FracVariation {
    /// no bits; ending `.00`
    Zeros,
    /// no bits; ending `.99`
    Nines,
    /// 1 bit; ending `.00` or `.50`
    Fifty,
    /// 1 bit; ending `.00` or `.99`
    ZeroOrNinty,
    /// 3.32 bits; ending `.x0`
    HighNum,
    /// 4.32 bits; ending `.x0` or `.x5`
    Step5,
}

pub open spec fn spec_frac_s3(f: FracVariation) -> nat {
    match f {
        FracVariation::Zeros => 1,
        FracVariation::Nines => 1,
        FracVariation::Fifty => 2,
        FracVariation::ZeroOrNinty => 2,
        FracVariation::HighNum => 10,
        FracVariation::Step5 => 20,
    }
}

/// The two digits of the fraction that stands for `frac`.
pub open spec fn frac_value(f: FracVariation, frac: nat) -> nat {
    match f {
        FracVariation::Zeros => 0,
        FracVariation::Nines => 99,
        FracVariation::Fifty => frac * 50,
        FracVariation::ZeroOrNinty => frac * 99,
        FracVariation::HighNum => frac * 10,
        FracVariation::Step5 => frac * 5,
    }
}

/// The endings of a price, as its doc promises: `.00`; `.99`; `.00` or `.50`; `.00` or `.99`;
/// `.x0` for one of ten digits `x`; `.x0` or `.x5` for one of twenty values. Each is given
/// by its ASCII bytes (`48` is `'0'`, `53` is `'5'`, `57` is `'9'`), for the fraction value
/// `frac` that [`FracVariation::wrtie`] writes.
pub proof fn law_frac_endings(f: FracVariation, frac: nat)
    requires
        frac < spec_frac_s3(f),
    ensures
        ({
            let t = seq![digit((frac_value(f, frac) / 10) as int), digit((frac_value(f, frac) % 10) as int)];
            &&& f == FracVariation::Zeros ==> t == seq![48u8, 48u8]
            &&& f == FracVariation::Nines ==> t == seq![57u8, 57u8]
            &&& f == FracVariation::Fifty ==> t == (if frac == 0 { seq![48u8, 48u8] } else { seq![53u8, 48u8] })
            &&& f == FracVariation::ZeroOrNinty ==> t == (if frac == 0 { seq![48u8, 48u8] } else { seq![57u8, 57u8] })
            &&& f == FracVariation::HighNum ==> t == seq![(48 + frac) as u8, 48u8]
            &&& f == FracVariation::Step5 ==> t == seq![(48 + frac / 2) as u8, (if frac % 2 == 0 { 48u8 } else { 53u8 })]
        }),
        spec_frac_s3(f) == (match f {
            FracVariation::Zeros => 1nat,
            FracVariation::Nines => 1nat,
            FracVariation::Fifty => 2nat,
            FracVariation::ZeroOrNinty => 2nat,
            FracVariation::HighNum => 10nat,
            FracVariation::Step5 => 20nat,
        }),
{
    let t = seq![digit((frac_value(f, frac) / 10) as int), digit((frac_value(f, frac) % 10) as int)];
    match f {
        FracVariation::Zeros => { assert(t =~= seq![48u8, 48u8]); },
        FracVariation::Nines => { assert(t =~= seq![57u8, 57u8]); },
        FracVariation::Fifty => {
            if frac == 0 { assert(t =~= seq![48u8, 48u8]); } else { assert(t =~= seq![53u8, 48u8]); }
        },
        FracVariation::ZeroOrNinty => {
            if frac == 0 { assert(t =~= seq![48u8, 48u8]); } else { assert(t =~= seq![57u8, 57u8]); }
        },
        FracVariation::HighNum => { assert(t =~= seq![(48 + frac) as u8, 48u8]); },
        FracVariation::Step5 => {
            assert(t =~= seq![(48 + frac / 2) as u8, (if frac % 2 == 0 { 48u8 } else { 53u8 })]);
        },
    }
}

impl FracVariation {
    pub fn s3_once(self) -> (r: u64)
        ensures
            r == spec_frac_s3(self),
    {
        match self {
            FracVariation::Zeros => 1,
            FracVariation::Nines => 1,
            FracVariation::Fifty => 2,
            FracVariation::ZeroOrNinty => 2,
            FracVariation::HighNum => 10,
            FracVariation::Step5 => 20,
        }
    }

    /// Writes the fraction's two digits for `frac`.
    pub fn wrtie<W: WriteExt>(&self, frac: u8, w: &mut W)
        requires
            frac < spec_frac_s3(*self),
        ensures
            final(w).written() == old(w).written() + seq![digit((frac_value(*self, frac as nat) / 10) as int), digit((frac_value(*self, frac as nat) % 10) as int)],
    {
        match self {
            FracVariation::Zeros => w.write_n2z(0),
            FracVariation::Nines => w.write_n2z(99),
            FracVariation::Fifty => w.write_n2z(frac * 50),
            FracVariation::ZeroOrNinty => w.write_n2z(frac * 99),
            FracVariation::HighNum => w.write_n2z(frac * 10),
            FracVariation::Step5 => w.write_n2z(frac * 5),
        }
    }
}

/// Writes a value as a price with a fraction: the integer part and then the fraction.
#[derive(Clone, Copy)]
pub struct S3FloatPriceWriter {
    int_part: S3IntPriceWriter,
    frac_variation: FracVariation,
}

impl S3FloatPriceWriter {
    pub closed spec fn int_part(&self) -> S3IntPriceWriter {
        self.int_part
    }

    pub closed spec fn frac_variation(&self) -> FracVariation {
        self.frac_variation
    }

    pub closed spec fn wf(&self) -> bool {
        &&& self.int_part.wf()
        &&& pow10(self.int_part.int_len()) * spec_frac_s3(self.frac_variation) <= u64::MAX
    }

    pub fn new(int_part: S3IntPriceWriter, frac_variation: FracVariation) -> (r: Self)
        requires
            int_part.wf(),
            pow10(int_part.int_len()) * spec_frac_s3(frac_variation) <= u64::MAX,
        ensures
            r.wf(),
            r.int_part() == int_part,
            r.frac_variation() == frac_variation,
    {
        Self { int_part, frac_variation }
    }

    /// Writes `x`: its integer part `x / s3(frac)` as a price, a point, then the fraction
    /// for `x % s3(frac)`.
    pub fn write<W: WriteExt, R: RngMinimal>(&mut self, x: u64, w: &mut W, rng: &mut R)
        requires
            old(self).wf(),
            x < pow10(old(self).int_part().int_len()) * spec_frac_s3(old(self).frac_variation()),
        ensures
            final(self).wf(),
            final(self).frac_variation() == old(self).frac_variation(),
            final(self).int_part().int_len() == old(self).int_part().int_len(),
            final(self).int_part().postfix() == old(self).int_part().postfix(),
            ({
                let fv = spec_frac_s3(old(self).frac_variation());
                let fr = frac_value(old(self).frac_variation(), (x as nat) % fv);
                let ip = old(self).int_part();
                exists|roll: u8| roll <= ip.prefix_range() && final(w).written() == old(w).written()
                    + int_price_text((x as nat) / fv, #[trigger] raised(roll, ip.min_prefix()), ip.int_len(), ip.postfix())
                    + seq![46u8, digit((fr / 10) as int), digit((fr % 10) as int)]
            }),
    {
        let float_var = self.frac_variation.s3_once();
        let frac = (x % float_var) as u8;
        let int_val = x / float_var;
        let ghost w0 = w.written();
        proof {
            let n = pow10(self.int_part.int_len());
            assert(int_val < n) by (nonlinear_arith)
                requires int_val == x / float_var, x < n * float_var, float_var >= 1;
        }
        self.int_part.write(int_val, w, rng);
        let ghost w1 = w.written();
        proof { lemma_encode_ascii('.'); }
        w.write_char('.');
        self.frac_variation.wrtie(frac, w);
        proof {
            let fv = spec_frac_s3(old(self).frac_variation());
            let fr = frac_value(old(self).frac_variation(), (x as nat) % fv);
            let ip = old(self).int_part();
            let roll = choose|roll: u8| roll <= ip.prefix_range() && w1 == w0
                + int_price_text((x as nat) / fv, #[trigger] raised(roll, ip.min_prefix()), ip.int_len(), ip.postfix());
            assert(w.written() =~= w0
                + int_price_text((x as nat) / fv, raised(roll, ip.min_prefix()), ip.int_len(), ip.postfix())
                + seq![46u8, digit((fr / 10) as int), digit((fr % 10) as int)]);
        }
    }
}

impl S3WriterInfo for S3FloatPriceWriter {
    open spec fn info_wf(&self) -> bool {
        self.wf()
    }

    closed spec fn s3(&self) -> nat {
        self.int_part.s3() * spec_frac_s3(self.frac_variation)
    }

    closed spec fn bits(&self) -> nat {
        log2_floor(self.int_part.s3() * spec_frac_s3(self.frac_variation)) + 1
    }

    fn bits_once(&self) -> (r: u8) {
        let s3 = self.s3_once();
        proof {
            self.int_part.lemma_s3();
            crate::text::num::lemma_pow10_pos(self.int_part.int_len());
            assert(s3 >= 1) by (nonlinear_arith)
                requires s3 == pow10(self.int_part.int_len()) * spec_frac_s3(self.frac_variation), pow10(self.int_part.int_len()) >= 1, spec_frac_s3(self.frac_variation) >= 1;
        }
        (ilog2(s3) + 1) as u8
    }

    fn s3_once(&self) -> (r: u64) {
        proof { self.int_part.lemma_s3(); }
        self.int_part.s3_once() * self.frac_variation.s3_once()
    }
}


impl<W: WriteExt, Rng: RngMinimal> S3WriterRand<W, Rng> for S3IntPriceWriter {
    open spec fn writes(&self, x: u64, out: Seq<u8>) -> bool {
        exists|roll: u8| roll <= self.prefix_range() && out == int_price_text(x as nat, #[trigger] raised(roll, self.min_prefix()), self.int_len(), self.postfix())
    }

    open spec fn writes_left(&self) -> nat {
        u64::MAX as nat
    }

    fn write(&mut self, x: u64, w: &mut W, rng: &mut Rng) {
        let ghost s0 = *self;
        let ghost w0 = w.written();
        proof { self.lemma_s3(); }
        S3IntPriceWriter::write(self, x, w, rng);
        proof {
            self.lemma_s3();
            let roll = choose|roll: u8| roll <= s0.prefix_range() && w.written() == w0 + int_price_text(x as nat,
                #[trigger] raised(roll, s0.min_prefix()), s0.int_len(), s0.postfix());
            let out = int_price_text(x as nat, raised(roll, s0.min_prefix()), s0.int_len(), s0.postfix());
            assert(<S3IntPriceWriter as S3WriterRand<W, Rng>>::writes(&s0, x, out));
        }
    }
}

impl<W: WriteExt, Rng: RngMinimal> S3WriterRand<W, Rng> for S3FloatPriceWriter {
    open spec fn writes(&self, x: u64, out: Seq<u8>) -> bool {
        let fv = spec_frac_s3(self.frac_variation());
        let fr = frac_value(self.frac_variation(), (x as nat) % fv);
        let ip = self.int_part();
        exists|roll: u8| roll <= ip.prefix_range() && out == int_price_text((x as nat) / fv, #[trigger] raised(roll, ip.min_prefix()), ip.int_len(), ip.postfix())
            + seq![46u8, digit((fr / 10) as int), digit((fr % 10) as int)]
    }

    open spec fn writes_left(&self) -> nat {
        u64::MAX as nat
    }

    fn write(&mut self, x: u64, w: &mut W, rng: &mut Rng) {
        let ghost s0 = *self;
        let ghost w0 = w.written();
        proof { self.int_part.lemma_s3(); }
        S3FloatPriceWriter::write(self, x, w, rng);
        proof {
            self.int_part.lemma_s3();
            let fv = spec_frac_s3(s0.frac_variation());
            let fr = frac_value(s0.frac_variation(), (x as nat) % fv);
            let ip = s0.int_part();
            let roll = choose|roll: u8| roll <= ip.prefix_range() && w.written() == w0
                + int_price_text((x as nat) / fv, #[trigger] raised(roll, ip.min_prefix()), ip.int_len(), ip.postfix())
                + seq![46u8, digit((fr / 10) as int), digit((fr % 10) as int)];
            let out = int_price_text((x as nat) / fv, raised(roll, ip.min_prefix()), ip.int_len(), ip.postfix())
                + seq![46u8, digit((fr / 10) as int), digit((fr % 10) as int)];
            assert(w.written() == w0 + out);
            assert(<S3FloatPriceWriter as S3WriterRand<W, Rng>>::writes(&s0, x, out));
        }
    }
}


impl S3IntPriceWriter {
    /// A well-formed writer can take its values from a bit reader.
    pub proof fn lemma_takes(&self)
        requires
            self.wf(),
        ensures
            takes_from_reader(self),
    {
        self.rev_num_writer.lemma_takes();
    }
}

impl S3FloatPriceWriter {
    /// A well-formed writer can take its values from a bit reader.
    pub proof fn lemma_takes(&self)
        requires
            self.wf(),
        ensures
            takes_from_reader(self),
    {
        self.int_part.lemma_s3();
        crate::text::num::lemma_pow10_pos(self.int_part.int_len());
        let s3 = self.s3();
        assert(s3 >= 1) by (nonlinear_arith)
            requires s3 == pow10(self.int_part.int_len()) * spec_frac_s3(self.frac_variation),
                pow10(self.int_part.int_len()) >= 1, spec_frac_s3(self.frac_variation) >= 1;
        lemma_bits_of(s3);
    }
}

} // verus!
