//! Writing generated values driven by a stream of bits: each value written carries the
//! stream's next bits, and values are drawn at random once the stream has ended.

use vstd::prelude::*;
use crate::text::str_writer::WriteExt;
use crate::text::s3::{S3WriterInfo, S3WriterRand, S3WriterRandWrap, RngMinimal, S3BitReader, ByteSrc,
    takes, takes_from_reader, bit_len, lemma_bit_len_pow2};
use crate::text::num::{S3NumsWriter, S3RevNumsWriter, pow2};
use crate::text::price::{S3IntPriceWriter, S3FloatPriceWriter};
use crate::text::id::IdWriter;
use crate::text::time::S3TimeWriter;

verus! {

/// The writer of one kind of generated value.
pub enum S3TypeWriter {
    Time(S3WriterRandWrap<S3TimeWriter>),
    IntPrice(S3IntPriceWriter),
    FloatPrice(S3FloatPriceWriter),
    Id(IdWriter),
    IntNumRev(S3WriterRandWrap<S3RevNumsWriter>),
    IntNum(S3WriterRandWrap<S3NumsWriter>),
}

impl S3WriterInfo for S3TypeWriter {
    open spec fn s3(&self) -> nat {
        match self {
            S3TypeWriter::Time(t) => t.s3(),
            S3TypeWriter::IntPrice(t) => t.s3(),
            S3TypeWriter::FloatPrice(t) => t.s3(),
            S3TypeWriter::Id(t) => t.s3(),
            S3TypeWriter::IntNumRev(t) => t.s3(),
            S3TypeWriter::IntNum(t) => t.s3(),
        }
    }

    open spec fn bits(&self) -> nat {
        match self {
            S3TypeWriter::Time(t) => t.bits(),
            S3TypeWriter::IntPrice(t) => t.bits(),
            S3TypeWriter::FloatPrice(t) => t.bits(),
            S3TypeWriter::Id(t) => t.bits(),
            S3TypeWriter::IntNumRev(t) => t.bits(),
            S3TypeWriter::IntNum(t) => t.bits(),
        }
    }

    open spec fn info_wf(&self) -> bool {
        match self {
            S3TypeWriter::Time(t) => t.info_wf(),
            S3TypeWriter::IntPrice(t) => t.info_wf(),
            S3TypeWriter::FloatPrice(t) => t.info_wf(),
            S3TypeWriter::Id(t) => t.info_wf(),
            S3TypeWriter::IntNumRev(t) => t.info_wf(),
            S3TypeWriter::IntNum(t) => t.info_wf(),
        }
    }

    fn bits_once(&self) -> (r: u8) {
        match self {
            S3TypeWriter::Time(t) => t.bits_once(),
            S3TypeWriter::IntPrice(t) => t.bits_once(),
            S3TypeWriter::FloatPrice(t) => t.bits_once(),
            S3TypeWriter::Id(t) => t.bits_once(),
            S3TypeWriter::IntNumRev(t) => t.bits_once(),
            S3TypeWriter::IntNum(t) => t.bits_once(),
        }
    }

    fn s3_once(&self) -> (r: u64) {
        match self {
            S3TypeWriter::Time(t) => t.s3_once(),
            S3TypeWriter::IntPrice(t) => t.s3_once(),
            S3TypeWriter::FloatPrice(t) => t.s3_once(),
            S3TypeWriter::Id(t) => t.s3_once(),
            S3TypeWriter::IntNumRev(t) => t.s3_once(),
            S3TypeWriter::IntNum(t) => t.s3_once(),
        }
    }
}

impl S3TypeWriter {
    /// A well-formed writer can take its values from a bit reader.
    pub proof fn lemma_takes(&self)
        requires
            self.info_wf(),
        ensures
            takes_from_reader(self),
    {
        match self {
            S3TypeWriter::Time(t) => t.0.lemma_takes(),
            S3TypeWriter::IntPrice(t) => t.lemma_takes(),
            S3TypeWriter::FloatPrice(t) => t.lemma_takes(),
            S3TypeWriter::Id(t) => t.lemma_takes(),
            S3TypeWriter::IntNumRev(t) => t.0.lemma_takes(),
            S3TypeWriter::IntNum(t) => t.0.lemma_takes(),
        }
    }
}

impl<W: WriteExt, Rng: RngMinimal> S3WriterRand<W, Rng> for S3TypeWriter {
    open spec fn writes(&self, x: u64, out: Seq<u8>) -> bool {
        match self {
            S3TypeWriter::Time(t) => <S3WriterRandWrap<S3TimeWriter> as S3WriterRand<W, Rng>>::writes(t, x, out),
            S3TypeWriter::IntPrice(t) => <S3IntPriceWriter as S3WriterRand<W, Rng>>::writes(t, x, out),
            S3TypeWriter::FloatPrice(t) => <S3FloatPriceWriter as S3WriterRand<W, Rng>>::writes(t, x, out),
            S3TypeWriter::Id(t) => <IdWriter as S3WriterRand<W, Rng>>::writes(t, x, out),
            S3TypeWriter::IntNumRev(t) => <S3WriterRandWrap<S3RevNumsWriter> as S3WriterRand<W, Rng>>::writes(t, x, out),
            S3TypeWriter::IntNum(t) => <S3WriterRandWrap<S3NumsWriter> as S3WriterRand<W, Rng>>::writes(t, x, out),
        }
    }

    open spec fn writes_left(&self) -> nat {
        match self {
            S3TypeWriter::Id(t) => <IdWriter as S3WriterRand<W, Rng>>::writes_left(t),
            _ => u64::MAX as nat,
        }
    }

    fn write(&mut self, x: u64, w: &mut W, rng: &mut Rng) {
        let ghost s0 = *self;
        let ghost w0 = w.written();
        match self {
            S3TypeWriter::Time(t) => {
                let ghost t0 = *t;
                <S3WriterRandWrap<S3TimeWriter> as S3WriterRand<W, Rng>>::write(t, x, w, rng);
                proof {
                    let out = choose|out: Seq<u8>| #[trigger] <S3WriterRandWrap<S3TimeWriter> as S3WriterRand<W, Rng>>::writes(&t0, x, out)
                        && w.written() == w0 + out;
                    assert(<S3TypeWriter as S3WriterRand<W, Rng>>::writes(&s0, x, out));
                }
            }
            S3TypeWriter::IntPrice(t) => {
                let ghost t0 = *t;
                <S3IntPriceWriter as S3WriterRand<W, Rng>>::write(t, x, w, rng);
                proof {
                    let out = choose|out: Seq<u8>| #[trigger] <S3IntPriceWriter as S3WriterRand<W, Rng>>::writes(&t0, x, out)
                        && w.written() == w0 + out;
                    assert(<S3TypeWriter as S3WriterRand<W, Rng>>::writes(&s0, x, out));
                }
            }
            S3TypeWriter::FloatPrice(t) => {
                let ghost t0 = *t;
                <S3FloatPriceWriter as S3WriterRand<W, Rng>>::write(t, x, w, rng);
                proof {
                    let out = choose|out: Seq<u8>| #[trigger] <S3FloatPriceWriter as S3WriterRand<W, Rng>>::writes(&t0, x, out)
                        && w.written() == w0 + out;
                    assert(<S3TypeWriter as S3WriterRand<W, Rng>>::writes(&s0, x, out));
                }
            }
            S3TypeWriter::Id(t) => {
                let ghost t0 = *t;
                <IdWriter as S3WriterRand<W, Rng>>::write(t, x, w, rng);
                proof {
                    let out = choose|out: Seq<u8>| #[trigger] <IdWriter as S3WriterRand<W, Rng>>::writes(&t0, x, out)
                        && w.written() == w0 + out;
                    assert(<S3TypeWriter as S3WriterRand<W, Rng>>::writes(&s0, x, out));
                }
            }
            S3TypeWriter::IntNumRev(t) => {
                let ghost t0 = *t;
                <S3WriterRandWrap<S3RevNumsWriter> as S3WriterRand<W, Rng>>::write(t, x, w, rng);
                proof {
                    let out = choose|out: Seq<u8>| #[trigger] <S3WriterRandWrap<S3RevNumsWriter> as S3WriterRand<W, Rng>>::writes(&t0, x, out)
                        && w.written() == w0 + out;
                    assert(<S3TypeWriter as S3WriterRand<W, Rng>>::writes(&s0, x, out));
                }
            }
            S3TypeWriter::IntNum(t) => {
                let ghost t0 = *t;
                <S3WriterRandWrap<S3NumsWriter> as S3WriterRand<W, Rng>>::write(t, x, w, rng);
                proof {
                    let out = choose|out: Seq<u8>| #[trigger] <S3WriterRandWrap<S3NumsWriter> as S3WriterRand<W, Rng>>::writes(&t0, x, out)
                        && w.written() == w0 + out;
                    assert(<S3TypeWriter as S3WriterRand<W, Rng>>::writes(&s0, x, out));
                }
            }
        }
    }
}

/// What is left of the chunk being written, counted so that each value taken lowers it: two
/// more than the bits that the chunk can still take (none when no chunk is being written).
pub open spec fn chunk_progress(b: S3BitReader) -> nat {
    if b.max_written() != 0 { (b.total() + 2 - bit_len(b.max_written() as nat)) as nat } else { 0 }
}

/// The product of what a chunk has taken needs at most one bit more than the chunk.
proof fn lemma_chunk_bits(b: S3BitReader)
    requires
        b.wf(),
        b.max_written() != 0,
    ensures
        bit_len(b.max_written() as nat) <= b.total() + 1,
{
    b.lemma_wf();
    assert(pow2((b.total() + 1) as nat) == 2 * pow2(b.total() as nat));
    crate::text::num::lemma_pow2_ge1(b.total() as nat);
    lemma_bit_len_pow2(b.max_written() as nat, (b.total() + 1) as nat);
}

/// Multiplying by `s3` adds no bit when `s3` is one, and at least one when it is two or more.
proof fn lemma_bit_len_mul(a: nat, s3: nat)
    requires
        a >= 1,
        s3 >= 1,
    ensures
        bit_len(a * s3) >= bit_len(a),
        s3 >= 2 ==> bit_len(a * s3) >= bit_len(a) + 1,
{
    let l = bit_len(a);
    assert(l >= 1);
    lemma_bit_len_pow2(a, (l - 1) as nat);
    assert(a >= pow2((l - 1) as nat));
    assert(a * s3 >= a) by (nonlinear_arith) requires s3 >= 1, a >= 1;
    lemma_bit_len_pow2(a * s3, (l - 1) as nat);
    if s3 >= 2 {
        assert(a * s3 >= 2 * a) by (nonlinear_arith) requires s3 >= 2, a >= 1;
        assert(pow2(l) == 2 * pow2((l - 1) as nat));
        lemma_bit_len_pow2(a * s3, l);
    }
}

/// A writer of generated values that carry the bits of a source: it owns the source, the
/// text written, and the random numbers.
pub struct S3Full<W, Rng> {
    r: ByteSrc,
    w: W,
    rng: Rng,
    bit_r: S3BitReader,
    chunk_sz: Option<u8>,
}

impl<W: WriteExt, Rng: RngMinimal> S3Full<W, Rng> {
    /// The text written so far.
    pub closed spec fn writer(&self) -> W {
        self.w
    }

    /// The source of the bits, where it stands.
    pub closed spec fn src(&self) -> ByteSrc {
        self.r
    }

    pub closed spec fn bit_reader(&self) -> S3BitReader {
        self.bit_r
    }

    /// The size of the next chunk, set and not yet taken.
    pub closed spec fn pending(&self) -> Option<u8> {
        self.chunk_sz
    }

    pub closed spec fn wf(&self) -> bool {
        &&& self.r.wf()
        &&& self.bit_r.wf()
        &&& (self.chunk_sz matches Some(c) ==> c <= 64)
    }

    /// Whether the bits of the source are all written.
    pub open spec fn eof(&self) -> bool {
        self.bit_reader().eof()
    }

    /// Whether a chunk is being written.
    pub open spec fn busy(&self) -> bool {
        self.bit_reader().max_written() != 0
    }

    /// What is left to write, counted so that every value that carries bits lowers it.
    pub open spec fn progress(&self) -> nat {
        528 * self.src().rest().len() + 66 * (self.bit_reader().buf().buf()@.1 as nat)
            + chunk_progress(self.bit_reader())
    }

    /// Starts on the bytes of `r`, writing into `w`.
    pub fn new(r: ByteSrc, w: W, rng: Rng) -> (res: Self)
        requires
            r.wf(),
        ensures
            res.wf(),
            res.writer() == w,
            res.pending() is None,
            !res.eof(),
            !res.busy(),
    {
        let mut r = r;
        let mut rng = rng;
        let bit_r = S3BitReader::new(&mut r, &mut rng);
        Self { r, w, rng, bit_r, chunk_sz: None }
    }

    /// The text written so far.
    pub fn writer_mut(&mut self) -> (r: &mut W)
        ensures
            *r == old(self).writer(),
            final(self).writer() == *final(r),
            final(self).src() == old(self).src(),
            final(self).bit_reader() == old(self).bit_reader(),
            final(self).pending() == old(self).pending(),
            final(self).wf() == old(self).wf(),
    {
        &mut self.w
    }

    /// Gives the text written back.
    pub fn into_writer(self) -> (r: W)
        ensures
            r == self.writer(),
    {
        self.w
    }

    pub fn is_eof_stream(&self) -> (r: bool)
        ensures
            r == self.eof(),
    {
        self.bit_r.is_eof()
    }

    /// Whether the size of the next chunk must be set.
    pub fn is_need_chunk(&self) -> (r: bool)
        ensures
            r == (self.pending() is None),
    {
        self.chunk_sz.is_none()
    }

    /// Writes one value with `s3w`: the next value of the stream, or a value drawn at random
    /// when `fake` is set or the stream has ended. Before that, the bits are topped up and the
    /// pending chunk, if any, is taken when none is being written. Tells whether the stream
    /// has ended.
    ///
    /// Nothing is written when no chunk is being written, none is pending, the stream goes on
    /// and `fake` is not set.
    #[verifier::rlimit(40)]
    #[verifier::spinoff_prover]
    pub fn write_s3<S3W: S3WriterRand<W, Rng>>(&mut self, s3w: &mut S3W, fake: bool) -> (eof: bool)
        requires
            old(self).wf(),
            takes_from_reader(old(s3w)),
            old(s3w).writes_left() > 0,
        ensures
            final(self).wf(),
            eof == final(self).eof(),
            old(self).eof() ==> final(self).eof(),
            final(self).pending() is None || final(self).pending() == old(self).pending(),
            takes_from_reader(final(s3w)),
            final(s3w).s3() == old(s3w).s3(),
            final(s3w).bits() == old(s3w).bits(),
            final(s3w).writes_left() + 1 >= old(s3w).writes_left(),
            (fake || final(self).eof() || old(self).busy() || old(self).pending() is Some) ==>
                exists|x: u64, out: Seq<u8>| x < old(s3w).s3() && #[trigger] old(s3w).writes(x, out)
                    && final(self).writer().written() == old(self).writer().written() + out,
            !(fake || final(self).eof() || old(self).busy() || old(self).pending() is Some) ==>
                final(self).writer().written() == old(self).writer().written(),
            old(self).pending() != Some(0u8) ==> final(self).progress() <= old(self).progress(),
            !fake && !old(self).eof() && old(s3w).s3() >= 2
                && (old(self).busy() || (old(self).pending() is Some && old(self).pending()->0 >= 1))
                ==> final(self).eof() || final(self).progress() < old(self).progress(),
            !fake && !old(self).eof() && old(self).busy() ==> exists|mid: S3BitReader, x: u64, out: Seq<u8>|
                mid.bits_to_write() == old(self).bit_reader().bits_to_write()
                && mid.max_written() == old(self).bit_reader().max_written()
                && mid.total() == old(self).bit_reader().total()
                && #[trigger] takes(mid, final(self).bit_reader(), old(s3w).s3(), x)
                && #[trigger] old(s3w).writes(x, out)
                && final(self).writer().written() == old(self).writer().written() + out,
            !fake && !final(self).eof() && !old(self).busy() && old(self).pending() is Some ==>
                exists|mid: S3BitReader, x: u64, out: Seq<u8>|
                mid.max_written() == 1 && mid.total() == old(self).pending()->0
                && #[trigger] takes(mid, final(self).bit_reader(), old(s3w).s3(), x)
                && #[trigger] old(s3w).writes(x, out)
                && final(self).writer().written() == old(self).writer().written() + out,
    {
        let ghost s0 = *self;
        let ghost sw0 = *s3w;
        let ghost w0 = self.w.written();
        proof {
            self.bit_r.lemma_wf();
            if self.bit_r.max_written() != 0 {
                lemma_chunk_bits(self.bit_r);
            }
        }
        self.bit_r.fill_buf(&mut self.r);
        self.bit_r.fill_rng(&mut self.rng);
        let ghost s1 = *self;
        assert(s1.progress() == s0.progress());
        match self.chunk_sz {
            Some(chunk_sz) => {
                if self.bit_r.fill(chunk_sz) {
                    self.chunk_sz = None;
                }
            }
            None => {}
        }
        let ghost s2 = *self;
        proof {
            self.bit_r.lemma_wf();
            if self.bit_r.max_written() != 0 {
                lemma_chunk_bits(self.bit_r);
            }
            if s0.pending() != Some(0u8) {
                assert(s2.progress() <= s1.progress());
            }
            if !s0.busy() && s0.pending() is Some && s0.pending()->0 >= 1 && !s2.eof() {
                assert(s2.progress() < s1.progress());
            }
        }
        if self.bit_r.is_eof() {
            s3w.write_fake(&mut self.w, &mut self.rng);
            return true;
        }
        if fake {
            s3w.write_fake(&mut self.w, &mut self.rng);
        } else {
            let ghost b2 = self.bit_r;
            assert(*s3w == sw0);
            assert(self.w.written() == w0);
            let took = s3w.write_full(&mut self.bit_r, &mut self.w, &mut self.rng);
            proof {
                if s0.busy() {
                    assert(b2.bits_to_write() == s0.bit_r.bits_to_write());
                    assert(b2.max_written() == s0.bit_r.max_written());
                    assert(b2.total() == s0.bit_r.total());
                }
                assert(took == (b2.max_written() != 0));
                assert(takes_from_reader(s3w));
                assert(!took ==> self.bit_r == b2);
                assert(took ==> self.bit_r.wf());
                if took {
                    assert(exists|x: u64| takes(b2, self.bit_r, sw0.s3(), x));
                    assert(exists|x: u64, out: Seq<u8>| #[trigger] takes(b2, self.bit_r, sw0.s3(), x)
                        && #[trigger] sw0.writes(x, out));
                    assert(exists|x: u64, out: Seq<u8>| #[trigger] takes(b2, self.bit_r, sw0.s3(), x)
                        && #[trigger] sw0.writes(x, out) && self.w.written() == w0 + out);
                    let (x, out) = choose|x: u64, out: Seq<u8>| #[trigger] takes(b2, self.bit_r, sw0.s3(), x)
                        && #[trigger] sw0.writes(x, out) && self.w.written() == w0 + out;
                    assert(takes(b2, self.bit_r, sw0.s3(), x) && sw0.writes(x, out) && self.w.written() == w0 + out);
                    if s0.busy() {
                        assert(b2.bits_to_write() == s0.bit_r.bits_to_write());
                        assert(b2.max_written() == s0.bit_r.max_written());
                        assert(b2.total() == s0.bit_r.total());
                    }
                    if !fake && !s0.eof() && s0.busy() {
                        assert(b2.bits_to_write() == s0.bit_reader().bits_to_write());
                        assert(b2.max_written() == s0.bit_reader().max_written());
                        assert(b2.total() == s0.bit_reader().total());
                        assert(takes(b2, self.bit_reader(), sw0.s3(), x));
                        assert(sw0.writes(x, out));
                        assert(self.writer().written() == s0.writer().written() + out);
                    }
                    lemma_chunk_bits(b2);
                    let prod = (b2.max_written() * sw0.s3()) as nat;
                    if bit_len(prod) <= b2.total() {
                        lemma_bit_len_mul(b2.max_written() as nat, sw0.s3());
                    }
                    assert(x < sw0.s3());
                }
            }
        }
        false
    }

    /// Sets the size of the next chunk. Only while a chunk is needed: none may be pending.
    pub fn set_next_chunk(&mut self, chunk_sz: u8)
        requires
            old(self).pending() is None,
            chunk_sz <= 64,
        ensures
            final(self).pending() == Some(chunk_sz),
            final(self).writer() == old(self).writer(),
            final(self).src() == old(self).src(),
            final(self).bit_reader() == old(self).bit_reader(),
            final(self).wf() == old(self).wf(),
    {
        self.chunk_sz = Some(chunk_sz);
    }
}

} // verus!
