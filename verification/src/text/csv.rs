//! The header of a CSV table whose values carry hidden bits.

use vstd::prelude::*;
use vstd::utf8::encode_utf8;
use crate::text::str_writer::WriteExt;
use crate::text::s3::{S3WriterInfo, S3WriterRand, RngMinimal, takes_from_reader, ilog2, log2_floor};
use crate::text::s3_full::{S3Full, S3TypeWriter};

verus! {

/// How a CSV table separates its values and ends its lines.
pub struct CsvSepInfo {
    pub end: String,
    pub sep: char,
}

/// The names of the columns, joined by `sep`.
pub open spec fn joined(names: Seq<Seq<char>>, sep: char) -> Seq<char>
    decreases names.len(),
{
    if names.len() == 0 {
        Seq::empty()
    } else if names.len() == 1 {
        names[0]
    } else {
        joined(names.drop_last(), sep).push(sep) + names.last()
    }
}

/// Writes the line of column names.
pub struct CsvHeaderWriter {
    names: Vec<String>,
}

impl CsvHeaderWriter {
    pub closed spec fn names(&self) -> Seq<Seq<char>> {
        self.names@.map_values(|s: String| s@)
    }

    pub fn new() -> (r: Self)
        ensures
            r.names() == Seq::<Seq<char>>::empty(),
    {
        let r = Self { names: Vec::new() };
        assert(r.names() =~= Seq::<Seq<char>>::empty());
        r
    }

    pub fn add_name_str(&mut self, s: &str)
        ensures
            final(self).names() == old(self).names().push(s@),
    {
        self.names.push(String::from_str(s));
        assert(self.names() =~= old(self).names().push(s@));
    }

    pub fn add_name_string(&mut self, s: String)
        ensures
            final(self).names() == old(self).names().push(s@),
    {
        self.names.push(s);
        assert(self.names() =~= old(self).names().push(s@));
    }

    /// Writes the names joined by the separator, then the line's end.
    pub fn write_header<W: WriteExt>(&self, w: &mut W, sep: &CsvSepInfo)
        ensures
            final(w).written() == old(w).written() + encode_utf8(joined(self.names(), sep.sep)) + encode_utf8(sep.end@),
    {
        let mut is_first = true;
        let mut i: usize = 0;
        let ghost w0 = w.written();
        proof {
            assert(self.names().subrange(0, 0) =~= Seq::<Seq<char>>::empty());
            assert(encode_utf8(Seq::<char>::empty()) =~= Seq::<u8>::empty());
        }
        while i < self.names.len()
            invariant
                i <= self.names@.len(),
                is_first == (i == 0),
                w.written() == w0 + encode_utf8(joined(self.names().subrange(0, i as int), sep.sep)),
            decreases self.names@.len() - i,
        {
            let ghost prev = joined(self.names().subrange(0, i as int), sep.sep);
            let ghost name = self.names()[i as int];
            if !is_first {
                w.write_char(sep.sep);
            }
            is_first = false;
            w.write_str(self.names[i].as_str());
            proof {
                let next = self.names().subrange(0, i + 1);
                assert(next.drop_last() =~= self.names().subrange(0, i as int));
                assert(next.last() == name);
                if i == 0 {
                    assert(joined(next, sep.sep) == name);
                    assert(w.written() =~= w0 + encode_utf8(joined(next, sep.sep))) by {
                        assert(w0 + Seq::<u8>::empty() =~= w0);
                    }
                } else {
                    crate::text::str_writer::lemma_encode_concat(prev, seq![sep.sep]);
                    crate::text::str_writer::lemma_encode_concat(prev.push(sep.sep), name);
                    assert(prev + seq![sep.sep] =~= prev.push(sep.sep));
                    assert(w.written() =~= w0 + encode_utf8(joined(next, sep.sep)));
                }
            }
            i = i + 1;
        }
        assert(self.names().subrange(0, i as int) =~= self.names());
        let end_len = sep.end.as_str().as_bytes().len();
        if end_len != 0 {
            w.write_str(sep.end.as_str());
        } else {
            assert(encode_utf8(sep.end@).len() == 0);
            assert(encode_utf8(sep.end@) =~= Seq::<u8>::empty());
            assert(w.written() + encode_utf8(sep.end@) =~= w.written());
        }
    }
}

/// The texts of the values of a line, joined by `sep`.
pub open spec fn joined_bytes(outs: Seq<Seq<u8>>, sep: char) -> Seq<u8>
    decreases outs.len(),
{
    if outs.len() == 0 {
        Seq::empty()
    } else if outs.len() == 1 {
        outs[0]
    } else {
        joined_bytes(outs.drop_last(), sep) + encode_utf8(seq![sep]) + outs.last()
    }
}

/// Whether `out` is what a column writer wrote for one value: a text of it for a value of
/// its space, or nothing at all (when no bits were ready for it).
pub open spec fn column_text<W: WriteExt, Rng: RngMinimal>(col: S3TypeWriter, out: Seq<u8>) -> bool {
    out.len() == 0 || exists|x: u64| x < col.s3() && #[trigger] <S3TypeWriter as S3WriterRand<W, Rng>>::writes(&col, x, out)
}

/// Writes lines of generated values, one per column; the columns are grouped so that the
/// product of a group's state spaces fits in `u64`, and each group takes one chunk of bits.
pub struct CsvLineWriter {
    cols: Vec<S3TypeWriter>,
    s3: Vec<u64>,
    /// How many bits each group of columns can carry.
    chunk_sz: Vec<u8>,
}

impl CsvLineWriter {
    pub closed spec fn cols(&self) -> Seq<S3TypeWriter> {
        self.cols@
    }

    /// The product of the state spaces of each group of columns.
    pub closed spec fn s3s(&self) -> Seq<u64> {
        self.s3@
    }

    /// The bits of each group's chunk.
    pub closed spec fn chunks(&self) -> Seq<u8> {
        self.chunk_sz@
    }

    pub closed spec fn wf(&self) -> bool {
        &&& self.s3@.len() == self.chunk_sz@.len()
        &&& self.s3@.len() >= 1
        &&& forall|i: int| 0 <= i < self.s3@.len() ==> #[trigger] self.s3@[i] >= 1
        &&& forall|i: int| 0 <= i < self.chunk_sz@.len() ==> #[trigger] self.chunk_sz@[i] <= 64
    }

    pub fn new() -> (r: Self)
        ensures
            r.wf(),
            r.cols() == Seq::<S3TypeWriter>::empty(),
            r.s3s() == seq![1u64],
            r.chunks() == seq![0u8],
    {
        let r = Self { cols: Vec::new(), s3: vec![1], chunk_sz: vec![0] };
        assert(r.s3@ =~= seq![1u64]);
        assert(r.chunk_sz@ =~= seq![0u8]);
        r
    }

    /// Whether every group carries at least one bit, so that every line written takes bits
    /// of the stream.
    pub open spec fn chunks_carry(&self) -> bool {
        forall|i: int| 0 <= i < self.chunks().len() ==> #[trigger] self.chunks()[i] >= 1
    }

    /// Whether every column can take values from the bit reader and write `more` times.
    pub open spec fn cols_ready<W: WriteExt, Rng: RngMinimal>(&self, more: nat) -> bool {
        forall|i: int| #![trigger self.cols()[i]] 0 <= i < self.cols().len() ==> takes_from_reader(&self.cols()[i])
            && <S3TypeWriter as S3WriterRand<W, Rng>>::writes_left(&self.cols()[i]) > more
    }

    /// Writes one line: the columns' values joined by the separator, then the line's end.
    /// Each column writes the stream's next value (a random one when `fake` is set or the
    /// stream ended), setting the next group's chunk when the last one was taken.
    #[verifier::rlimit(60)]
    pub fn write_line<W: WriteExt, Rng: RngMinimal>(&mut self, s3full: &mut S3Full<W, Rng>, sep: &CsvSepInfo, fake: bool)
        requires
            old(self).wf(),
            old(self).cols_ready::<W, Rng>(0),
            old(s3full).wf(),
        ensures
            final(self).wf(),
            final(self).cols().len() == old(self).cols().len(),
            final(self).s3s() == old(self).s3s(),
            final(self).chunks() == old(self).chunks(),
            forall|i: int| #![trigger final(self).cols()[i]] 0 <= i < final(self).cols().len() ==> takes_from_reader(&final(self).cols()[i])
                && final(self).cols()[i].s3() == old(self).cols()[i].s3()
                && <S3TypeWriter as S3WriterRand<W, Rng>>::writes_left(&final(self).cols()[i]) + 1
                    >= <S3TypeWriter as S3WriterRand<W, Rng>>::writes_left(&old(self).cols()[i]),
            final(s3full).wf(),
            old(s3full).eof() ==> final(s3full).eof(),
            old(self).chunks_carry() && old(s3full).pending() != Some(0u8) ==>
                final(s3full).pending() != Some(0u8) && final(s3full).progress() <= old(s3full).progress(),
            old(self).chunks_carry() && old(s3full).pending() != Some(0u8) && old(self).cols().len() >= 1
                && old(self).cols()[0].s3() >= 2 && !fake && !old(s3full).eof()
                ==> final(s3full).eof() || final(s3full).progress() < old(s3full).progress(),
            exists|outs: Seq<Seq<u8>>| outs.len() == old(self).cols().len()
                && (forall|i: int| 0 <= i < outs.len() ==> #[trigger] column_text::<W, Rng>(old(self).cols()[i], outs[i]))
                && final(s3full).writer().written() == old(s3full).writer().written()
                    + joined_bytes(outs, sep.sep) + encode_utf8(sep.end@),
            final(s3full).writer().written().len() >= old(s3full).writer().written().len(),
            final(s3full).writer().written().subrange(0, old(s3full).writer().written().len() as int)
                == old(s3full).writer().written(),
    {
        let ghost cols0 = self.cols@;
        let ghost f0 = *s3full;
        let ghost w0 = s3full.writer().written();
        let mut is_eof_stream = false;
        let mut chunk_ind: usize = 0;
        let mut is_first = true;
        let mut i: usize = 0;
        let ghost mut outs: Seq<Seq<u8>> = Seq::empty();
        let n = self.cols.len();
        while i < n
            invariant
                n == self.cols@.len(),
                n == cols0.len(),
                i <= n,
                is_first == (i == 0),
                chunk_ind <= i,
                self.wf(),
                self.s3@ == old(self).s3s(),
                self.chunk_sz@ == old(self).chunks(),
                forall|j: int| i <= j < n ==> self.cols@[j] == cols0[j],
                forall|j: int| #![trigger self.cols@[j]] 0 <= j < n ==> takes_from_reader(&self.cols@[j])
                    && self.cols@[j].s3() == cols0[j].s3()
                    && <S3TypeWriter as S3WriterRand<W, Rng>>::writes_left(&self.cols@[j]) + 1
                        >= <S3TypeWriter as S3WriterRand<W, Rng>>::writes_left(&cols0[j]),
                forall|j: int| i <= j < n ==> <S3TypeWriter as S3WriterRand<W, Rng>>::writes_left(&#[trigger] self.cols@[j]) > 0,
                s3full.wf(),
                f0.eof() ==> s3full.eof(),
                is_eof_stream ==> s3full.eof(),
                outs.len() == i,
                forall|j: int| 0 <= j < i ==> #[trigger] column_text::<W, Rng>(cols0[j], outs[j]),
                s3full.writer().written() == w0 + joined_bytes(outs, sep.sep),
                old(self).chunks_carry() && f0.pending() != Some(0u8) ==>
                    s3full.pending() != Some(0u8) && s3full.progress() <= f0.progress(),
                old(self).chunks_carry() && f0.pending() != Some(0u8) && n >= 1 && cols0[0].s3() >= 2
                    && !fake && !f0.eof() && i >= 1 ==> s3full.eof() || s3full.progress() < f0.progress(),
            decreases n - i,
        {
            let ghost fa = *s3full;
            if s3full.is_need_chunk() {
                if chunk_ind < self.chunk_sz.len() {
                    let c = self.chunk_sz[chunk_ind];
                    s3full.set_next_chunk(c);
                    chunk_ind = chunk_ind + 1;
                }
            }
            let ghost wa = s3full.writer().written();
            if !is_first {
                s3full.writer_mut().write_char(sep.sep);
            }
            is_first = false;
            let ghost fb = *s3full;
            proof {
                assert(fb.progress() == fa.progress());
                assert(fb.eof() == fa.eof());
                if i == 0 && old(self).chunks_carry() && f0.pending() != Some(0u8) {
                    assert(fb.pending() is Some);
                    assert(fb.pending()->0 >= 1);
                }
            }
            let ghost col = self.cols@[i as int];
            let ghost wb = s3full.writer().written();
            let ghost cols_before = self.cols@;
            proof {
                assert(takes_from_reader(&self.cols@[i as int]));
                assert(<S3TypeWriter as S3WriterRand<W, Rng>>::writes_left(&self.cols@[i as int]) > 0);
            }
            is_eof_stream = s3full.write_s3(&mut self.cols[i], fake || is_eof_stream);
            proof {
                assert(self.cols@.len() == n);
                assert forall|j: int| #![trigger self.cols@[j]] 0 <= j < n implies takes_from_reader(&self.cols@[j])
                    && self.cols@[j].s3() == cols0[j].s3()
                    && <S3TypeWriter as S3WriterRand<W, Rng>>::writes_left(&self.cols@[j]) + 1
                        >= <S3TypeWriter as S3WriterRand<W, Rng>>::writes_left(&cols0[j]) by {
                    if j != i {
                        assert(self.cols@[j] == cols_before[j]);
                        assert(takes_from_reader(&cols_before[j]));
                    } else {
                        assert(cols_before[j] == cols0[j]);
                    }
                }
                assert forall|j: int| i < j < n implies self.cols@[j] == cols0[j] by {
                    assert(self.cols@[j] == cols_before[j]);
                }
                let wc = s3full.writer().written();
                let out = wc.subrange(wb.len() as int, wc.len() as int);
                assert(wc == wb + out);
                if fake || s3full.eof() || fb.busy() || fb.pending() is Some {
                    let (x, o) = choose|x: u64, o: Seq<u8>| x < col.s3()
                        && #[trigger] <S3TypeWriter as S3WriterRand<W, Rng>>::writes(&col, x, o)
                        && wc == wb + o;
                    assert(o =~= out);
                    assert(column_text::<W, Rng>(col, out));
                } else {
                    assert(out.len() == 0);
                }
                let outs2 = outs.push(out);
                assert(outs2.drop_last() =~= outs);
                if i == 0 {
                    assert(joined_bytes(outs2, sep.sep) == out);
                    assert(wc =~= w0 + joined_bytes(outs2, sep.sep));
                } else {
                    assert(wc =~= w0 + joined_bytes(outs2, sep.sep));
                }
                outs = outs2;
            }
            i = i + 1;
        }
        let ghost wl = s3full.writer().written();
        let end_len = sep.end.as_str().as_bytes().len();
        if end_len != 0 {
            s3full.writer_mut().write_str(sep.end.as_str());
        } else {
            assert(encode_utf8(sep.end@).len() == 0);
            assert(encode_utf8(sep.end@) =~= Seq::<u8>::empty());
            assert(wl + encode_utf8(sep.end@) =~= wl);
        }
        assert(s3full.writer().written() == w0 + joined_bytes(outs, sep.sep) + encode_utf8(sep.end@));
        assert(s3full.writer().written().subrange(0, w0.len() as int) =~= w0);
    }

    /// Adds a column: its state space joins the last group while their product fits in
    /// `u64`; else it replaces the last group's product, and an empty group is added.
    pub fn add_column(&mut self, ty: S3TypeWriter)
        requires
            old(self).wf(),
            ty.info_wf(),
        ensures
            final(self).wf(),
            final(self).cols() == old(self).cols().push(ty),
            ({
                let last = old(self).s3s().len() - 1;
                let prev = old(self).s3s()[last];
                if prev * ty.s3() <= u64::MAX {
                    &&& final(self).s3s() == old(self).s3s().update(last, (prev * ty.s3()) as u64)
                    &&& final(self).chunks() == old(self).chunks().update(last, log2_floor((prev * ty.s3()) as nat) as u8)
                } else {
                    &&& final(self).s3s() == old(self).s3s().update(last, ty.s3() as u64).push(1)
                    &&& final(self).chunks() == old(self).chunks().update(last, log2_floor(ty.s3()) as u8).push(0)
                }
            }),
    {
        proof { ty.lemma_takes(); }
        let s3 = ty.s3_once();
        let last = self.s3.len() - 1;
        let prev_x = self.s3[last];
        assert(prev_x >= 1);
        match prev_x.checked_mul(s3) {
            Some(x) => {
                assert(x >= 1) by (nonlinear_arith) requires x == prev_x * s3, prev_x >= 1, s3 >= 1;
                self.s3.set(last, x);
                let l = ilog2(x);
                self.chunk_sz.set(last, l as u8);
            }
            None => {
                self.s3.push(1);
                self.chunk_sz.push(0);
                self.s3.set(last, s3);
                let l = ilog2(s3);
                self.chunk_sz.set(last, l as u8);
            }
        }
        self.cols.push(ty);
    }
}

/// Writes a CSV table whose values carry the bits of a stream: the column names, then
/// lines until the stream has ended.
pub struct CsvWriter {
    header: CsvHeaderWriter,
    line: CsvLineWriter,
    sep: CsvSepInfo,
}

impl CsvWriter {
    pub closed spec fn names(&self) -> Seq<Seq<char>> {
        self.header.names()
    }

    pub closed spec fn line(&self) -> CsvLineWriter {
        self.line
    }

    /// The separator of values.
    pub closed spec fn sep(&self) -> char {
        self.sep.sep
    }

    /// The end of a line.
    pub closed spec fn end(&self) -> Seq<char> {
        self.sep.end@
    }

    /// A table separated by commas, with lines ended by `"\n"`.
    pub fn new_std() -> (r: Self)
        ensures
            r.line().wf(),
            r.names() == Seq::<Seq<char>>::empty(),
            r.line().cols() == Seq::<S3TypeWriter>::empty(),
            r.sep() == ',',
            r.end() == "\n"@,
    {
        Self::new(String::from_str("\n"), ',')
    }

    pub fn new(end: String, sep: char) -> (r: Self)
        ensures
            r.line().wf(),
            r.names() == Seq::<Seq<char>>::empty(),
            r.line().cols() == Seq::<S3TypeWriter>::empty(),
            r.line().s3s() == seq![1u64],
            r.line().chunks() == seq![0u8],
            r.sep() == sep,
            r.end() == end@,
    {
        Self { header: CsvHeaderWriter::new(), line: CsvLineWriter::new(), sep: CsvSepInfo { end, sep } }
    }

    /// Adds a column named `s`.
    pub fn add_column_str(&mut self, s: &str, ty: S3TypeWriter)
        requires
            old(self).line().wf(),
            ty.info_wf(),
        ensures
            final(self).line().wf(),
            final(self).names() == old(self).names().push(s@),
            final(self).line().cols() == old(self).line().cols().push(ty),
            final(self).sep() == old(self).sep(),
            final(self).end() == old(self).end(),
    {
        self.header.add_name_str(s);
        self.line.add_column(ty);
    }

    /// Adds a column named `s`.
    pub fn add_column_string(&mut self, s: String, ty: S3TypeWriter)
        requires
            old(self).line().wf(),
            ty.info_wf(),
        ensures
            final(self).line().wf(),
            final(self).names() == old(self).names().push(s@),
            final(self).line().cols() == old(self).line().cols().push(ty),
            final(self).sep() == old(self).sep(),
            final(self).end() == old(self).end(),
    {
        self.header.add_name_string(s);
        self.line.add_column(ty);
    }

    /// Writes the column names, then lines until the stream has ended (at least one line).
    pub fn write_all<W: WriteExt, Rng: RngMinimal>(&mut self, s3full: &mut S3Full<W, Rng>)
        requires
            old(self).line().wf(),
            old(self).line().chunks_carry(),
            old(self).line().cols().len() >= 1,
            old(self).line().cols()[0].s3() >= 2,
            old(self).line().cols_ready::<W, Rng>(old(s3full).progress()),
            old(s3full).wf(),
            old(s3full).pending() != Some(0u8),
        ensures
            final(s3full).eof(),
            exists|lines: Seq<u8>| final(s3full).writer().written() == old(s3full).writer().written()
                + encode_utf8(joined(old(self).names(), old(self).sep())) + encode_utf8(old(self).end()) + lines,
    {
        let ghost w0 = s3full.writer().written();
        let w = s3full.writer_mut();
        self.header.write_header(w, &self.sep);
        let ghost head = s3full.writer().written();
        assert(head == w0 + encode_utf8(joined(self.names(), self.sep())) + encode_utf8(self.end()));
        loop
            invariant_except_break
                self.line.cols_ready::<W, Rng>(s3full.progress()),
            invariant
                self.line.wf(),
                self.line.chunks_carry(),
                self.line.cols@.len() >= 1,
                self.line.cols@[0].s3() >= 2,
                s3full.wf(),
                s3full.pending() != Some(0u8),
                self.names() == old(self).names(),
                self.sep() == old(self).sep(),
                self.end() == old(self).end(),
                head == w0 + encode_utf8(joined(old(self).names(), old(self).sep())) + encode_utf8(old(self).end()),
                s3full.writer().written().len() >= head.len(),
                s3full.writer().written().subrange(0, head.len() as int) == head,
            ensures
                s3full.eof(),
                s3full.writer().written().len() >= head.len(),
                s3full.writer().written().subrange(0, head.len() as int) == head,
            decreases s3full.progress(),
        {
            let ghost f0 = *s3full;
            let ghost wa = s3full.writer().written();
            self.line.write_line(s3full, &self.sep, false);
            proof {
                let wb = s3full.writer().written();
                assert(wb.subrange(0, head.len() as int) =~= wa.subrange(0, head.len() as int));
            }
            if s3full.is_eof_stream() {
                break;
            }
        }
        let ghost fin = s3full.writer().written();
        assert(fin == head + fin.subrange(head.len() as int, fin.len() as int));
    }
}

} // verus!
