//! Ids as carriers of bits: a growing prefix, the hidden digits, and random digits.

use vstd::prelude::*;
use vstd::utf8::encode_utf8;
use crate::text::str_writer::WriteExt;
use crate::text::num::{S3NumsWriter, S3RevNumsWriter, shown_digits, digits_be, digits_le, pow10, from_digits_le, lemma_pow10_pos,
    digit_chars, drop_zeros, lemma_digits_roundtrip};
use crate::text::str_writer::{digit, lemma_encode_ascii, lemma_encode_concat};
use crate::text::s3::{S3WriterInfo, S3WriterRand, RngMinimal, takes_from_reader};

verus! {

/// The bytes of the id that carries `x`: the 13-digit `prefix` without its leading zeros,
/// the `h` lowest digits of `x` lowest first, and the characters of `tail`.
pub open spec fn id_text(prefix: nat, x: nat, h: nat, tail: Seq<char>) -> Seq<u8> {
    shown_digits(digits_be(prefix, 13), false, false)
        + shown_digits(digits_le(x, h), true, false)
        + encode_utf8(tail)
}

/// The value that the digits of an id carry: the `h` digits before the last `p`, read
/// lowest first.
pub open spec fn id_value(id: Seq<u8>, h: nat, p: nat) -> nat {
    let start = id.len() - p - h;
    from_digits_le(Seq::new(h, |i: int| (id[start + i] - 48) as u8))
}

/// Whether every byte is an ASCII digit.
pub open spec fn all_digits(s: Seq<u8>) -> bool {
    forall|i: int| 0 <= i < s.len() ==> 48 <= #[trigger] s[i] <= 57
}

/// Writes values as ids: the prefix (which grows with each id), the value's digits lowest
/// first, and a few random digits.
#[derive(Clone)]
pub struct IdWriter {
    prefix_wr: S3NumsWriter,
    prefix: u64,
    hide_wr: S3RevNumsWriter,
    postfix_len: u8,
}

impl IdWriter {
    pub closed spec fn prefix(&self) -> u64 {
        self.prefix
    }

    pub closed spec fn hide_len(&self) -> nat {
        self.hide_wr.len()
    }

    pub closed spec fn postfix_len(&self) -> nat {
        self.postfix_len as nat
    }

    pub closed spec fn wf(&self) -> bool {
        &&& self.prefix_wr.wf() && self.prefix_wr.len() == 13 && !self.prefix_wr.zeroed()
        &&& self.hide_wr.wf() && self.hide_wr.zeroed() && !self.hide_wr.allow_empty()
    }

    pub fn new(prefix_start_from: u64, hide_len: u8, postfix_len: u8) -> (r: Self)
        requires
            hide_len <= 19,
        ensures
            r.wf(),
            r.prefix() == (if prefix_start_from < 1 { 1 } else { prefix_start_from }),
            r.hide_len() == hide_len,
            r.postfix_len() == postfix_len,
    {
        Self {
            prefix_wr: S3NumsWriter::new(13, false),
            hide_wr: S3RevNumsWriter::new(hide_len, true),
            prefix: if prefix_start_from < 1 { 1 } else { prefix_start_from },
            postfix_len,
        }
    }

    pub fn inc_prefix_u8(&mut self, inc_u8: u8)
        requires
            old(self).prefix() + inc_u8 <= u64::MAX,
        ensures
            final(self).prefix() == old(self).prefix() + inc_u8,
            final(self).wf() == old(self).wf(),
            final(self).hide_len() == old(self).hide_len(),
            final(self).postfix_len() == old(self).postfix_len(),
    {
        self.prefix = self.prefix + inc_u8 as u64;
    }

    /// Writes the id that carries `x`: the prefix (then grown by a random step), the
    /// `hide_len` digits of `x` lowest first, and `postfix_len` random characters.
    pub fn write<W: WriteExt, R: RngMinimal>(&mut self, x: u64, w: &mut W, rng: &mut R)
        requires
            old(self).wf(),
            old(self).prefix() < pow10(13),
            x < pow10(old(self).hide_len()),
        ensures
            final(self).wf(),
            final(self).hide_len() == old(self).hide_len(),
            final(self).postfix_len() == old(self).postfix_len(),
            old(self).prefix() < final(self).prefix() <= old(self).prefix() + 3,
            exists|tail: Seq<char>| tail.len() == old(self).postfix_len()
                && (forall|i: int| 0 <= i < tail.len() ==> '0' <= #[trigger] tail[i] <= '9')
                && final(w).written() == old(w).written()
                    + #[trigger] id_text(old(self).prefix() as nat, x as nat, old(self).hide_len(), tail),
    {
        let ghost w0 = w.written();
        self.prefix_wr.write(self.prefix, w);
        let step = rng.r8_range(0..=2);
        let inc: u16 = step as u16 + 1;
        proof {
            lemma_pow10_pos(13);
            assert(pow10(13) == 10_000_000_000_000) by { reveal_with_fuel(pow10, 14); }
        }
        self.prefix = self.prefix + inc as u64;
        self.hide_wr.write(x, w);
        let ghost w1 = w.written();
        let mut i: u8 = 0;
        let ghost mut tail: Seq<char> = Seq::empty();
        assert(encode_utf8(tail) =~= Seq::<u8>::empty());
        while i < self.postfix_len
            invariant
                i <= self.postfix_len,
                tail.len() == i,
                forall|j: int| 0 <= j < tail.len() ==> '0' <= #[trigger] tail[j] <= '9',
                w.written() == w1 + encode_utf8(tail),
            decreases self.postfix_len - i,
        {
            let c = rng.r_char_num();
            w.write_char(c);
            proof {
                crate::text::str_writer::lemma_encode_concat(tail, seq![c]);
                tail = tail + seq![c];
            }
            i = i + 1;
        }
        assert(w.written() == w0 + id_text(old(self).prefix() as nat, x as nat, old(self).hide_len(), tail));
    }
}

impl S3WriterInfo for IdWriter {
    open spec fn info_wf(&self) -> bool {
        self.wf()
    }

    closed spec fn s3(&self) -> nat {
        self.hide_wr.s3()
    }

    closed spec fn bits(&self) -> nat {
        self.hide_wr.bits()
    }

    fn bits_once(&self) -> (r: u8) {
        self.hide_wr.bits_once()
    }

    fn s3_once(&self) -> (r: u64) {
        self.hide_wr.s3_once()
    }
}

/// Reads the value that an id carries.
#[derive(Clone, Copy)]
pub struct IdReader {
    hide_len: u8,
    postfix_len: u8,
}

impl IdReader {
    pub closed spec fn hide_len(&self) -> nat {
        self.hide_len as nat
    }

    pub closed spec fn postfix_len(&self) -> nat {
        self.postfix_len as nat
    }

    pub fn new(hide_len: u8, postfix_len: u8) -> (r: Self)
        ensures
            r.hide_len() == hide_len,
            r.postfix_len() == postfix_len,
    {
        Self { hide_len, postfix_len }
    }

    /// The value of an id's digits `id` (ASCII): the `hide_len` digits before the last
    /// `postfix_len`, read lowest first.
    pub fn read(&self, id: &[u8]) -> (r: u64)
        requires
            self.hide_len() <= 19,
            id@.len() >= self.hide_len() + self.postfix_len(),
            all_digits(id@),
        ensures
            r == id_value(id@, self.hide_len(), self.postfix_len()),
    {
        let n = id.len();
        let start = n - self.postfix_len as usize - self.hide_len as usize;
        let ghost ds = Seq::new(self.hide_len(), |i: int| (id@[start + i] - 48) as u8);
        let mut v: u64 = 0;
        let mut mul: u64 = 1;
        let mut i: usize = 0;
        proof { assert(ds.subrange(0, 0) =~= Seq::<u8>::empty()); }
        while i < self.hide_len as usize
            invariant
                i <= self.hide_len <= 19,
                start + self.hide_len <= id@.len(),
                n == id@.len(),
                n <= usize::MAX,
                forall|j: int| 0 <= j < id@.len() ==> 48 <= #[trigger] id@[j] <= 57,
                ds == Seq::new(self.hide_len(), |j: int| (id@[start + j] - 48) as u8),
                mul == pow10(i as nat),
                v == from_digits_le(ds.subrange(0, i as int)),
                v < pow10(i as nat),
            decreases self.hide_len - i,
        {
            assert(start + i < id@.len());
            let idx = start + i;
            assert(48 <= id@[idx as int]);
            let d = id[idx] - 48;
            proof {
                assert(ds.subrange(0, i + 1).drop_last() =~= ds.subrange(0, i as int));
                assert(ds.subrange(0, i + 1).last() == d);
                crate::text::num::lemma_pow10_mono((i + 1) as nat, 19);
                assert(pow10(19) < u64::MAX) by { reveal_with_fuel(pow10, 20); }
                assert(pow10((i + 1) as nat) == 10 * pow10(i as nat));
                assert(v + d * mul < pow10((i + 1) as nat)) by (nonlinear_arith)
                    requires v < mul, d <= 9, pow10((i + 1) as nat) == 10 * mul;
            }
            assert(d * mul <= v + d * mul) by (nonlinear_arith) requires v >= 0, d >= 0, mul >= 0;
            let dm = d as u64 * mul;
            v = v + dm;
            mul = mul * 10;
            i = i + 1;
        }
        assert(ds.subrange(0, i as int) =~= ds);
        v
    }
}

/// Digit characters are encoded one byte each, as their codes.
proof fn lemma_encode_digits(tail: Seq<char>)
    requires
        forall|i: int| 0 <= i < tail.len() ==> '0' <= #[trigger] tail[i] <= '9',
    ensures
        encode_utf8(tail).len() == tail.len(),
        all_digits(encode_utf8(tail)),
    decreases tail.len(),
{
    if tail.len() > 0 {
        let rest = tail.drop_first();
        lemma_encode_digits(rest);
        lemma_encode_ascii(tail[0]);
        assert(seq![tail[0]] + rest =~= tail);
        lemma_encode_concat(seq![tail[0]], rest);
        let e = encode_utf8(tail);
        assert forall|i: int| 0 <= i < e.len() implies 48 <= #[trigger] e[i] <= 57 by {
            if i > 0 {
                assert(e[i] == encode_utf8(rest)[i - 1]);
            }
        }
    } else {
        assert(encode_utf8(tail) =~= Seq::<u8>::empty());
    }
}

/// Dropping leading zeros keeps only digits where there were only digits.
proof fn lemma_drop_zeros_digits(s: Seq<u8>)
    requires
        all_digits(s),
    ensures
        all_digits(drop_zeros(s)),
    decreases s.len(),
{
    if s.len() > 0 && s[0] == digit(0) {
        let t = s.drop_first();
        assert(all_digits(t)) by {
            assert forall|i: int| 0 <= i < t.len() implies 48 <= #[trigger] t[i] <= 57 by {
                assert(t[i] == s[i + 1]);
            }
        }
        lemma_drop_zeros_digits(t);
    }
}

/// The id that [`IdWriter::write`] writes for `x`, read by an [`IdReader`] with the same
/// hidden and random lengths, gives `x` back: it is made of digits only, long enough, and
/// its carried value is `x`.
pub proof fn law_id_roundtrip(prefix: nat, x: nat, h: nat, tail: Seq<char>)
    requires
        x < pow10(h),
        forall|i: int| 0 <= i < tail.len() ==> '0' <= #[trigger] tail[i] <= '9',
    ensures
        all_digits(id_text(prefix, x, h, tail)),
        id_text(prefix, x, h, tail).len() >= h + tail.len(),
        id_value(id_text(prefix, x, h, tail), h, tail.len()) == x,
{
    let pre = shown_digits(digits_be(prefix, 13), false, false);
    let ds = digits_le(x, h);
    let mid = shown_digits(ds, true, false);
    let t = encode_utf8(tail);
    let id = id_text(prefix, x, h, tail);
    lemma_encode_digits(tail);
    assert(mid == digit_chars(ds));
    assert(mid.len() == h);
    assert(all_digits(mid)) by {
        assert forall|i: int| 0 <= i < mid.len() implies 48 <= #[trigger] mid[i] <= 57 by {
            assert(mid[i] == digit(ds[i] as int));
            assert(ds[i] < 10);
        }
    }
    let chars = digit_chars(digits_be(prefix, 13));
    assert(all_digits(chars)) by {
        assert forall|i: int| 0 <= i < chars.len() implies 48 <= #[trigger] chars[i] <= 57 by {
            let d = digits_be(prefix, 13)[i];
            assert(d == digits_le(prefix, 13)[12 - i]);
            assert(d < 10);
        }
    }
    lemma_drop_zeros_digits(chars);
    assert(all_digits(pre)) by {
        if !(drop_zeros(chars).len() == 0) {
            assert(pre == drop_zeros(chars));
        } else {
            assert(pre == seq![digit(0)]);
        }
    }
    assert(id == pre + mid + t);
    assert(all_digits(id)) by {
        assert forall|i: int| 0 <= i < id.len() implies 48 <= #[trigger] id[i] <= 57 by {
            if i < pre.len() {
                assert(id[i] == pre[i]);
            } else if i < pre.len() + mid.len() {
                assert(id[i] == mid[i - pre.len()]);
            } else {
                assert(id[i] == t[i - pre.len() - mid.len()]);
            }
        }
    }
    let start = id.len() - tail.len() - h;
    assert(start == pre.len());
    let got = Seq::new(h, |i: int| (id[start + i] - 48) as u8);
    assert(got =~= ds) by {
        assert forall|i: int| 0 <= i < h implies got[i] == ds[i] by {
            assert(id[start + i] == mid[i]);
            assert(mid[i] == digit(ds[i] as int));
            assert(ds[i] < 10);
        }
    }
    lemma_digits_roundtrip(x, h);
    vstd::arithmetic::div_mod::lemma_small_mod(x, pow10(h));
}


impl<W: WriteExt, Rng: RngMinimal> S3WriterRand<W, Rng> for IdWriter {
    open spec fn writes(&self, x: u64, out: Seq<u8>) -> bool {
        exists|tail: Seq<char>| tail.len() == self.postfix_len()
            && (forall|i: int| 0 <= i < tail.len() ==> '0' <= #[trigger] tail[i] <= '9')
            && out == #[trigger] id_text(self.prefix() as nat, x as nat, self.hide_len(), tail)
    }

    /// Each write grows the prefix by at most three, and the prefix must stay below `10^13`.
    open spec fn writes_left(&self) -> nat {
        if self.prefix() < pow10(13) { ((pow10(13) - self.prefix() + 2) / 3) as nat } else { 0 }
    }

    fn write(&mut self, x: u64, w: &mut W, rng: &mut Rng) {
        let ghost s0 = *self;
        let ghost w0 = w.written();
        proof { self.hide_wr.lemma_s3(); }
        IdWriter::write(self, x, w, rng);
        proof {
            self.hide_wr.lemma_s3();
            let tail = choose|tail: Seq<char>| tail.len() == s0.postfix_len()
                && (forall|i: int| 0 <= i < tail.len() ==> '0' <= #[trigger] tail[i] <= '9')
                && w.written() == w0 + #[trigger] id_text(s0.prefix() as nat, x as nat, s0.hide_len(), tail);
            let out = id_text(s0.prefix() as nat, x as nat, s0.hide_len(), tail);
            assert(<IdWriter as S3WriterRand<W, Rng>>::writes(&s0, x, out));
        }
    }
}


impl IdWriter {
    /// A well-formed writer can take its values from a bit reader.
    pub proof fn lemma_takes(&self)
        requires
            self.wf(),
        ensures
            takes_from_reader(self),
    {
        self.hide_wr.lemma_takes();
    }
}

} // verus!
