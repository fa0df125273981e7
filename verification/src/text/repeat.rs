//! Hiding bits in a text by doubling characters: a typo in a chunk of `bit_freq`
//! characters is a `1`, a chunk without one is a `0`.

use vstd::prelude::*;
use crate::error::{Error, Result};
use crate::reader::{ConstBytesReader, feed};
use crate::writer::IterByteWriter;
use crate::bits::{stream_chunk, stream_len};
use crate::laws::{stream_prefix, law_chunks_roundtrip};
use crate::text::str_writer::{chars_of, string_push};
use crate::text::s3::{thread_rng, random_range_u64};

verus! {

/// The first event when comparing `n` characters of `a` from `ia` with those of `b` from
/// `ib`: `(0, n)` all equal, `(1, j)` `b` ended at the `j`-th, `(2, j)` `a` ended there,
/// `(3, j)` the `j`-th ones differ.
pub open spec fn first_event(a: Seq<char>, b: Seq<char>, ia: int, ib: int, n: nat) -> (u8, nat)
    decreases n,
{
    if n == 0 {
        (0, 0)
    } else if ib >= b.len() {
        (1, 0)
    } else if ia >= a.len() {
        (2, 0)
    } else if a[ia] != b[ib] {
        (3, 0)
    } else {
        let r = first_event(a, b, ia + 1, ib + 1, (n - 1) as nat);
        (r.0, r.1 + 1)
    }
}

/// One chunk of the comparison: `(0, ..)` the end, `(1, ..)` the initial text ended first,
/// `(2, bit, na, nb)` a bit and where the next chunk starts.
pub open spec fn reveal_step(a: Seq<char>, b: Seq<char>, ia: int, ib: int, f: nat) -> (u8, u8, int, int) {
    let e1 = first_event(a, b, ia, ib, f);
    if e1.0 == 1 {
        (0, 0, ia, ib)
    } else if e1.0 == 2 {
        (1, 0, ia, ib)
    } else if e1.0 == 0 {
        (2, 0, ia + f, ib + f)
    } else {
        let j = e1.1 as int;
        let e2 = first_event(a, b, ia + j + 1, ib + j + 2, (f - j) as nat);
        if e2.0 == 2 {
            (1, 0, ia, ib)
        } else if e2.0 == 0 {
            (2, 1, ia + f + 1, ib + f + 2)
        } else {
            (0, 0, ia, ib)
        }
    }
}

/// The bits that a modified text `b` carries against its initial text `a`, from `ia` and `ib`;
/// `Err` when the initial text ends before the modified one.
pub open spec fn reveal_bits(a: Seq<char>, b: Seq<char>, ia: int, ib: int, f: nat) -> std::result::Result<Seq<u8>, ()>
    decreases a.len() - ia,
{
    let st = reveal_step(a, b, ia, ib, f);
    if st.0 == 0 {
        Ok(Seq::empty())
    } else if st.0 == 1 {
        Err(())
    } else if ia < st.2 <= a.len() {
        match reveal_bits(a, b, st.2, st.3, f) {
            Ok(r) => Ok(seq![st.1] + r),
            Err(e) => Err(e),
        }
    } else {
        Ok(Seq::empty())
    }
}

/// The comparison of `n` characters, as [`first_event`] tells it.
fn first_event_exec(a: &Vec<char>, b: &Vec<char>, ia: usize, ib: usize, n: usize) -> (r: (u8, usize))
    requires
        ia <= a@.len(),
        ib <= b@.len(),
    ensures
        r.0 == first_event(a@, b@, ia as int, ib as int, n as nat).0,
        r.1 == first_event(a@, b@, ia as int, ib as int, n as nat).1,
        r.1 <= n,
        r.0 <= 3,
        r.0 == 0 ==> r.1 == n,
        r.0 != 0 ==> r.1 < n,
        r.0 == 0 || r.0 == 3 ==> ia + r.1 + (if r.0 == 3 { 1int } else { 0 }) <= a@.len() && ib + r.1 + (if r.0 == 3 { 1int } else { 0 }) <= b@.len(),
    decreases n,
{
    if n == 0 {
        (0, 0)
    } else if ib >= b.len() {
        (1, 0)
    } else if ia >= a.len() {
        (2, 0)
    } else if a[ia] != b[ib] {
        (3, 0)
    } else {
        let r = first_event_exec(a, b, ia + 1, ib + 1, n - 1);
        (r.0, r.1 + 1)
    }
}

/// Tells what a typo of a doubled character is.
pub trait RepeatTypo {
    /// The character put between `cur` and `next` when `cur` is doubled: never `next`.
    fn next_typo(&mut self, cur: char, next: char) -> (r: char)
        ensures
            r != next;
}

/// Doubles a character, or puts one of two fixed characters between two equal ones.
pub struct RepeatConstTypo {
    a: char,
    b: char,
}

impl RepeatConstTypo {
    #[verifier::type_invariant]
    spec fn inv(self) -> bool {
        self.a != self.b
    }

    pub closed spec fn first(&self) -> char {
        self.a
    }

    pub closed spec fn second(&self) -> char {
        self.b
    }

    pub fn new(a: char, b: char) -> (r: Self)
        requires
            a != b,
        ensures
            r.first() == a && r.second() == b,
    {
        Self { a, b }
    }
}

impl RepeatTypo for RepeatConstTypo {
    fn next_typo(&mut self, cur: char, next: char) -> (r: char)
        ensures
            r == (if cur == next { if old(self).first() == next { old(self).second() } else { old(self).first() } } else { cur }),
    {
        proof { use_type_invariant(&*self); }
        if cur == next {
            if self.a == next { self.b } else { self.a }
        } else {
            cur
        }
    }
}

/// Reveals what [`RepeatCharHider`] hid, from the initial and the modified text.
pub struct RepeatCharRevealer {
    pub initial: String,
    pub modified: String,
    /// Characters per bit (5 or more).
    pub bit_freq: usize,
    pub with_header: bool,
}

impl RepeatCharRevealer {
    /// The hidden bytes: the bits of [`reveal_bits`] gathered into bytes, lowest bit first.
    pub fn reveal_msg(self) -> (r: Result<Vec<u8>>)
        requires
            self.bit_freq >= 1,
            reveal_bits(self.initial@, self.modified@, 0, 0, self.bit_freq as nat) matches Ok(bits)
                ==> feed((0u8, 0u8, Seq::<u8>::empty()), bits, 1).1 == 0,
        ensures
            match reveal_bits(self.initial@, self.modified@, 0, 0, self.bit_freq as nat) {
                Ok(bits) => r matches Ok(v) && v@ == feed((0u8, 0u8, Seq::<u8>::empty()), bits, 1).2,
                Err(_) => r == Err::<Vec<u8>, Error>(Error::InconsistentInitText),
            },
    {
        match self.reveal_parts() {
            Ok((v, _)) => Ok(v),
            Err(e) => Err(e),
        }
    }

    /// As [`Self::reveal_msg`], for any texts: when the revealed bits do not make whole bytes
    /// (the texts do not come from [`RepeatCharHider::hide_msg`]), the error says so.
    pub fn reveal_msg_checked(self) -> (r: Result<Vec<u8>>)
        requires
            self.bit_freq >= 1,
        ensures
            match reveal_bits(self.initial@, self.modified@, 0, 0, self.bit_freq as nat) {
                Ok(bits) => {
                    let st = feed((0u8, 0u8, Seq::<u8>::empty()), bits, 1);
                    if st.1 == 0 {
                        r matches Ok(v) && v@ == st.2
                    } else {
                        r matches Err(Error::Other(m)) && m@ == "The revealed bits do not make whole bytes"@
                    }
                },
                Err(_) => r == Err::<Vec<u8>, Error>(Error::InconsistentInitText),
            },
    {
        match self.reveal_parts() {
            Ok((v, n)) => {
                if n != 0 {
                    Err(Error::Other(String::from_str("The revealed bits do not make whole bytes")))
                } else {
                    Ok(v)
                }
            },
            Err(e) => Err(e),
        }
    }

    /// The bytes that the revealed bits make, and how many bits of a last byte are left over.
    fn reveal_parts(&self) -> (r: Result<(Vec<u8>, u8)>)
        requires
            self.bit_freq >= 1,
        ensures
            match reveal_bits(self.initial@, self.modified@, 0, 0, self.bit_freq as nat) {
                Ok(bits) => r matches Ok((v, n)) && v@ == feed((0u8, 0u8, Seq::<u8>::empty()), bits, 1).2
                    && n == feed((0u8, 0u8, Seq::<u8>::empty()), bits, 1).1,
                Err(_) => r == Err::<(Vec<u8>, u8), Error>(Error::InconsistentInitText),
            },
    {
        let a = chars_of(self.initial.as_str());
        let b = chars_of(self.modified.as_str());
        let f = self.bit_freq;
        let ghost fs = f as nat;
        let mut ret: Vec<u8> = Vec::new();
        let mut reader = ConstBytesReader::new(1);
        let alen = a.len();
        let blen = b.len();
        let mut ia: usize = 0;
        let mut ib: usize = 0;
        let ghost mut bits: Seq<u8> = Seq::empty();
        let ghost total = reveal_bits(a@, b@, 0, 0, fs);
        proof {
            assert(bits + Seq::<u8>::empty() =~= bits);
        }
        loop
            invariant
                ia <= a@.len(),
                ib <= b@.len(),
                alen == a@.len(),
                blen == b@.len(),
                f >= 1,
                fs == f,
                f == self.bit_freq,
                a@ == self.initial@,
                b@ == self.modified@,
                total == reveal_bits(a@, b@, 0, 0, fs),
                total == (match reveal_bits(a@, b@, ia as int, ib as int, fs) {
                    Ok(r) => Ok::<Seq<u8>, ()>(bits + r),
                    Err(e) => Err(e),
                }),
                (reader@.0, reader@.1, ret@) == feed((0u8, 0u8, Seq::<u8>::empty()), bits, 1),
                reader@.2 == 1,
                reader@.1 < 8,
            ensures
                total == Ok::<Seq<u8>, ()>(bits),
                ret@ == feed((0u8, 0u8, Seq::<u8>::empty()), bits, 1).2,
                reader@.1 == feed((0u8, 0u8, Seq::<u8>::empty()), bits, 1).1,
            decreases a@.len() - ia,
        {
            let (k1, j1) = first_event_exec(&a, &b, ia, ib, f);
            let ghost st = reveal_step(a@, b@, ia as int, ib as int, fs);
            if k1 == 1 {
                proof {
                    assert(reveal_bits(a@, b@, ia as int, ib as int, fs) == Ok::<Seq<u8>, ()>(Seq::empty()));
                    assert(bits + Seq::<u8>::empty() =~= bits);
                }
                break;
            }
            if k1 == 2 {
                assert(st.0 == 1);
                assert(reveal_bits(a@, b@, ia as int, ib as int, fs) == Err::<Seq<u8>, ()>(()));
                assert(total is Err);
                return Err(Error::InconsistentInitText);
            }
            let bit: u8;
            let na: usize;
            let nb: usize;
            if k1 == 0 {
                bit = 0;
                na = ia + f;
                nb = ib + f;
            } else {
                let sa = ia + j1 + 1;
                let sb = if j1 + 1 < blen - ib { ib + j1 + 2 } else { blen };
                proof {
                    if sb != ib + j1 + 2 {
                        assert(first_event(a@, b@, sa as int, sb as int, (f - j1) as nat) == first_event(a@, b@, sa as int, ib + j1 + 2, (f - j1) as nat));
                    }
                }
                let (k2, _j2) = first_event_exec(&a, &b, sa, sb, f - j1);
                if k2 == 2 {
                    assert(st.0 == 1);
                    assert(reveal_bits(a@, b@, ia as int, ib as int, fs) == Err::<Seq<u8>, ()>(()));
                    assert(total is Err);
                    return Err(Error::InconsistentInitText);
                }
                if k2 != 0 {
                    proof {
                        assert(reveal_bits(a@, b@, ia as int, ib as int, fs) == Ok::<Seq<u8>, ()>(Seq::empty()));
                        assert(bits + Seq::<u8>::empty() =~= bits);
                    }
                    break;
                }
                bit = 1;
                na = ia + f + 1;
                nb = ib + f + 2;
            }
            assert(st == (2u8, bit, na as int, nb as int));
            let ghost before = (reader@.0, reader@.1, ret@);
            if let Some(byte) = reader.try_take_next_le_byte(bit) {
                ret.push(byte);
            }
            proof {
                let bits2 = bits.push(bit);
                assert(bits2.drop_last() =~= bits);
                assert(feed((0u8, 0u8, Seq::<u8>::empty()), bits2, 1) == crate::reader::feed_step(before, bit, 1));
                match reveal_bits(a@, b@, na as int, nb as int, fs) {
                    Ok(r) => { assert(bits + (seq![bit] + r) =~= bits2 + r); }
                    Err(_) => {}
                }
                bits = bits2;
            }
            ia = na;
            ib = nb;
        }
        let left = reader.bits_taken();
        Ok((ret, left))
    }
}


/// Whether `n` characters of `a` from `ia` and of `b` from `ib` are the same.
pub open spec fn same(a: Seq<char>, b: Seq<char>, ia: int, ib: int, n: nat) -> bool {
    &&& 0 <= ia && 0 <= ib
    &&& ia + n <= a.len() && ib + n <= b.len()
    &&& a.subrange(ia, ia + n) == b.subrange(ib, ib + n)
}

/// Whether `b` from `ib` is the chunk of a `1` made from `a` from `ia`: `s + 1` characters
/// kept, a typo that differs from the next character, then `f - s` characters kept.
pub open spec fn chunk_one(a: Seq<char>, b: Seq<char>, ia: int, ib: int, s: int, f: nat) -> bool {
    &&& 0 <= s < f - 1
    &&& same(a, b, ia, ib, (s + 1) as nat)
    &&& ia + s + 1 < a.len() && ib + s + 1 < b.len()
    &&& a[ia + s + 1] != b[ib + s + 1]
    &&& same(a, b, ia + s + 1, ib + s + 2, (f - s) as nat)
}

/// Whether `b` from `ib` to `jb` carries `bits` against `a` from `ia` to `ja`, chunk by chunk.
pub open spec fn enc(a: Seq<char>, b: Seq<char>, ia: int, ib: int, bits: Seq<u8>, ja: int, jb: int, f: nat) -> bool
    decreases bits.len(),
{
    if bits.len() == 0 {
        ia == ja && ib == jb
    } else if bits[0] == 0 {
        same(a, b, ia, ib, f) && enc(a, b, ia + f, ib + f, bits.drop_first(), ja, jb, f)
    } else {
        bits[0] == 1 && (exists|s: int| chunk_one(a, b, ia, ib, s, f)) && enc(a, b, ia + f + 1, ib + f + 2, bits.drop_first(), ja, jb, f)
    }
}

/// The bits that come first, then the rest, or the error.
pub open spec fn prepend(bits: Seq<u8>, r: std::result::Result<Seq<u8>, ()>) -> std::result::Result<Seq<u8>, ()> {
    match r {
        Ok(x) => Ok(bits + x),
        Err(e) => Err(e),
    }
}

proof fn lemma_same_all(a: Seq<char>, b: Seq<char>, ia: int, ib: int, n: nat)
    requires
        same(a, b, ia, ib, n),
    ensures
        first_event(a, b, ia, ib, n) == (0u8, n),
    decreases n,
{
    if n > 0 {
        assert(a[ia] == a.subrange(ia, ia + n)[0]);
        assert(b[ib] == b.subrange(ib, ib + n)[0]);
        lemma_same_shift(a, b, ia, ib, n, 1);
        lemma_same_all(a, b, ia + 1, ib + 1, (n - 1) as nat);
    }
}

proof fn lemma_same_then(a: Seq<char>, b: Seq<char>, ia: int, ib: int, d: nat, n: nat, kind: u8)
    requires
        same(a, b, ia, ib, d),
        d < n,
        kind == 1 ==> ib + d == b.len(),
        kind == 3 ==> ib + d < b.len() && ia + d < a.len() && a[ia + d] != b[ib + d],
        kind == 1 || kind == 3,
    ensures
        first_event(a, b, ia, ib, n) == (kind, d),
    decreases d,
{
    if d > 0 {
        assert(a[ia] == a.subrange(ia, ia + d)[0]);
        assert(b[ib] == b.subrange(ib, ib + d)[0]);
        lemma_same_shift(a, b, ia, ib, d, 1);
        lemma_same_then(a, b, ia + 1, ib + 1, (d - 1) as nat, (n - 1) as nat, kind);
    }
}

proof fn lemma_same_shift(a: Seq<char>, b: Seq<char>, ia: int, ib: int, n: nat, k: nat)
    requires
        same(a, b, ia, ib, n),
        k <= n,
    ensures
        same(a, b, ia + k, ib + k, (n - k) as nat),
{
    assert(a.subrange(ia + k, ia + n) =~= a.subrange(ia, ia + n).subrange(k as int, n as int));
    assert(b.subrange(ib + k, ib + n) =~= b.subrange(ib, ib + n).subrange(k as int, n as int));
}

proof fn lemma_same_extend(a: Seq<char>, b: Seq<char>, extra: Seq<char>, ia: int, ib: int, n: nat)
    requires
        same(a, b, ia, ib, n),
    ensures
        same(a, b + extra, ia, ib, n),
{
    assert((b + extra).subrange(ib, ib + n) =~= b.subrange(ib, ib + n));
}

proof fn lemma_enc_extend(a: Seq<char>, b: Seq<char>, extra: Seq<char>, ia: int, ib: int, bits: Seq<u8>, ja: int, jb: int, f: nat)
    requires
        enc(a, b, ia, ib, bits, ja, jb, f),
    ensures
        enc(a, b + extra, ia, ib, bits, ja, jb, f),
    decreases bits.len(),
{
    if bits.len() > 0 {
        if bits[0] == 0 {
            lemma_same_extend(a, b, extra, ia, ib, f);
            lemma_enc_extend(a, b, extra, ia + f, ib + f, bits.drop_first(), ja, jb, f);
        } else {
            let s = choose|s: int| chunk_one(a, b, ia, ib, s, f);
            lemma_same_extend(a, b, extra, ia, ib, (s + 1) as nat);
            lemma_same_extend(a, b, extra, ia + s + 1, ib + s + 2, (f - s) as nat);
            assert((b + extra)[ib + s + 1] == b[ib + s + 1]);
            assert(chunk_one(a, b + extra, ia, ib, s, f));
            lemma_enc_extend(a, b, extra, ia + f + 1, ib + f + 2, bits.drop_first(), ja, jb, f);
        }
    }
}

proof fn lemma_enc_append(a: Seq<char>, b: Seq<char>, ia: int, ib: int, bits: Seq<u8>, ja: int, jb: int, f: nat, x: u8, ka: int, kb: int)
    requires
        enc(a, b, ia, ib, bits, ja, jb, f),
        enc(a, b, ja, jb, seq![x], ka, kb, f),
    ensures
        enc(a, b, ia, ib, bits.push(x), ka, kb, f),
    decreases bits.len(),
{
    if bits.len() == 0 {
        assert(bits.push(x) =~= seq![x]);
    } else {
        assert(bits.push(x).drop_first() =~= bits.drop_first().push(x));
        assert(bits.push(x)[0] == bits[0]);
        if bits[0] == 0 {
            lemma_enc_append(a, b, ia + f, ib + f, bits.drop_first(), ja, jb, f, x, ka, kb);
        } else {
            lemma_enc_append(a, b, ia + f + 1, ib + f + 2, bits.drop_first(), ja, jb, f, x, ka, kb);
        }
    }
}

/// What is encoded chunk by chunk is revealed chunk by chunk.
proof fn lemma_enc_reveal(a: Seq<char>, b: Seq<char>, ia: int, ib: int, bits: Seq<u8>, ja: int, jb: int, f: nat)
    requires
        enc(a, b, ia, ib, bits, ja, jb, f),
        f >= 1,
        0 <= ia && 0 <= ib,
    ensures
        reveal_bits(a, b, ia, ib, f) == prepend(bits, reveal_bits(a, b, ja, jb, f)),
    decreases bits.len(),
{
    if bits.len() == 0 {
        match reveal_bits(a, b, ja, jb, f) {
            Ok(x) => { assert(bits + x =~= x); }
            Err(_) => {}
        }
    } else {
        let rest = bits.drop_first();
        if bits[0] == 0 {
            lemma_same_all(a, b, ia, ib, f);
            assert(reveal_step(a, b, ia, ib, f) == (2u8, 0u8, ia + f, ib + f));
            lemma_enc_reveal(a, b, ia + f, ib + f, rest, ja, jb, f);
        } else {
            let s = choose|s: int| chunk_one(a, b, ia, ib, s, f);
            lemma_same_then(a, b, ia, ib, (s + 1) as nat, f, 3);
            lemma_same_shift(a, b, ia + s + 1, ib + s + 2, (f - s) as nat, 1);
            lemma_same_all(a, b, ia + s + 2, ib + s + 3, (f - s - 1) as nat);
            assert(reveal_step(a, b, ia, ib, f) == (2u8, 1u8, ia + f + 1, ib + f + 2));
            lemma_enc_reveal(a, b, ia + f + 1, ib + f + 2, rest, ja, jb, f);
        }
        match reveal_bits(a, b, ja, jb, f) {
            Ok(x) => { assert(seq![bits[0]] + (rest + x) =~= bits + x); }
            Err(_) => {}
        }
    }
}

/// Copies up to `n` characters of `a` from `pos` to `ret`; tells whether all `n` were there.
fn skip(a: &Vec<char>, pos: &mut usize, n: usize, ret: &mut String) -> (r: bool)
    requires
        *old(pos) <= a@.len(),
    ensures
        ({
            let k = if n <= a@.len() - *old(pos) { n as int } else { a@.len() - *old(pos) };
            &&& *final(pos) == *old(pos) + k
            &&& final(ret)@ == old(ret)@ + a@.subrange(*old(pos) as int, *old(pos) + k)
            &&& r == (k == n)
        }),
{
    let p0 = *pos;
    let mut i: usize = 0;
    while i < n
        invariant
            p0 <= *pos <= a@.len(),
            *pos == p0 + i,
            i <= n,
            p0 == *old(pos),
            ret@ == old(ret)@ + a@.subrange(p0 as int, *pos as int),
        decreases n - i,
    {
        if *pos >= a.len() {
            return false;
        }
        string_push(ret, a[*pos]);
        *pos = *pos + 1;
        i = i + 1;
        assert(ret@ =~= old(ret)@ + a@.subrange(p0 as int, *pos as int));
    }
    true
}

/// How many characters of the initial text the bits take: `f` for a `0`, `f + 1` for a `1`.
pub open spec fn text_needed(bits: Seq<u8>, f: nat) -> nat
    decreases bits.len(),
{
    if bits.len() == 0 { 0 } else { (if bits[0] == 0 { f } else { f + 1 }) + text_needed(bits.drop_first(), f) }
}

/// The hidden bits took exactly the characters that they need.
proof fn lemma_enc_needed(a: Seq<char>, b: Seq<char>, ia: int, ib: int, bits: Seq<u8>, ja: int, jb: int, f: nat)
    requires
        enc(a, b, ia, ib, bits, ja, jb, f),
    ensures
        ja == ia + text_needed(bits, f),
    decreases bits.len(),
{
    if bits.len() > 0 {
        if bits[0] == 0 {
            lemma_enc_needed(a, b, ia + f, ib + f, bits.drop_first(), ja, jb, f);
        } else {
            lemma_enc_needed(a, b, ia + f + 1, ib + f + 2, bits.drop_first(), ja, jb, f);
        }
    }
}

/// One more bit takes its characters after those of the bits before it.
proof fn lemma_needed_push(bits: Seq<u8>, x: u8, f: nat)
    ensures
        text_needed(bits.push(x), f) == text_needed(bits, f) + (if x == 0 { f } else { f + 1 }),
    decreases bits.len(),
{
    if bits.len() > 0 {
        lemma_needed_push(bits.drop_first(), x, f);
        assert(bits.push(x).drop_first() =~= bits.drop_first().push(x));
        assert(bits.push(x)[0] == bits[0]);
    } else {
        assert(bits.push(x).drop_first() =~= Seq::<u8>::empty());
        assert(bits.push(x)[0] == x);
        assert(text_needed(Seq::<u8>::empty(), f) == 0);
    }
}

/// More bits of the message need at least as many characters.
proof fn lemma_needed_mono(msg: Seq<u8>, i: nat, n: nat, f: nat)
    requires
        i <= n,
    ensures
        text_needed(stream_prefix(msg, 1, i), f) <= text_needed(stream_prefix(msg, 1, n), f),
    decreases n - i,
{
    if i < n {
        lemma_needed_mono(msg, i, (n - 1) as nat, f);
        assert(stream_prefix(msg, 1, n) =~= stream_prefix(msg, 1, (n - 1) as nat).push(stream_chunk(msg, 1, (n - 1) as nat)));
        lemma_needed_push(stream_prefix(msg, 1, (n - 1) as nat), stream_chunk(msg, 1, (n - 1) as nat), f);
    }
}

/// The characters that carry one bit from `a[p..]`: `f` of them for a `0`; for a `1`, `s + 1`
/// of them, the typo `t`, then the rest of the `f + 1`.
pub open spec fn chunk_text(a: Seq<char>, p: int, x: u8, s: int, t: char, f: nat) -> Seq<char> {
    if x == 0 {
        a.subrange(p, p + f)
    } else {
        a.subrange(p, p + s + 1) + seq![t] + a.subrange(p + s + 1, p + f + 1)
    }
}

/// The characters that carry `bits` from the start of `a`: the `i`-th bit has the typo place
/// `ss[i]` and the typo `ts[i]` when it is a `1`.
pub open spec fn bits_text(a: Seq<char>, bits: Seq<u8>, ss: Seq<usize>, ts: Seq<char>, f: nat) -> Seq<char>
    decreases bits.len(),
{
    if bits.len() == 0 {
        Seq::empty()
    } else {
        let k = bits.len() - 1;
        bits_text(a, bits.drop_last(), ss, ts.drop_last(), f)
            + chunk_text(a, text_needed(bits.drop_last(), f) as int, bits[k], ss[k] as int, ts[k], f)
    }
}

/// The whole text that hides `msg` in `a`, with the typo places `ss` (one per bit) and `e`
/// (the end), and the typos `ts`, `t1`, `t2`.
pub open spec fn hidden_text(a: Seq<char>, msg: Seq<u8>, f: nat, ss: Seq<usize>, ts: Seq<char>, e: int, t1: char, t2: char) -> Seq<char> {
    let bits = stream_prefix(msg, 1, stream_len(msg, 1));
    bits_text(a, bits, ss, ts, f) + end_text(a, text_needed(bits, f) as int, e, f - 3, t1, t2)
}

/// Whether `out` is the text that hides `msg` in `a` with the typo places `ss` and `e`, for
/// some typos.
pub open spec fn hides_with(a: Seq<char>, msg: Seq<u8>, f: nat, ss: Seq<usize>, e: int, out: Seq<char>) -> bool {
    exists|ts: Seq<char>, t1: char, t2: char| ts.len() == stream_len(msg, 1)
        && out == #[trigger] hidden_text(a, msg, f, ss, ts, e, t1, t2)
}

/// Typo places that the hider can draw: one per bit, each below `f - 1`, and one below `f - 4`
/// for the end.
pub open spec fn valid_draws(msg: Seq<u8>, f: nat, ss: Seq<usize>, e: int) -> bool {
    &&& ss.len() == stream_len(msg, 1)
    &&& forall|i: int| 0 <= i < ss.len() ==> ss[i] < f - 1
    &&& 0 <= e < f - 4
}

/// Hides a message in a text: each bit is a chunk of `bit_freq` characters, a `1` with one
/// character doubled (or a typo put after it) at a random place.
pub struct RepeatCharHider<Typo> {
    pub initial: String,
    /// Characters per bit (5 or more).
    pub bit_freq: usize,
    pub msg: Vec<u8>,
    pub typo: Typo,
}

impl<Typo: RepeatTypo> RepeatCharHider<Typo> {
    pub fn new_ref(initial: &str, msg: &[u8], bit_freq: usize, typo: Typo) -> (r: Self)
        ensures
            r.initial@ == initial@,
            r.msg@ == msg@,
            r.bit_freq == bit_freq,
            r.typo == typo,
    {
        Self { initial: String::from_str(initial), bit_freq, msg: slice_to_vec(msg), typo }
    }

    pub fn new(initial: String, msg: &[u8], bit_freq: usize, typo: Typo) -> (r: Self)
        ensures
            r.initial@ == initial@,
            r.msg@ == msg@,
            r.bit_freq == bit_freq,
            r.typo == typo,
    {
        Self { initial, bit_freq, msg: slice_to_vec(msg), typo }
    }

    /// The text with the message hidden in it, at typo places drawn at random.
    /// [`RepeatCharRevealer::reveal_msg`] on the initial text and this one gives the message back.
    pub fn hide_msg(self) -> (r: Result<String>)
        requires
            self.bit_freq >= 5,
            self.msg@.len() < usize::MAX,
        ensures
            r matches Ok(out) ==> exists|ss: Seq<usize>, e: int| valid_draws(self.msg@, self.bit_freq as nat, ss, e)
                && #[trigger] hides_with(self.initial@, self.msg@, self.bit_freq as nat, ss, e, out@),
            r matches Ok(out) ==> reveal_bits(self.initial@, out@, 0, 0, self.bit_freq as nat) matches Ok(bits)
                && feed((0u8, 0u8, Seq::<u8>::empty()), bits, 1) == (0u8, 0u8, self.msg@),
            r is Ok <==> self.initial@.len() >= text_needed(stream_prefix(self.msg@, 1, stream_len(self.msg@, 1)), self.bit_freq as nat),
            r is Err ==> exists|j: nat| #![trigger stream_prefix(self.msg@, 1, j)]
                j < stream_len(self.msg@, 1)
                && text_needed(stream_prefix(self.msg@, 1, j), self.bit_freq as nat) <= self.initial@.len()
                    < text_needed(stream_prefix(self.msg@, 1, j + 1), self.bit_freq as nat)
                && r == Err::<String, Error>(Error::NotEnoughSizeOfInit(
                    if j + 1 == stream_len(self.msg@, 1) { 1usize } else { (self.msg@.len() - (j + 1) / 8) as usize })),
    {
        let f = self.bit_freq;
        let n = self.msg.len();
        let mut rng = thread_rng();
        let mut draws: Vec<usize> = Vec::new();
        let mut i: usize = 0;
        while i < n
            invariant
                i <= n,
                n == self.msg@.len(),
                f == self.bit_freq,
                f >= 5,
                draws@.len() == 8 * i,
                forall|k: int| 0 <= k < draws@.len() ==> draws@[k] < f - 1,
            decreases n - i,
        {
            let mut j: usize = 0;
            while j < 8
                invariant
                    j <= 8,
                    f >= 5,
                    draws@.len() == 8 * i + j,
                    forall|k: int| 0 <= k < draws@.len() ==> draws@[k] < f - 1,
                decreases 8 - j,
            {
                let d = random_range_u64(&mut rng, 0..(f - 1) as u64) as usize;
                draws.push(d);
                j = j + 1;
            }
            i = i + 1;
        }
        let e = random_range_u64(&mut rng, 0..(f - 4) as u64) as usize;
        proof {
            assert(crate::bits::chunks_per_byte(1) == 8);
        }
        let r = self.hide_msg_with(&draws, e);
        proof {
            if r is Ok {
                let out = r->Ok_0;
                assert(valid_draws(self.msg@, self.bit_freq as nat, draws@, e as int));
                assert(hides_with(self.initial@, self.msg@, self.bit_freq as nat, draws@, e as int, out@));
            }
        }
        r
    }

    /// The text with the message hidden in it, at the given typo places: `draws[i]` for the
    /// `i`-th bit (used when it is a `1`), `end_draw` for the end.
    pub fn hide_msg_with(self, draws: &Vec<usize>, end_draw: usize) -> (r: Result<String>)
        requires
            self.bit_freq >= 5,
            self.msg@.len() < usize::MAX,
            valid_draws(self.msg@, self.bit_freq as nat, draws@, end_draw as int),
        ensures
            r matches Ok(out) ==> hides_with(self.initial@, self.msg@, self.bit_freq as nat, draws@, end_draw as int, out@),
            r matches Ok(out) ==> reveal_bits(self.initial@, out@, 0, 0, self.bit_freq as nat) matches Ok(bits)
                && feed((0u8, 0u8, Seq::<u8>::empty()), bits, 1) == (0u8, 0u8, self.msg@),
            r is Ok <==> self.initial@.len() >= text_needed(stream_prefix(self.msg@, 1, stream_len(self.msg@, 1)), self.bit_freq as nat),
            r is Err ==> exists|j: nat| #![trigger stream_prefix(self.msg@, 1, j)]
                j < stream_len(self.msg@, 1)
                && text_needed(stream_prefix(self.msg@, 1, j), self.bit_freq as nat) <= self.initial@.len()
                    < text_needed(stream_prefix(self.msg@, 1, j + 1), self.bit_freq as nat)
                && r == Err::<String, Error>(Error::NotEnoughSizeOfInit(
                    if j + 1 == stream_len(self.msg@, 1) { 1usize } else { (self.msg@.len() - (j + 1) / 8) as usize })),
    {
        let f = self.bit_freq;
        let ghost fs = f as nat;
        let a = chars_of(self.initial.as_str());
        let alen = a.len();
        let mut typo = self.typo;
        let mut ret = String::new();
        let mut pos: usize = 0;
        let ghost msg = self.msg@;
        let mut bit_reader = IterByteWriter::new(self.msg, 1);
        let mut k: usize = 0;
        let dl = draws.len();
        let ghost mut ts: Seq<char> = Seq::empty();
        proof {
            bit_reader.lemma_wf();
            assert(stream_prefix(msg, 1, 0) =~= Seq::<u8>::empty());
        }
        while !bit_reader.is_done()
            invariant
                k == bit_reader.emitted(),
                dl == draws@.len(),
                k <= stream_len(msg, 1),
                valid_draws(msg, fs, draws@, end_draw as int),
                ts.len() == k,
                ret@ == bits_text(a@, stream_prefix(msg, 1, bit_reader.emitted()), draws@, ts, fs),
                bit_reader.wf(),
                bit_reader.data() == msg,
                bit_reader.bits() == 1,
                msg.len() < usize::MAX,
                f == self.bit_freq,
                fs == f,
                f >= 5,
                alen == a@.len(),
                a@ == self.initial@,
                pos <= a@.len(),
                enc(a@, ret@, 0, 0, stream_prefix(msg, 1, bit_reader.emitted()), pos as int, ret@.len() as int, fs),
                pos == text_needed(stream_prefix(msg, 1, bit_reader.emitted()), fs),
                msg == self.msg@,
            decreases stream_len(msg, 1) - bit_reader.emitted(),
        {
            let ghost i = bit_reader.emitted();
            let ghost bits = stream_prefix(msg, 1, i);
            let ghost b0 = ret@;
            let ghost p0 = pos;
            proof {
                bit_reader.lemma_wf();
                crate::bits::lemma_stream_chunk_small(msg, 1, i);
            }
            let (x, _last) = bit_reader.write_bits();
            let d = draws[k];
            k = k + 1;
            let ghost mut t: char = 'a';
            proof {
                assert(stream_prefix(msg, 1, i + 1) =~= bits.push(x));
                assert(x <= 1) by {
                    assert(crate::bits::low_mask(1) == 1u8) by (bit_vector);
                }
            }
            proof {
                lemma_needed_push(bits, x, fs);
            }
            if x > 0 {
                if write_bit_1(&mut ret, d, &a, &mut pos, &mut typo, f) {
                    proof {
                        lemma_needed_mono(msg, i + 1, stream_len(msg, 1), fs);
                        assert(alen < text_needed(stream_prefix(msg, 1, i + 1), fs));
                    }
                    let rest = bit_reader.take_iter();
                    let r = Err(Error::NotEnoughSizeOfInit(rest.len() + 1));
                    proof {
                        assert(rest@.len() + 1 == (if i + 1 == stream_len(msg, 1) { 1nat } else { (msg.len() - (i + 1) / 8) as nat }));
                        assert(text_needed(stream_prefix(msg, 1, i), fs) <= alen);
                        assert(self.initial@.len() < text_needed(stream_prefix(self.msg@, 1, stream_len(self.msg@, 1)), self.bit_freq as nat));
                    }
                    return r;
                }
                proof {
                    let ia = p0 as int;
                    let ib = b0.len() as int;
                    assert(ret@ =~= b0 + (ret@.subrange(ib, ret@.len() as int)));
                    lemma_enc_extend(a@, b0, ret@.subrange(ib, ret@.len() as int), 0, 0, bits, ia, ib, fs);
                    assert(seq![1u8].drop_first() =~= Seq::<u8>::empty());
                    assert(enc(a@, ret@, ia + f + 1, ib + f + 2, Seq::<u8>::empty(), pos as int, ret@.len() as int, fs));
                    assert(enc(a@, ret@, ia, ib, seq![1u8], pos as int, ret@.len() as int, fs));
                    lemma_enc_append(a@, ret@, 0, 0, bits, ia, ib, fs, 1u8, pos as int, ret@.len() as int);
                    t = choose|t: char| ret@ == b0 + #[trigger] chunk_text(a@, ia, 1, d as int, t, fs);
                }
            } else {
                if !skip(&a, &mut pos, f, &mut ret) {
                    proof {
                        lemma_needed_mono(msg, i + 1, stream_len(msg, 1), fs);
                        assert(alen < text_needed(stream_prefix(msg, 1, i + 1), fs));
                    }
                    let rest = bit_reader.take_iter();
                    let r = Err(Error::NotEnoughSizeOfInit(rest.len() + 1));
                    proof {
                        assert(rest@.len() + 1 == (if i + 1 == stream_len(msg, 1) { 1nat } else { (msg.len() - (i + 1) / 8) as nat }));
                        assert(text_needed(stream_prefix(msg, 1, i), fs) <= alen);
                        assert(self.initial@.len() < text_needed(stream_prefix(self.msg@, 1, stream_len(self.msg@, 1)), self.bit_freq as nat));
                    }
                    return r;
                }
                proof {
                    let ia = p0 as int;
                    let ib = b0.len() as int;
                    assert(ret@ =~= b0 + (ret@.subrange(ib, ret@.len() as int)));
                    lemma_enc_extend(a@, b0, ret@.subrange(ib, ret@.len() as int), 0, 0, bits, ia, ib, fs);
                    assert(a@.subrange(ia, ia + f) =~= ret@.subrange(ib, ib + f));
                    assert(same(a@, ret@, ia, ib, fs));
                    assert(seq![0u8].drop_first() =~= Seq::<u8>::empty());
                    assert(enc(a@, ret@, ia + f, ib + f, Seq::<u8>::empty(), pos as int, ret@.len() as int, fs));
                    assert(enc(a@, ret@, ia, ib, seq![0u8], pos as int, ret@.len() as int, fs));
                    lemma_enc_append(a@, ret@, 0, 0, bits, ia, ib, fs, 0u8, pos as int, ret@.len() as int);
                }
            }
            proof {
                let ts2 = ts.push(t);
                let bits2 = bits.push(x);
                assert(bits2.drop_last() =~= bits);
                assert(ts2.drop_last() =~= ts);
                assert(ret@ =~= b0 + chunk_text(a@, p0 as int, x, d as int, t, fs));
                assert(bits_text(a@, bits2, draws@, ts2, fs) == b0 + chunk_text(a@, p0 as int, x, d as int, t, fs));
                ts = ts2;
            }
        }
        let ghost ja = pos as int;
        let ghost jb = ret@.len() as int;
        let ghost bits = stream_prefix(msg, 1, stream_len(msg, 1));
        assert(pos == text_needed(bits, fs));
        let ghost b_mid = ret@;
        write_end(&mut ret, end_draw, &a, &mut pos, &mut typo, f);
        proof {
            let (t1, t2) = choose|t1: char, t2: char| ret@ == b_mid + #[trigger] end_text(a@, ja, end_draw as int, f - 3, t1, t2);
            assert(ret@ == hidden_text(a@, msg, fs, draws@, ts, end_draw as int, t1, t2));
        }
        proof {
            let out = ret@;
            assert(out =~= b_mid + out.subrange(jb, out.len() as int));
            lemma_enc_extend(a@, b_mid, out.subrange(jb, out.len() as int), 0, 0, bits, ja, jb, fs);
            assert(reveal_bits(a@, out, ja, jb, fs) == Ok::<Seq<u8>, ()>(Seq::empty()));
            lemma_enc_reveal(a@, out, 0, 0, bits, ja, jb, fs);
            assert(bits + Seq::<u8>::empty() =~= bits);
            law_chunks_roundtrip(msg, 1);
        }
        Ok(ret)
    }
}

/// Where the first part of the end stops in `a`: `s` characters, one doubled with a typo
/// after it, and the rest of a chunk of `f2` (a lone last character is dropped).
pub open spec fn end_first_stop(a: Seq<char>, p: int, s: int, f2: int) -> int {
    let n = a.len() as int;
    if p + s > n {
        n
    } else if n - (p + s) >= 2 {
        if p + s + 2 + (f2 - s - 1) <= n { p + s + 2 + (f2 - s - 1) } else { n }
    } else if p + s < n {
        p + s + 1
    } else {
        p + s
    }
}

/// What the first part of the end writes, with the typo `t1`.
pub open spec fn end_first_text(a: Seq<char>, p: int, s: int, f2: int, t1: char) -> Seq<char> {
    let n = a.len() as int;
    if p + s > n {
        a.subrange(p, n)
    } else if n - (p + s) >= 2 {
        a.subrange(p, p + s + 1) + seq![t1] + a.subrange(p + s + 1, end_first_stop(a, p, s, f2))
    } else {
        a.subrange(p, p + s)
    }
}

/// What the end writes from `a[p..]`: the first part, then one more character doubled with
/// the typo `t2` after it (a lone last character is dropped), then the rest of the text.
pub open spec fn end_text(a: Seq<char>, p: int, s: int, f2: int, t1: char, t2: char) -> Seq<char> {
    let n = a.len() as int;
    let q = end_first_stop(a, p, s, f2);
    let second = if n - q >= 2 { seq![a[q], t2, a[q + 1]] } else { Seq::<char>::empty() };
    let q2 = if n - q >= 2 { q + 2 } else if q < n { q + 1 } else { q };
    end_first_text(a, p, s, f2, t1) + second + a.subrange(q2, n)
}

/// Ends the hidden bits: a short chunk with a typo early in it, and another typo right after,
/// then the rest of the text. Revealing stops there.
#[verifier::rlimit(100)]
#[verifier::spinoff_prover]
fn write_end<T: RepeatTypo>(ret: &mut String, s: usize, a: &Vec<char>, pos: &mut usize, typo: &mut T, f: usize)
    requires
        *old(pos) <= a@.len(),
        f >= 5,
        s < f - 4,
    ensures
        final(ret)@.len() >= old(ret)@.len(),
        final(ret)@.subrange(0, old(ret)@.len() as int) == old(ret)@,
        reveal_step(a@, final(ret)@, *old(pos) as int, old(ret)@.len() as int, f as nat).0 == 0,
        *final(pos) == a@.len(),
        exists|t1: char, t2: char|
            final(ret)@ == old(ret)@ + #[trigger] end_text(a@, *old(pos) as int, s as int, f - 3, t1, t2),
{
        // the end: one more typo early in a short chunk, and another right after it
        let ghost ja = *pos as int;
        let ghost jb = ret@.len() as int;
        let ghost b_mid = ret@;
        let ghost fs = f as nat;
        let alen = a.len();
        let f2 = f - 3;
        let ghost mut kind: int = 0;
        let ghost mut tt1: char = 'a';
        let ghost mut m1: int = 0;
        let ok1 = skip(a, pos, s, ret);
        let ghost rc = ret@.len() - jb;
        if ok1 {
            proof { kind = 1; }
            if alen - *pos >= 2 {
                let c = a[*pos];
                let nc = a[*pos + 1];
                *pos = *pos + 2;
                let t = typo.next_typo(c, nc);
                string_push(ret, c);
                string_push(ret, t);
                string_push(ret, nc);
                let ghost p2 = *pos;
                proof { kind = 2; tt1 = t; }
                let _ = skip(a, pos, f2 - s - 1, ret);
                proof { m1 = *pos - p2; }
            } else if *pos < alen {
                *pos = *pos + 1;
            }
        }
        let ghost b1 = ret@;
        let ghost p1 = *pos as int;
        assert(b1 == b_mid + end_first_text(a@, ja, s as int, f2 as int, tt1)
            && p1 == end_first_stop(a@, ja, s as int, f2 as int)) by {
            let n = a@.len() as int;
            let si = s as int;
            if ja + si > n {
                assert(b1 =~= b_mid + end_first_text(a@, ja, si, f2 as int, tt1));
            } else if n - (ja + si) >= 2 {
                assert(b1 =~= b_mid + end_first_text(a@, ja, si, f2 as int, tt1));
            } else {
                assert(b1 =~= b_mid + end_first_text(a@, ja, si, f2 as int, tt1));
            }
        }
        let ghost mut rep = false;
        let ghost mut tt2: char = 'a';
        if alen - *pos >= 2 {
            let c = a[*pos];
            let nc = a[*pos + 1];
            *pos = *pos + 2;
            let t = typo.next_typo(c, nc);
            string_push(ret, c);
            string_push(ret, t);
            string_push(ret, nc);
            proof { rep = true; tt2 = t; }
        } else if *pos < alen {
            *pos = *pos + 1;
        }
        let ghost b2 = ret@;
        let ghost p2 = *pos as int;
        let rest_n = alen - *pos;
        let _ = skip(a, pos, rest_n, ret);
        assert(ret@ == b_mid + end_text(a@, ja, s as int, f2 as int, tt1, tt2)) by {
            let n = a@.len() as int;
            let second = if n - p1 >= 2 { seq![a@[p1], tt2, a@[p1 + 1]] } else { Seq::<char>::empty() };
            assert(b2 =~= b1 + second);
            assert(ret@ =~= b2 + a@.subrange(p2, n));
            assert(ret@ =~= b_mid + end_text(a@, ja, s as int, f2 as int, tt1, tt2));
        }
        proof {
            let out = ret@;
            let al = a@.len() as int;
            assert(out.subrange(0, b1.len() as int) =~= b1);
            if kind == 0 || kind == 1 {
                let r = rc;
                assert(p1 == al);
                assert(out =~= b1);
                assert(b1 =~= b_mid + a@.subrange(ja, ja + r));
                assert(a@.subrange(ja, ja + r) =~= out.subrange(jb, jb + r));
                lemma_same_then(a@, out, ja, jb, r as nat, fs, 1);
            } else {
                assert(a@.subrange(ja, ja + s + 1) =~= out.subrange(jb, jb + s + 1));
                assert(out[jb + s + 1] == tt1);
                assert(a@[ja + s + 1] != tt1);
                lemma_same_then(a@, out, ja, jb, (s + 1) as nat, fs, 3);
                let m = m1;
                assert(a@.subrange(ja + s + 2, ja + s + 2 + m) =~= out.subrange(jb + s + 3, jb + s + 3 + m));
                if rep && m == f - s - 4 {
                    assert(out[jb + s + 3 + m] == a@[ja + s + 2 + m]);
                    assert(a@.subrange(ja + s + 2, ja + s + 2 + m + 1) =~= out.subrange(jb + s + 3, jb + s + 3 + m + 1));
                    assert(out[jb + s + 4 + m] == tt2);
                    lemma_same_then(a@, out, ja + s + 2, jb + s + 3, (m + 1) as nat, (fs - s - 1) as nat, 3);
                } else {
                    assert(p1 == al || !rep);
                    assert(out =~= b1);
                    lemma_same_then(a@, out, ja + s + 2, jb + s + 3, m as nat, (fs - s - 1) as nat, 1);
                }
            }
            assert(reveal_step(a@, out, ja, jb, fs).0 == 0);
        }
    assert(ret@.subrange(0, old(ret)@.len() as int) =~= old(ret)@);
}

/// Writes the chunk of a `1`: a few characters, one doubled (or followed by a typo), the rest
/// of the chunk. Tells whether the text ended first.
fn write_bit_1<T: RepeatTypo>(ret: &mut String, s: usize, a: &Vec<char>, pos: &mut usize, typo: &mut T, bit_freq: usize) -> (ended: bool)
    requires
        *old(pos) <= a@.len(),
        bit_freq >= 2,
        s < bit_freq - 1,
    ensures
        *final(pos) <= a@.len(),
        final(ret)@.len() >= old(ret)@.len(),
        final(ret)@.subrange(0, old(ret)@.len() as int) == old(ret)@,
        ended == (a@.len() - *old(pos) < bit_freq + 1),
        !ended ==> *final(pos) == *old(pos) + bit_freq + 1
            && final(ret)@.len() == old(ret)@.len() + bit_freq + 2
            && chunk_one(a@, final(ret)@, *old(pos) as int, old(ret)@.len() as int, s as int, bit_freq as nat)
            && exists|t: char| final(ret)@ == old(ret)@ + #[trigger] chunk_text(a@, *old(pos) as int, 1, s as int, t, bit_freq as nat),
{
    let f = bit_freq;
    let ghost p0 = *pos as int;
    let ghost b0 = ret@;
    let ghost ib = b0.len() as int;
    let alen = a.len();
    if !skip(a, pos, s, ret) {
        assert(ret@.subrange(0, ib) =~= b0);
        return true;
    }
    if alen - *pos < 2 {
        if *pos < alen {
            *pos = *pos + 1;
        }
        assert(ret@.subrange(0, ib) =~= b0);
        return true;
    }
    let c = a[*pos];
    let nc = a[*pos + 1];
    *pos = *pos + 2;
    let t = typo.next_typo(c, nc);
    string_push(ret, c);
    string_push(ret, t);
    string_push(ret, nc);
    if !skip(a, pos, f - s - 1, ret) {
        assert(ret@.subrange(0, ib) =~= b0);
        return true;
    }
    proof {
        let ia = p0;
        assert(ret@.subrange(0, ib) =~= b0);
        assert(ret@[ib + s + 1] == t);
        assert(a@.subrange(ia, ia + s + 1) =~= ret@.subrange(ib, ib + s + 1));
        assert(a@.subrange(ia + s + 1, ia + s + 1 + (f - s)) =~= ret@.subrange(ib + s + 2, ib + s + 2 + (f - s)));
        assert(chunk_one(a@, ret@, ia, ib, s as int, f as nat));
        assert(ret@ =~= b0 + chunk_text(a@, ia, 1, s as int, t, f as nat));
    }
    false
}

/// The bytes of a slice, in a new vector.
fn slice_to_vec(s: &[u8]) -> (r: Vec<u8>)
    ensures
        r@ == s@,
{
    let mut r: Vec<u8> = Vec::new();
    let mut i: usize = 0;
    while i < s.len()
        invariant
            i <= s@.len(),
            r@ == s@.subrange(0, i as int),
        decreases s@.len() - i,
    {
        r.push(s[i]);
        i = i + 1;
        assert(r@ =~= s@.subrange(0, i as int));
    }
    assert(s@.subrange(0, i as int) =~= s@);
    r
}

} // verus!
