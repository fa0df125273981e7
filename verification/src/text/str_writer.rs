//! Writing characters and small decimal numbers as UTF-8 bytes.

use vstd::prelude::*;
use vstd::utf8::encode_utf8;
use vstd::std_specs::iter::IteratorSpec;

verus! {

/// The ASCII byte of the decimal digit `d`.
pub open spec fn digit(d: int) -> u8 {
    (d + 48) as u8
}

/// The decimal digits of `n` without leading zeros (nothing at all for zero).
pub open spec fn dec(n: nat) -> Seq<u8>
    decreases n,
{
    if n == 0 { Seq::empty() } else { dec(n / 10).push(digit((n % 10) as int)) }
}

/// The UTF-8 bytes of the text of a `&str` or a `String`.
pub open spec fn utf8(s: Seq<char>) -> Seq<u8> {
    encode_utf8(s)
}

/// Encoding a concatenation encodes the parts one after the other.
pub proof fn lemma_encode_concat(a: Seq<char>, b: Seq<char>)
    ensures
        encode_utf8(a + b) == encode_utf8(a) + encode_utf8(b),
    decreases a.len(),
{
    if a.len() == 0 {
        assert(a + b =~= b);
        assert(encode_utf8(a) =~= Seq::<u8>::empty());
        assert(encode_utf8(a) + encode_utf8(b) =~= encode_utf8(b));
    } else {
        lemma_encode_concat(a.drop_first(), b);
        assert((a + b).drop_first() =~= a.drop_first() + b);
        assert((a + b)[0] == a[0]);
        assert(encode_utf8(a + b) =~= encode_utf8(a) + encode_utf8(b));
    }
}

/// An ASCII character is encoded as its own code.
pub proof fn lemma_encode_ascii(c: char)
    requires
        (c as u32) < 128,
    ensures
        encode_utf8(seq![c]) == seq![c as u8],
{
    let v = c as u32;
    assert(seq![c].drop_first() =~= Seq::<char>::empty());
    assert(encode_utf8(Seq::<char>::empty()) =~= Seq::<u8>::empty());
    assert((v & 0x7F) as u8 == v as u8) by (bit_vector) requires v < 128u32;
    assert(encode_utf8(seq![c]) =~= seq![c as u8]);
}

/// `char::encode_utf8`: writes the UTF-8 encoding of `ch` into `buf` and gives the
/// part of `buf` that holds it, as a `str` whose only character is `ch`.
#[verifier::external_body]
pub(crate) fn encode_char<'a>(ch: char, buf: &'a mut [u8; 4]) -> (r: &'a str)
    ensures
        r@ == seq![ch],
{
    ch.encode_utf8(buf)
}

/// `String::push`: appends one character.
#[verifier::external_body]
pub fn string_push(s: &mut String, ch: char)
    ensures
        final(s)@ == old(s)@.push(ch),
{
    s.push(ch)
}

/// Something that UTF-8 text can be written into.
pub trait WriteExt {
    /// The bytes written so far.
    spec fn written(&self) -> Seq<u8>;

    fn write_char(&mut self, ch: char)
        ensures
            final(self).written() == old(self).written() + encode_utf8(seq![ch]);

    fn write_str(&mut self, s: &str)
        ensures
            final(self).written() == old(self).written() + encode_utf8(s@);

    /// Writes the digit `n1`.
    fn write_n1z(&mut self, n1: u8)
        requires
            n1 <= 9,
        ensures
            final(self).written() == old(self).written() + seq![digit(n1 as int)],
    {
        let a = n1 + 48;
        proof { lemma_encode_ascii(a as char); }
        self.write_char(a as char);
    }

    /// Writes `n2` (at most 99) with two digits.
    fn write_n2z(&mut self, n2: u8)
        requires
            n2 <= 99,
        ensures
            final(self).written() == old(self).written() + seq![digit((n2 / 10) as int), digit((n2 % 10) as int)],
    {
        let a = n2 / 10 + 48;
        let b = n2 % 10 + 48;
        proof { lemma_encode_ascii(a as char); lemma_encode_ascii(b as char); }
        self.write_char(a as char);
        self.write_char(b as char);
        assert(final(self).written() =~= old(self).written() + seq![digit((n2 / 10) as int), digit((n2 % 10) as int)]);
    }

    /// Writes `n3` (at most 999) with three digits: `17` as `"017"`.
    fn write_n3z(&mut self, n3: u16)
        requires
            n3 <= 999,
        ensures
            final(self).written() == old(self).written() + seq![digit((n3 / 100) as int), digit(((n3 / 10) % 10) as int), digit((n3 % 10) as int)],
    {
        let a = ((n3 / 10) / 10) as u8 + 48;
        let b = ((n3 / 10) % 10) as u8 + 48;
        let c = (n3 % 10) as u8 + 48;
        proof { lemma_encode_ascii(a as char); lemma_encode_ascii(b as char); lemma_encode_ascii(c as char); }
        self.write_char(a as char);
        self.write_char(b as char);
        self.write_char(c as char);
        assert(final(self).written() =~= old(self).written() + seq![digit((n3 / 100) as int), digit(((n3 / 10) % 10) as int), digit((n3 % 10) as int)]);
    }

    /// Writes `n3` (at most 999) without leading zeros: `17` as `"17"`, `0` as `"0"`.
    fn write_n3(&mut self, n3: u16)
        requires
            n3 <= 999,
        ensures
            final(self).written() == old(self).written() + (if n3 == 0 { seq![digit(0)] } else { dec(n3 as nat) }),
    {
        self.write_n3e(n3);
        if n3 == 0 {
            proof { lemma_encode_ascii('0'); }
            self.write_char('0');
            assert(final(self).written() =~= old(self).written() + seq![digit(0)]);
        }
    }

    /// Writes `n3` (at most 999) without leading zeros, and nothing for `0`.
    fn write_n3e(&mut self, n3: u16)
        requires
            n3 <= 999,
        ensures
            final(self).written() == old(self).written() + dec(n3 as nat),
    {
        let a = ((n3 / 10) / 10) as u8;
        let b = ((n3 / 10) % 10) as u8;
        let c = (n3 % 10) as u8;
        let ghost w0 = self.written();
        if a != 0 {
            proof { lemma_encode_ascii((a + 48) as char); }
            self.write_char((a + 48) as char);
        }
        if a != 0 || b != 0 {
            proof { lemma_encode_ascii((b + 48) as char); }
            self.write_char((b + 48) as char);
        }
        if a != 0 || b != 0 || c != 0 {
            proof { lemma_encode_ascii((c + 48) as char); }
            self.write_char((c + 48) as char);
        }
        proof {
            let n = n3 as nat;
            assert(dec(0) =~= Seq::<u8>::empty());
            if a != 0 {
                assert(dec(n / 100) =~= seq![digit(a as int)]) by {
                    assert(dec((n / 100) / 10) =~= Seq::<u8>::empty());
                }
                assert((n / 10) / 10 == n / 100);
                assert(dec(n / 10) =~= seq![digit(a as int), digit(b as int)]);
                assert(dec(n) =~= seq![digit(a as int), digit(b as int), digit(c as int)]);
            } else if b != 0 {
                assert(dec(n / 10) =~= seq![digit(b as int)]) by {
                    assert(dec((n / 10) / 10) =~= Seq::<u8>::empty());
                }
                assert(dec(n) =~= seq![digit(b as int), digit(c as int)]);
            } else if c != 0 {
                assert(dec(n / 10) =~= Seq::<u8>::empty());
                assert(dec(n) =~= seq![digit(c as int)]);
            } else {
                assert(n == 0);
            }
            assert(self.written() =~= w0 + dec(n));
        }
    }
}

impl WriteExt for Vec<u8> {
    open spec fn written(&self) -> Seq<u8> {
        self@
    }

    fn write_char(&mut self, ch: char) {
        let mut buf = [0u8; 4];
        let s = encode_char(ch, &mut buf);
        let bytes = s.as_bytes();
        let mut i: usize = 0;
        let ghost w0 = self@;
        while i < bytes.len()
            invariant
                i <= bytes@.len(),
                bytes@ == encode_utf8(seq![ch]),
                self@ == w0 + bytes@.subrange(0, i as int),
            decreases bytes@.len() - i,
        {
            self.push(bytes[i]);
            i = i + 1;
            assert(self@ =~= w0 + bytes@.subrange(0, i as int));
        }
        assert(bytes@.subrange(0, i as int) =~= bytes@);
    }

    fn write_str(&mut self, s: &str) {
        let bytes = s.as_bytes();
        let mut i: usize = 0;
        let ghost w0 = self@;
        while i < bytes.len()
            invariant
                i <= bytes@.len(),
                bytes@ == encode_utf8(s@),
                self@ == w0 + bytes@.subrange(0, i as int),
            decreases bytes@.len() - i,
        {
            self.push(bytes[i]);
            i = i + 1;
            assert(self@ =~= w0 + bytes@.subrange(0, i as int));
        }
        assert(bytes@.subrange(0, i as int) =~= bytes@);
    }
}

/// Writes text into a `String`.
pub struct WriterFmt {
    w: String,
}

impl WriterFmt {
    /// The text written so far, the initial one included.
    pub closed spec fn text(&self) -> Seq<char> {
        self.w@
    }

    pub fn new(w: String) -> (r: Self)
        ensures
            r.text() == w@,
    {
        Self { w }
    }

    pub fn take_inner(self) -> (r: String)
        ensures
            r@ == self.text(),
    {
        self.w
    }

    pub fn as_ref(&self) -> (r: &String)
        ensures
            r@ == self.text(),
    {
        &self.w
    }

    /// Forgets the text written so far.
    pub fn clear(&mut self)
        ensures
            final(self).text() == Seq::<char>::empty(),
    {
        self.w = String::new();
    }
}

impl WriteExt for WriterFmt {
    open spec fn written(&self) -> Seq<u8> {
        encode_utf8(self.text())
    }

    fn write_char(&mut self, ch: char) {
        proof { lemma_encode_concat(self.w@, seq![ch]); }
        string_push(&mut self.w, ch);
        assert(self.w@ =~= old(self).w@ + seq![ch]);
    }

    fn write_str(&mut self, s: &str) {
        proof { lemma_encode_concat(self.w@, s@); }
        self.w.append(s);
    }
}


/// The characters of a text.
pub fn chars_of(s: &str) -> (r: Vec<char>)
    ensures
        r@ == s@,
{
    let mut it = s.chars();
    let mut r: Vec<char> = Vec::new();
    proof {
        broadcast use vstd::string::axiom_spec_iter;
    }
    assert(r@ + it.remaining() =~= s@);
    loop
        invariant
            r@ + it.remaining() == s@,
            it.obeys_prophetic_iter_laws(),
            it.decrease() is Some,
        decreases it.decrease()->0,
    {
        let ghost before = it.remaining();
        match it.next() {
            Some(c) => {
                r.push(c);
                assert(r@ + it.remaining() =~= s@);
            }
            None => {
                assert(r@ =~= s@);
                return r;
            }
        }
    }
}

} // verus!
