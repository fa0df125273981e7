//! A ring buffer over bytes that are read in order: read them one by one, or look ahead.

use vstd::prelude::*;
use vstd::utf8::{valid_utf8, decode_utf8, encode_utf8, encode_scalar, encode_utf8_first_scalar, encode_utf8_valid_utf8, encode_utf8_decode_utf8};
use crate::text::s3::ByteSrc;
use crate::text::str_writer::{encode_char, string_push};
use crate::error::{Error, Result};

verus! {

/// The index of the `j`-th element of a ring of `cap` cells that starts at `s`.
pub open spec fn ring(s: int, j: int, cap: int) -> int {
    if s + j < cap { s + j } else { s + j - cap }
}

/// The number of bytes held by a ring buffer with these bounds.
pub open spec fn ring_len(s: int, e: int, cap: int, empty: bool) -> int {
    if empty { 0 } else if e <= s { e + cap - s } else { e - s }
}


/// How many bytes the UTF-8 character that starts with `b` takes (`0`: `b` starts none).
pub open spec fn char_width(b: u8) -> nat {
    if b <= 0x7f { 1 } else if 0xc0 <= b <= 0xdf { 2 } else if 0xe0 <= b <= 0xef { 3 } else if 0xf0 <= b <= 0xf7 { 4 } else { 0 }
}

/// The next character of `rest`, if its bytes are valid UTF-8, and how many bytes reading it uses.
pub open spec fn next_char(rest: Seq<u8>) -> (Option<char>, nat) {
    if rest.len() == 0 {
        (None, 0)
    } else {
        let w = char_width(rest[0]);
        if w == 0 {
            (None, 1)
        } else if rest.len() < w {
            (None, rest.len())
        } else if valid_utf8(rest.subrange(0, w as int)) {
            (Some(decode_utf8(rest.subrange(0, w as int))[0]), w)
        } else {
            (None, w)
        }
    }
}

/// Reading a character from the bytes that writing it gives ([`WriteExt::write_char`]), whatever
/// bytes follow them, gives that character back and uses exactly its bytes.
pub proof fn law_read_char_after_write_char(c: char, tail: Seq<u8>)
    ensures
        next_char(encode_utf8(seq![c]) + tail) == (Some(c), encode_utf8(seq![c]).len()),
{
    let e = encode_utf8(seq![c]);
    assert(seq![c].drop_first() =~= Seq::<char>::empty());
    assert(encode_utf8(Seq::<char>::empty()) =~= Seq::<u8>::empty());
    assert(seq![c][0] == c);
    assert(e =~= encode_scalar(c as u32) + encode_utf8(Seq::<char>::empty()));
    assert(e =~= encode_scalar(c as u32));
    encode_utf8_first_scalar(seq![c]);
    encode_utf8_valid_utf8(seq![c]);
    encode_utf8_decode_utf8(seq![c]);
    let bytes = e + tail;
    assert(bytes[0] == e[0]);
    assert(char_width(bytes[0]) == e.len());
    assert(bytes.subrange(0, e.len() as int) =~= e);
}

/// Reading `k` characters from `rest`: the characters read, whether all were valid, and how
/// many bytes were used.
pub open spec fn read_chars(rest: Seq<u8>, k: nat) -> (Seq<char>, bool, nat)
    decreases k,
{
    if k == 0 {
        (Seq::<char>::empty(), true, 0)
    } else {
        let (c, u) = next_char(rest);
        match c {
            None => (Seq::<char>::empty(), false, u),
            Some(ch) => {
                let r = read_chars(rest.skip(u as int), (k - 1) as nat);
                (seq![ch] + r.0, r.1, u + r.2)
            },
        }
    }
}

/// Reading a character uses no more bytes than there are, and at least one when there is one.
pub proof fn lemma_next_char_len(rest: Seq<u8>)
    ensures
        next_char(rest).1 <= rest.len(),
        rest.len() > 0 ==> next_char(rest).1 >= 1,
{
}

/// Reading `k` characters uses no more bytes than there are.
pub proof fn lemma_read_chars_len(rest: Seq<u8>, k: nat)
    ensures
        read_chars(rest, k).2 <= rest.len(),
    decreases k,
{
    if k > 0 {
        lemma_next_char_len(rest);
        let u = next_char(rest).1;
        lemma_read_chars_len(rest.skip(u as int), (k - 1) as nat);
    }
}

/// Reading `k` characters is reading the first `i` and then the rest, from where those end.
pub proof fn lemma_read_chars_split(rest: Seq<u8>, i: nat, k: nat)
    requires
        i <= k,
        read_chars(rest, i).1,
    ensures
        ({
            let a = read_chars(rest, i);
            let b = read_chars(rest.skip(a.2 as int), (k - i) as nat);
            read_chars(rest, k) == (a.0 + b.0, b.1, a.2 + b.2)
        }),
    decreases i,
{
    if i == 0 {
        assert(rest.skip(0) =~= rest);
        assert(Seq::<char>::empty() + read_chars(rest, k).0 =~= read_chars(rest, k).0);
    } else {
        let (c, u) = next_char(rest);
        let ch = c.unwrap();
        lemma_next_char_len(rest);
        let r1 = read_chars(rest.skip(u as int), (i - 1) as nat);
        lemma_read_chars_split(rest.skip(u as int), (i - 1) as nat, (k - 1) as nat);
        lemma_read_chars_len(rest.skip(u as int), (i - 1) as nat);
        assert(rest.skip(u as int).skip(r1.2 as int) =~= rest.skip((u + r1.2) as int));
        let b = read_chars(rest.skip((u + r1.2) as int), (k - i) as nat);
        assert(seq![ch] + (r1.0 + b.0) =~= (seq![ch] + r1.0) + b.0);
    }
}

/// `std::str::from_utf8`: the text that bytes encode, when they are valid UTF-8.
/// Claimed as its documentation says: a text exactly for valid UTF-8, made of the characters
/// that the bytes encode.
#[verifier::external_body]
fn str_from_utf8(v: &[u8]) -> (r: Option<&str>)
    ensures
        r is Some <==> valid_utf8(v@),
        r matches Some(s) ==> s@ == decode_utf8(v@),
{
    std::str::from_utf8(v).ok()
}

/// Whether `s` starts with `p`.
pub open spec fn starts_with(s: Seq<u8>, p: Seq<u8>) -> bool {
    p.len() <= s.len() && s.subrange(0, p.len() as int) == p
}

/// What is left of `rest` after reading `j` characters from it.
pub open spec fn rest_after(rest: Seq<u8>, j: nat) -> Seq<u8> {
    rest.skip(read_chars(rest, j).2 as int)
}

/// Reading characters from `rest` until the next ones are `until` or nothing is left, as `k`
/// reads: the text `s0` became `s1`, the bytes `rest1` are left, and it succeeded when `ok`.
pub open spec fn until_outcome(rest: Seq<u8>, k: nat, until: char, ok: bool, s0: Seq<char>, s1: Seq<char>, rest1: Seq<u8>) -> bool {
    let rc = read_chars(rest, k);
    let enc = encode_utf8(seq![until]);
    &&& s1 == s0 + rc.0
    &&& rest1 == rest.skip(rc.2 as int)
    &&& ok ==> rc.1 && (starts_with(rest1, enc) || rest1.len() == 0)
    &&& !ok ==> !rc.1
    &&& forall|j: nat| j < k ==> !starts_with(#[trigger] rest_after(rest, j), enc)
}

/// Reading bytes with a look ahead, and characters made of them: what the text readers need
/// of their source.
pub trait PeakableReadExt {
    /// The bytes not read yet.
    spec fn rest(&self) -> Seq<u8>;

    /// Whether the reader is well formed.
    spec fn read_ok(&self) -> bool;

    /// How far ahead a byte can always be looked at.
    spec fn room(&self) -> nat;

    /// Whether everything was read: when so, no byte is left.
    fn is_eof(&mut self) -> (r: bool)
        requires
            old(self).read_ok(),
        ensures
            final(self).read_ok(),
            final(self).rest() == old(self).rest(),
            final(self).room() == old(self).room(),
            r ==> old(self).rest().len() == 0;

    fn read_byte(&mut self) -> (r: u8)
        requires
            old(self).read_ok(),
            old(self).rest().len() >= 1,
        ensures
            final(self).read_ok(),
            final(self).room() == old(self).room(),
            r == old(self).rest()[0],
            final(self).rest() == old(self).rest().drop_first();

    fn try_read_byte(&mut self) -> (r: Option<u8>)
        requires
            old(self).read_ok(),
        ensures
            final(self).read_ok(),
            final(self).room() == old(self).room(),
            r == (if old(self).rest().len() == 0 { None::<u8> } else { Some(old(self).rest()[0]) }),
            final(self).rest() == (if old(self).rest().len() == 0 { old(self).rest() } else { old(self).rest().drop_first() });

    /// The byte `n` places ahead, if there is one.
    fn peak_byte(&mut self, n: u8) -> (r: Option<u8>)
        requires
            old(self).read_ok(),
            n < old(self).room(),
        ensures
            final(self).read_ok(),
            final(self).room() == old(self).room(),
            final(self).rest() == old(self).rest(),
            r == (if n < old(self).rest().len() { Some(old(self).rest()[n as int]) } else { None::<u8> });

    /// The next byte, if there is one.
    fn peak_next_byte(&mut self) -> (r: Option<u8>)
        requires
            old(self).read_ok(),
            old(self).room() >= 1,
        ensures
            final(self).read_ok(),
            final(self).room() == old(self).room(),
            final(self).rest() == old(self).rest(),
            r == (if old(self).rest().len() > 0 { Some(old(self).rest()[0]) } else { None::<u8> }),
    {
        self.peak_byte(0)
    }

    /// Whether the byte `n` places ahead is `expect`.
    fn test_byte(&mut self, n: u8, expect: u8) -> (r: bool)
        requires
            old(self).read_ok(),
            n < old(self).room(),
        ensures
            final(self).read_ok(),
            final(self).room() == old(self).room(),
            final(self).rest() == old(self).rest(),
            r == (n < old(self).rest().len() && old(self).rest()[n as int] == expect),
    {
        match self.peak_byte(n) {
            Some(x) => x == expect,
            None => false,
        }
    }

    /// Whether the next bytes are `expects`.
    fn test_next_bytes(&mut self, expects: &[u8]) -> (r: bool)
        requires
            old(self).read_ok(),
            expects@.len() <= old(self).room(),
            expects@.len() <= 256,
        ensures
            final(self).read_ok(),
            final(self).room() == old(self).room(),
            final(self).rest() == old(self).rest(),
            r == (expects@.len() <= old(self).rest().len() && old(self).rest().subrange(0, expects@.len() as int) == expects@),
    {
        let ghost rest = self.rest();
        let mut n: usize = 0;
        while n < expects.len()
            invariant
                self.read_ok(),
                self.room() == old(self).room(),
                self.rest() == rest,
                rest == old(self).rest(),
                n <= expects@.len(),
                expects@.len() <= self.room(),
                expects@.len() <= 256,
                n <= rest.len(),
                rest.subrange(0, n as int) == expects@.subrange(0, n as int),
            decreases expects@.len() - n,
        {
            let peak = self.peak_byte(n as u8);
            match peak {
                Some(x) => {
                    if x != expects[n] {
                        return false;
                    }
                },
                None => {
                    return false;
                },
            }
            n = n + 1;
            assert(rest.subrange(0, n as int) =~= expects@.subrange(0, n as int));
        }
        assert(expects@.subrange(0, n as int) =~= expects@);
        true
    }

    /// Whether the next bytes are the UTF-8 encoding of `expect_char`.
    fn test_next_char(&mut self, expect_char: char) -> (r: bool)
        requires
            old(self).read_ok(),
            old(self).room() >= 4,
        ensures
            final(self).read_ok(),
            final(self).room() == old(self).room(),
            final(self).rest() == old(self).rest(),
            r == (encode_utf8(seq![expect_char]).len() <= old(self).rest().len()
                && old(self).rest().subrange(0, encode_utf8(seq![expect_char]).len() as int) == encode_utf8(seq![expect_char])),
    {
        let mut buf = [0u8; 4];
        let s = encode_char(expect_char, &mut buf);
        let bytes = s.as_bytes();
        proof {
            assert(seq![expect_char].drop_first() =~= Seq::<char>::empty());
            assert(encode_utf8(seq![expect_char]) == vstd::utf8::encode_scalar(seq![expect_char][0] as u32) + encode_utf8(Seq::<char>::empty()));
            assert(encode_utf8(Seq::<char>::empty()) =~= Seq::<u8>::empty());
            assert(bytes@.len() <= 4);
        }
        self.test_next_bytes(bytes)
    }

    /// The next character, read; an error when its bytes are not valid UTF-8.
    fn read_char(&mut self) -> (r: Result<char>)
        requires
            old(self).read_ok(),
        ensures
            final(self).read_ok(),
            final(self).room() == old(self).room(),
            final(self).rest() == old(self).rest().skip(next_char(old(self).rest()).1 as int),
            match next_char(old(self).rest()).0 {
                Some(c) => r == Ok::<char, Error>(c),
                None => r matches Err(Error::Other(s)) && s@ == "Invalid UTF-8 char seq"@,
            },
    {
        let ghost rest = self.rest();
        let b1 = match self.try_read_byte() {
            Some(b) => b,
            None => {
                assert(rest.skip(0) =~= rest);
                return Err(Error::Other(String::from_str("Invalid UTF-8 char seq")));
            },
        };
        let w: usize = if b1 <= 0x7f { 1 } else if 0xc0 <= b1 && b1 <= 0xdf { 2 } else if 0xe0 <= b1 && b1 <= 0xef { 3 } else if 0xf0 <= b1 && b1 <= 0xf7 { 4 } else { 0 };
        if w == 0 {
            assert(rest.skip(1) =~= rest.drop_first());
            return Err(Error::Other(String::from_str("Invalid UTF-8 char seq")));
        }
        let mut bytes: Vec<u8> = Vec::new();
        bytes.push(b1);
        proof {
            assert(rest.drop_first() =~= rest.skip(1));
            assert(bytes@ =~= rest.subrange(0, 1));
        }
        while bytes.len() < w
            invariant
                self.read_ok(),
                self.room() == old(self).room(),
                rest == old(self).rest(),
                1 <= bytes@.len() <= w,
                bytes@.len() <= rest.len(),
                w == char_width(rest[0]),
                w <= 4,
                rest.len() >= 1,
                bytes@ == rest.subrange(0, bytes@.len() as int),
                self.rest() == rest.skip(bytes@.len() as int),
            decreases w - bytes@.len(),
        {
            match self.try_read_byte() {
                Some(b) => {
                    bytes.push(b);
                    assert(bytes@ =~= rest.subrange(0, bytes@.len() as int));
                    assert(self.rest() =~= rest.skip(bytes@.len() as int));
                },
                None => {
                    assert(rest.len() == bytes@.len());
                    assert(self.rest() =~= rest.skip(rest.len() as int));
                    return Err(Error::Other(String::from_str("Invalid UTF-8 char seq")));
                },
            }
        }
        match str_from_utf8(bytes.as_slice()) {
            Some(s) => {
                proof {
                    assert(bytes@.len() > 0);
                    assert(decode_utf8(bytes@).len() >= 1);
                }
                Ok(s.get_char(0))
            },
            None => Err(Error::Other(String::from_str("Invalid UTF-8 char seq"))),
        }
    }

    /// The next character, if something is left (as [`Self::is_eof`] tells).
    fn try_read_char(&mut self) -> (r: Result<Option<char>>)
        requires
            old(self).read_ok(),
        ensures
            final(self).read_ok(),
            final(self).room() == old(self).room(),
            r matches Ok(None) ==> old(self).rest().len() == 0 && final(self).rest() == old(self).rest(),
            r matches Ok(Some(c)) ==> next_char(old(self).rest()).0 == Some(c)
                && final(self).rest() == old(self).rest().skip(next_char(old(self).rest()).1 as int),
            r is Err ==> next_char(old(self).rest()).0 is None
                && final(self).rest() == old(self).rest().skip(next_char(old(self).rest()).1 as int),
    {
        if self.is_eof() {
            return Ok(None);
        }
        match self.read_char() {
            Ok(c) => Ok(Some(c)),
            Err(e) => Err(e),
        }
    }

    /// Reads `char_len` characters into `str`; stops at the first that is not valid UTF-8.
    fn read_str(&mut self, str: &mut String, char_len: u8) -> (r: Result<()>)
        requires
            old(self).read_ok(),
        ensures
            final(self).read_ok(),
            final(self).room() == old(self).room(),
            ({
                let rc = read_chars(old(self).rest(), char_len as nat);
                &&& final(str)@ == old(str)@ + rc.0
                &&& final(self).rest() == old(self).rest().skip(rc.2 as int)
                &&& (r is Ok <==> rc.1)
            }),
    {
        let ghost rest0 = self.rest();
        let ghost s0 = str@;
        let mut i: u8 = 0;
        proof {
            assert(rest0.skip(0) =~= rest0);
            assert(s0 + Seq::<char>::empty() =~= s0);
        }
        while i < char_len
            invariant
                self.read_ok(),
                self.room() == old(self).room(),
                i <= char_len,
                rest0 == old(self).rest(),
                s0 == old(str)@,
                read_chars(rest0, i as nat).1,
                str@ == s0 + read_chars(rest0, i as nat).0,
                self.rest() == rest0.skip(read_chars(rest0, i as nat).2 as int),
            decreases char_len - i,
        {
            let ghost before = self.rest();
            proof {
                lemma_read_chars_len(rest0, i as nat);
                lemma_read_chars_split(rest0, i as nat, (i + 1) as nat);
                lemma_read_chars_split(rest0, i as nat, char_len as nat);
                lemma_next_char_len(before);
            }
            let c = self.read_char();
            match c {
                Ok(ch) => {
                    string_push(str, ch);
                    proof {
                        reveal_with_fuel(read_chars, 2);
                        let rc = read_chars(rest0, i as nat);
                        let u = next_char(before).1;
                        assert(read_chars(before, 1) == (seq![ch] + Seq::<char>::empty(), true, u + 0));
                        assert(seq![ch] + Seq::<char>::empty() =~= seq![ch]);
                        assert(str@ =~= s0 + read_chars(rest0, (i + 1) as nat).0);
                        assert(before.skip(u as int) =~= rest0.skip((rc.2 + u) as int));
                    }
                    i = i + 1;
                },
                Err(e) => {
                    proof {
                        let rc = read_chars(rest0, i as nat);
                        let u = next_char(before).1;
                        assert(read_chars(before, (char_len - i) as nat) == (Seq::<char>::empty(), false, u));
                        assert(rc.0 + Seq::<char>::empty() =~= rc.0);
                        assert(before.skip(u as int) =~= rest0.skip((rc.2 + u) as int));
                    }
                    return Err(e);
                },
            }
        }
        Ok(())
    }

    /// Reads characters into `str` until the next ones are `until_char` or nothing is left
    /// (as [`Self::is_eof`] tells); stops at the first that is not valid UTF-8.
    fn read_str_until_char(&mut self, str: &mut String, until_char: char) -> (r: Result<()>)
        requires
            old(self).read_ok(),
            old(self).room() >= 4,
        ensures
            final(self).read_ok(),
            final(self).room() == old(self).room(),
            exists|k: nat| #[trigger] until_outcome(old(self).rest(), k, until_char, r is Ok, old(str)@, final(str)@, final(self).rest()),
    {
        let ghost rest0 = self.rest();
        let ghost s0 = str@;
        let ghost enc = encode_utf8(seq![until_char]);
        let ghost mut i: nat = 0;
        proof {
            assert(rest0.skip(0) =~= rest0);
            assert(s0 + Seq::<char>::empty() =~= s0);
        }
        loop
            invariant
                self.read_ok(),
                self.room() == old(self).room(),
                self.room() >= 4,
                rest0 == old(self).rest(),
                s0 == old(str)@,
                enc == encode_utf8(seq![until_char]),
                read_chars(rest0, i).1,
                str@ == s0 + read_chars(rest0, i).0,
                self.rest() == rest_after(rest0, i),
                forall|j: nat| j < i ==> !starts_with(#[trigger] rest_after(rest0, j), enc),
            decreases self.rest().len(),
        {
            if self.test_next_char(until_char) {
                let res: Result<()> = Ok(());
                assert(until_outcome(rest0, i, until_char, res is Ok, s0, str@, self.rest()));
                return res;
            }
            if self.is_eof() {
                let res: Result<()> = Ok(());
                assert(until_outcome(rest0, i, until_char, res is Ok, s0, str@, self.rest()));
                return res;
            }
            let ghost before = self.rest();
            proof {
                lemma_read_chars_len(rest0, i);
                lemma_read_chars_split(rest0, i, i + 1);
                lemma_next_char_len(before);
                reveal_with_fuel(read_chars, 2);
            }
            match self.read_char() {
                Ok(ch) => {
                    string_push(str, ch);
                    proof {
                        let rc = read_chars(rest0, i);
                        let u = next_char(before).1;
                        assert(read_chars(before, 1) == (seq![ch] + Seq::<char>::empty(), true, u + 0));
                        assert(seq![ch] + Seq::<char>::empty() =~= seq![ch]);
                        assert(str@ =~= s0 + read_chars(rest0, i + 1).0);
                        assert(before.skip(u as int) =~= rest0.skip((rc.2 + u) as int));
                        assert(!starts_with(rest_after(rest0, i), enc));
                        i = i + 1;
                    }
                },
                Err(e) => {
                    proof {
                        let rc = read_chars(rest0, i);
                        let u = next_char(before).1;
                        assert(read_chars(before, 1) == (Seq::<char>::empty(), false, u));
                        assert(rc.0 + Seq::<char>::empty() =~= rc.0);
                        assert(before.skip(u as int) =~= rest0.skip((rc.2 + u) as int));
                        assert(!starts_with(rest_after(rest0, i), enc));
                    }
                    let res: Result<()> = Err(e);
                    assert(until_outcome(rest0, i + 1, until_char, res is Ok, s0, str@, self.rest()));
                    return res;
                },
            }
        }
    }
}

/// Reads bytes from a source through a ring buffer, and looks ahead into them.
pub struct ReadWraper {
    r: ByteSrc,
    buf: Vec<u8>,
    i_start: usize,
    i_end: usize,
    is_buf_empty: bool,
    is_r_eof: bool,
}

impl ReadWraper {
    pub closed spec fn cap(&self) -> int {
        self.buf@.len() as int
    }

    pub closed spec fn start(&self) -> int {
        self.i_start as int
    }

    /// How many bytes the buffer holds.
    pub closed spec fn held(&self) -> int {
        ring_len(self.i_start as int, self.i_end as int, self.buf@.len() as int, self.is_buf_empty)
    }

    /// The bytes that the buffer holds, in order.
    pub closed spec fn queue(&self) -> Seq<u8> {
        Seq::new(self.held() as nat, |j: int| self.buf@[ring(self.i_start as int, j, self.buf@.len() as int)])
    }

    /// Whether the source told that it has no more bytes.
    pub closed spec fn source_done(&self) -> bool {
        self.is_r_eof
    }

    /// Whether the source is known to be done once the buffer is filled: it was already, or it
    /// holds fewer bytes than the buffer has room for.
    pub open spec fn done_after_fill(&self) -> bool {
        self.source_done() || self.source_rest().len() < self.cap() - self.queue().len()
    }

    /// A source that told it is done has no bytes left; so at the end no byte is left.
    pub proof fn lemma_done_means_empty(&self)
        requires
            self.wf(),
        ensures
            self.source_done() ==> self.source_rest().len() == 0,
            self.source_done() && self.queue().len() == 0 ==> self.stream().len() == 0,
            self.queue().len() <= self.cap(),
    {
        assert(self.queue().len() == self.held());
    }

    /// The bytes still to be read: those in the buffer, then those of the source.
    pub open spec fn stream(&self) -> Seq<u8> {
        self.queue() + self.source_rest()
    }

    pub closed spec fn source_rest(&self) -> Seq<u8> {
        self.r.rest()
    }

    pub closed spec fn wf(&self) -> bool {
        let cap = self.buf@.len() as int;
        &&& self.r.wf()
        &&& cap >= 1
        &&& cap <= isize::MAX
        &&& self.i_start < cap
        &&& self.i_end <= cap
        &&& self.is_buf_empty ==> self.i_start == 0 && self.i_end == 0
        &&& !self.is_buf_empty ==> self.i_end > 0
        &&& !self.is_buf_empty && self.i_end == cap ==> self.i_start < self.i_end
        &&& self.is_r_eof ==> self.r.rest().len() == 0
    }

    /// A reader with a buffer of 4 KiB.
    pub fn new_std(r: ByteSrc) -> (res: Self)
        requires
            r.wf(),
        ensures
            res.wf(),
            res.stream() == r.rest(),
            res.cap() == 4096,
    {
        Self::with_capacity(r, 4096)
    }

    pub fn with_capacity(r: ByteSrc, capacity: usize) -> (res: Self)
        requires
            r.wf(),
            1 <= capacity <= isize::MAX,
        ensures
            res.wf(),
            res.stream() == r.rest(),
            res.cap() == capacity,
            res.queue().len() == 0,
    {
        let buf = vec![0u8; capacity];
        let res = Self { r, buf, i_start: 0, i_end: 0, is_buf_empty: true, is_r_eof: false };
        assert(res.queue() =~= Seq::<u8>::empty());
        assert(res.stream() =~= res.r.rest());
        res
    }

    /// Whether every byte was read (as far as the source has told).
    pub fn is_eof(&self) -> (r: bool)
        requires
            self.wf(),
        ensures
            r == (self.queue().len() == 0 && self.source_done()),
    {
        self.is_buf_empty && self.is_r_eof
    }

    fn buf_capacity(&self) -> (r: usize)
        ensures
            r == self.cap(),
    {
        self.buf.len()
    }

    fn is_buf_empty(&self) -> (r: bool)
        requires
            self.wf(),
        ensures
            r == (self.queue().len() == 0),
    {
        self.is_buf_empty
    }

    fn buf_len(&self) -> (r: usize)
        requires
            self.wf(),
        ensures
            r == self.held(),
            r == self.queue().len(),
            r <= self.cap(),
    {
        if self.is_buf_empty {
            0
        } else if self.i_end <= self.i_start {
            let sep_point = self.buf_capacity();
            sep_point - self.i_start + self.i_end
        } else {
            self.i_end - self.i_start
        }
    }

    /// Fills the free part of the buffer from the source, as far as the source goes.
    #[verifier::rlimit(60)]
    #[verifier::spinoff_prover]
    fn fill_buf(&mut self)
        requires
            old(self).wf(),
        ensures
            final(self).wf(),
            final(self).cap() == old(self).cap(),
            final(self).start() == old(self).start(),
            final(self).stream() == old(self).stream(),
            old(self).source_done() ==> *final(self) == *old(self),
            !old(self).source_done() ==> ({
                let need = old(self).cap() - old(self).queue().len();
                let rest = old(self).source_rest();
                let got = if rest.len() <= need { rest.len() as int } else { need };
                &&& final(self).queue() == old(self).queue() + rest.subrange(0, got)
                &&& final(self).source_done() == (rest.len() < need)
            }),
    {
        if self.is_r_eof {
            return;
        }
        let capacity = self.buf_capacity();
        let mut need_read = capacity - self.buf_len();
        let mut readed_once = false;
        let mut from: usize;
        let mut to: usize;
        let mut need_change_from_to: bool;
        if self.i_end == capacity {
            from = 0;
            to = need_read;
            need_change_from_to = false;
        } else if self.i_start <= self.i_end {
            from = self.i_end;
            to = capacity;
            need_change_from_to = self.i_start != 0;
        } else {
            from = self.i_end;
            to = self.i_start;
            need_change_from_to = false;
        }
        let ghost s = self.i_start as int;
        let ghost cap = capacity as int;
        let ghost l0 = self.held();
        let ghost r0 = self.r.rest();
        let ghost buf0 = self.buf@;
        let ghost e0 = self.i_end as int;
        let ghost empty0 = self.is_buf_empty;
        let ghost need0 = cap - l0;
        let ghost mut t: int = 0;
        proof {
            assert(r0.subrange(0, r0.len() as int) =~= r0);
        }
        loop
            invariant_except_break
                !self.is_r_eof,
                need_read > 0 ==> from < to <= cap && from as int == ring(s, l0 + t, cap)
                    && (need_change_from_to ==> to == cap && need_read == (to - from) + s)
                    && (!need_change_from_to ==> need_read == to - from),
            invariant
                self.r.wf(),
                self.i_start as int == s,
                self.buf@.len() == cap,
                capacity as int == cap,
                1 <= cap <= isize::MAX,
                0 <= s < cap,
                0 <= l0 <= cap,
                need0 == cap - l0,
                0 <= t <= need0,
                t <= r0.len(),
                need_read == need0 - t,
                self.r.rest() == r0.subrange(t, r0.len() as int),
                self.i_end as int == e0 + t,
                e0 == (if s + l0 < cap || (empty0 && l0 == 0) { s + l0 } else if e0 == cap { cap } else { s + l0 - cap }),
                e0 <= cap,
                e0 == cap ==> s + l0 == cap,
                empty0 ==> l0 == 0 && s == 0 && e0 == 0,
                !empty0 ==> l0 >= 1,
                readed_once == (t > 0),
                self.is_buf_empty ==> empty0,
                !self.is_buf_empty ==> !empty0 || t > 0,
                forall|j: int| 0 <= j < l0 ==> self.buf@[ring(s, j, cap)] == buf0[ring(s, j, cap)],
                forall|j: int| 0 <= j < t ==> self.buf@[ring(s, l0 + j, cap)] == r0[j],
                self.is_r_eof ==> r0.len() == t && t < need0,
            ensures
                self.is_r_eof ==> r0.len() == t && t < need0,
                !self.is_r_eof ==> t == need0,
            decreases need_read,
        {
            if need_read == 0 {
                break;
            }
            let got = self.r.read_up_to(to - from);
            let readed = got.len();
            if readed == 0 {
                self.is_r_eof = true;
                break;
            }
            let ghost bufa = self.buf@;
            copy_into(&mut self.buf, from, &got);
            proof {
                assert forall|j: int| 0 <= j < l0 implies self.buf@[ring(s, j, cap)] == buf0[ring(s, j, cap)] by {
                    let p = ring(s, j, cap);
                    assert(!(from <= p < from + readed));
                }
                assert forall|j: int| 0 <= j < t + readed implies self.buf@[ring(s, l0 + j, cap)] == r0[j] by {
                    if j < t {
                        let p = ring(s, l0 + j, cap);
                        assert(!(from <= p < from + readed));
                    } else {
                        let i = j - t;
                        assert(ring(s, l0 + j, cap) == from + i);
                        assert(got@[i] == r0.subrange(t, r0.len() as int)[i]);
                    }
                }
                assert(r0.subrange(t, r0.len() as int).subrange(readed as int, r0.subrange(t, r0.len() as int).len() as int) =~= r0.subrange(t + readed, r0.len() as int));
                t = t + readed;
            }
            let ghost from0 = from;
            let ghost t0 = t - readed;
            assert(isize::MAX * 2 < usize::MAX);
            readed_once = true;
            need_read = need_read - readed;
            from = from + readed;
            self.i_end = self.i_end + readed;
            proof {
                if s + l0 + t0 < cap {
                    assert(from0 == s + l0 + t0);
                } else {
                    assert(from0 == s + l0 + t0 - cap);
                }
                if from < to {
                    assert(from as int == ring(s, l0 + t, cap));
                }
            }
            if from == to {
                self.is_buf_empty = false;
                if need_change_from_to {
                    need_change_from_to = false;
                    from = 0;
                    to = need_read;
                    proof {
                        assert(s + l0 + t == cap);
                        assert(ring(s, l0 + t, cap) == 0);
                    }
                }
            }
        }
        if self.i_end != capacity {
            proof {
                let x = e0 + t;
                if x < cap {
                    vstd::arithmetic::div_mod::lemma_small_mod(x as nat, cap as nat);
                } else {
                    vstd::arithmetic::div_mod::lemma_fundamental_div_mod_converse(x, cap, 1, x - cap);
                }
            }
            self.i_end = self.i_end % capacity;
        }
        self.is_buf_empty = self.is_buf_empty && !readed_once;
        proof {
            let l1 = l0 + t;
            assert(self.held() == l1);
            assert(self.queue() =~= buf0_queue(buf0, s, l0, cap) + r0.subrange(0, t)) by {
                assert forall|j: int| 0 <= j < l1 implies self.queue()[j] == (buf0_queue(buf0, s, l0, cap) + r0.subrange(0, t))[j] by {
                    if j < l0 {
                    } else {
                        assert(self.buf@[ring(s, l0 + (j - l0), cap)] == r0[j - l0]);
                    }
                }
            }
            assert(old(self).queue() =~= buf0_queue(buf0, s, l0, cap));
            assert(self.stream() =~= old(self).stream());
        }
    }
}

impl ReadWraper {
    /// Forgets the first `len` bytes of the buffer, which lie one after the other from `i_start`.
    fn advance(&mut self, len: usize)
        requires
            old(self).wf(),
            1 <= len,
            old(self).i_start < old(self).i_end ==> old(self).i_start + len <= old(self).i_end,
            old(self).i_start >= old(self).i_end ==> old(self).i_start + len <= old(self).cap(),
            len <= old(self).queue().len(),
        ensures
            final(self).wf(),
            final(self).cap() == old(self).cap(),
            final(self).queue() == old(self).queue().subrange(len as int, old(self).queue().len() as int),
            final(self).source_rest() == old(self).source_rest(),
            final(self).source_done() == old(self).source_done(),
    {
        let ghost q0 = self.queue();
        let ghost s0 = self.i_start as int;
        let ghost cap = self.buf@.len() as int;
        self.i_start = self.i_start + len;
        self.upd_bounds();
        proof {
            let q1 = self.queue();
            assert(q1.len() == q0.len() - len);
            assert forall|j: int| 0 <= j < q1.len() implies q1[j] == q0[j + len] by {
                assert(ring(self.i_start as int, j, cap) == ring(s0, j + len, cap));
            }
            assert(q1 =~= q0.subrange(len as int, q0.len() as int));
        }
    }

    fn upd_bounds(&mut self)
        requires
            old(self).i_start <= old(self).buf@.len(),
            old(self).i_end <= old(self).buf@.len(),
        ensures
            final(self).buf == old(self).buf,
            final(self).r == old(self).r,
            final(self).is_r_eof == old(self).is_r_eof,
            old(self).i_start == old(self).i_end ==> final(self).is_buf_empty && final(self).i_start == 0 && final(self).i_end == 0,
            old(self).i_start != old(self).i_end ==> final(self).is_buf_empty == old(self).is_buf_empty
                && final(self).i_end == old(self).i_end
                && final(self).i_start == (if old(self).i_start == old(self).buf@.len() { 0 } else { old(self).i_start }),
    {
        let is_empty = self.i_start == self.i_end;
        if is_empty {
            self.is_buf_empty = true;
            self.i_start = 0;
            self.i_end = 0;
        }
        if self.i_start == self.buf_capacity() {
            self.i_start = 0;
        }
    }

    fn read_byte_unchecked(&mut self) -> (r: u8)
        requires
            old(self).wf(),
            old(self).queue().len() >= 1,
        ensures
            final(self).wf(),
            final(self).cap() == old(self).cap(),
            r == old(self).queue()[0],
            final(self).queue() == old(self).queue().drop_first(),
            final(self).source_rest() == old(self).source_rest(),
            final(self).source_done() == old(self).source_done(),
    {
        let x = self.buf[self.i_start];
        assert(old(self).queue()[0] == self.buf@[ring(self.i_start as int, 0, self.buf@.len() as int)]);
        self.advance(1);
        assert(old(self).queue().drop_first() =~= old(self).queue().subrange(1, old(self).queue().len() as int));
        x
    }

    /// Needed only to look further ahead than the buffer holds, which works from the buffer's
    /// start only.
    fn make_continuous(&mut self)
        requires
            old(self).i_start == 0,
        ensures
            *final(self) == *old(self),
    {
    }

    /// The `n`-th byte ahead (the next one is the `0`-th), if there are that many.
    pub fn peak(&mut self, n: usize) -> (r: Option<u8>)
        requires
            old(self).wf(),
            n < isize::MAX,
            n < old(self).cap() || old(self).start() == 0 || old(self).stream().len() < old(self).cap() || old(self).source_done(),
        ensures
            final(self).wf(),
            n < old(self).cap() ==> final(self).cap() == old(self).cap(),
            n < old(self).cap() ==> final(self).source_done()
                == (if old(self).queue().len() <= n { old(self).done_after_fill() } else { old(self).source_done() }),
            final(self).stream() == old(self).stream(),
            r == (if n < old(self).stream().len() { Some(old(self).stream()[n as int]) } else { None::<u8> }),
    {
        let n1 = n + 1;
        if self.buf_len() < n1 {
            self.fill_buf();
        }
        if !self.is_r_eof && self.buf_len() < n1 {
            self.make_continuous();
            let ghost q = self.queue();
            let ghost c0 = self.buf@.len();
            let ghost rs = self.r;
            assert(self.i_start == 0);
            assert(self.i_end == c0);
            while self.buf.len() < n1
                invariant
                    self.r == rs,
                    self.i_start == 0,
                    self.i_end == c0,
                    !self.is_buf_empty,
                    !self.is_r_eof,
                    self.r.wf(),
                    c0 <= self.buf@.len() <= n1,
                    n1 <= isize::MAX,
                    c0 >= 1,
                    forall|j: int| 0 <= j < c0 ==> self.buf@[j] == q[j],
                    q.len() == c0,
                decreases n1 - self.buf@.len(),
            {
                self.buf.push(0);
            }
            proof {
                assert(self.queue() =~= q);
            }
            self.fill_buf();
        }
        if self.buf_len() < n1 {
            return None;
        }
        let cap = self.buf_capacity();
        let i_start = self.i_start;
        if n < cap - i_start {
            Some(self.buf[i_start + n])
        } else {
            let delta = cap - i_start;
            Some(self.buf[n - delta])
        }
    }

    /// Reads the next byte; there must be one.
    pub fn read_byte(&mut self) -> (r: u8)
        requires
            old(self).wf(),
            old(self).stream().len() >= 1,
        ensures
            final(self).wf(),
            final(self).cap() == old(self).cap(),
            r == old(self).stream()[0],
            final(self).stream() == old(self).stream().drop_first(),
            final(self).source_done() == (if old(self).queue().len() == 0 { old(self).done_after_fill() } else { old(self).source_done() }),
    {
        if self.is_buf_empty() {
            self.fill_buf();
        }
        let ghost st = self.stream();
        let x = self.read_byte_unchecked();
        assert(self.stream() =~= st.drop_first());
        x
    }

    /// Reads the next byte, if there is one.
    pub fn try_read_byte(&mut self) -> (r: Option<u8>)
        requires
            old(self).wf(),
        ensures
            final(self).wf(),
            final(self).cap() == old(self).cap(),
            r == (if old(self).stream().len() == 0 { None::<u8> } else { Some(old(self).stream()[0]) }),
            final(self).stream() == (if old(self).stream().len() == 0 { old(self).stream() } else { old(self).stream().drop_first() }),
            final(self).source_done() == (if old(self).queue().len() == 0 { old(self).done_after_fill() } else { old(self).source_done() }),
    {
        if self.is_buf_empty() {
            self.fill_buf();
        }
        if ReadWraper::is_eof(self) {
            return None;
        }
        let ghost st = self.stream();
        let x = self.read_byte_unchecked();
        assert(self.stream() =~= st.drop_first());
        Some(x)
    }

    /// The `n`-th byte ahead, if there are that many.
    pub fn peak_byte(&mut self, n: u8) -> (r: Option<u8>)
        requires
            old(self).wf(),
            (n as int) < old(self).cap() || old(self).start() == 0 || old(self).stream().len() < old(self).cap() || old(self).source_done(),
        ensures
            final(self).wf(),
            (n as int) < old(self).cap() ==> final(self).cap() == old(self).cap(),
            (n as int) < old(self).cap() ==> final(self).source_done()
                == (if old(self).queue().len() <= n { old(self).done_after_fill() } else { old(self).source_done() }),
            final(self).stream() == old(self).stream(),
            r == (if n < old(self).stream().len() { Some(old(self).stream()[n as int]) } else { None::<u8> }),
    {
        self.peak(n as usize)
    }

    /// Reads up to `out.len()` bytes into `out`: as many as there are, and gives how many.
    #[verifier::rlimit(100)]
    #[verifier::spinoff_prover]
    pub fn read(&mut self, out: &mut Vec<u8>) -> (r: usize)
        requires
            old(self).wf(),
        ensures
            final(self).wf(),
            r == (if old(out)@.len() <= old(self).stream().len() { old(out)@.len() } else { old(self).stream().len() }),
            final(out)@.len() == old(out)@.len(),
            final(out)@.subrange(0, r as int) == old(self).stream().subrange(0, r as int),
            final(out)@.subrange(r as int, old(out)@.len() as int) == old(out)@.subrange(r as int, old(out)@.len() as int),
            final(self).stream() == old(self).stream().subrange(r as int, old(self).stream().len() as int),
    {
        let ghost st0 = self.stream();
        let ghost o0 = out@;
        let mut readed: usize = 0;
        let out_len = out.len();
        loop
            invariant
                self.wf(),
                out_len == out@.len(),
                out@.len() == o0.len(),
                readed <= out_len,
                readed <= st0.len(),
                self.stream() == st0.subrange(readed as int, st0.len() as int),
                out@.subrange(0, readed as int) == st0.subrange(0, readed as int),
                out@.subrange(readed as int, out_len as int) == o0.subrange(readed as int, out_len as int),
            ensures
                self.wf(),
                readed == (if out_len <= st0.len() { out_len as int } else { st0.len() as int }),
                self.stream() == st0.subrange(readed as int, st0.len() as int),
                out@.subrange(0, readed as int) == st0.subrange(0, readed as int),
                out@.subrange(readed as int, out_len as int) == o0.subrange(readed as int, out_len as int),
                out@.len() == o0.len(),
            decreases out_len - readed,
        {
            if out_len == readed {
                break;
            }
            if self.is_buf_empty() {
                self.fill_buf();
            }
            if ReadWraper::is_eof(self) {
                assert(self.stream().len() == 0);
                break;
            }
            let from = self.i_start;
            let cap = self.buf_capacity();
            let avail = if self.i_start < self.i_end { self.i_end - self.i_start } else { cap - self.i_start };
            let want = out_len - readed;
            let len = if want <= avail { want } else { avail };
            let ghost q = self.queue();
            proof {
                assert(len <= q.len());
                assert forall|i: int| 0 <= i < len implies self.buf@[from + i] == q[i] by {
                    assert(ring(from as int, i, cap as int) == from + i);
                }
            }
            let ghost outa = out@;
            let ghost bufc = self.buf@;
            let mut k: usize = 0;
            while k < len
                invariant
                    k <= len,
                    readed + len <= out_len,
                    out_len == out@.len(),
                    cap == self.buf@.len(),
                    bufc == self.buf@,
                    from + len <= cap,
                    forall|i: int| 0 <= i < out_len && !(readed <= i < readed + k) ==> out@[i] == outa[i],
                    forall|j: int| readed <= j < readed + k ==> out@[j] == bufc[from + (j - readed)],
                decreases len - k,
            {
                out.set(readed + k, self.buf[from + k]);
                k = k + 1;
            }
            let ghost st1 = self.stream();
            assert(st1.len() == st0.len() - readed);
            assert(readed + len <= st0.len());
            self.advance(len);
            proof {
                assert(out@.subrange(0, readed + len) =~= st0.subrange(0, readed + len)) by {
                    assert forall|i: int| 0 <= i < readed + len implies out@[i] == st0[i] by {
                        if i < readed {
                            assert(out@[i] == outa[i]);
                            assert(outa.subrange(0, readed as int)[i] == st0.subrange(0, readed as int)[i]);
                        } else {
                            assert(out@[i] == bufc[from + (i - readed)]);
                            assert(out@[i] == q[i - readed]);
                            assert(st1 == st0.subrange(readed as int, st0.len() as int));
                            assert(st1[i - readed] == q[i - readed]);
                            assert(st0.subrange(readed as int, st0.len() as int)[i - readed] == st0[i]);
                        }
                    }
                }
                assert(out@.subrange(readed + len, out_len as int) =~= o0.subrange(readed + len, out_len as int)) by {
                    assert forall|i: int| readed + len <= i < out_len implies out@[i] == o0[i] by {
                        assert(outa.subrange(readed as int, out_len as int)[i - readed] == o0.subrange(readed as int, out_len as int)[i - readed]);
                    }
                }
                assert(self.stream() =~= st1.subrange(len as int, st1.len() as int));
                assert(self.stream() =~= st0.subrange(readed + len, st0.len() as int));
            }
            readed = readed + len;
        }
        readed
    }
}

/// Writes `src` into `buf` from `at`.
fn copy_into(buf: &mut Vec<u8>, at: usize, src: &Vec<u8>)
    requires
        at + src@.len() <= old(buf)@.len(),
    ensures
        final(buf)@.len() == old(buf)@.len(),
        forall|i: int| 0 <= i < old(buf)@.len() && !(at <= i < at + src@.len()) ==> final(buf)@[i] == old(buf)@[i],
        forall|i: int| 0 <= i < src@.len() ==> final(buf)@[at + i] == src@[i],
{
    let mut k: usize = 0;
    let n = buf.len();
    while k < src.len()
        invariant
            k <= src@.len(),
            n == buf@.len(),
            at + src@.len() <= buf@.len(),
            buf@.len() == old(buf)@.len(),
            forall|i: int| 0 <= i < old(buf)@.len() && !(at <= i < at + k) ==> buf@[i] == old(buf)@[i],
            forall|i: int| 0 <= i < k ==> buf@[at + i] == src@[i],
        decreases src@.len() - k,
    {
        buf.set(at + k, src[k]);
        k = k + 1;
    }
}

/// The bytes held by a ring of `cap` cells from `s`, `len` of them.
pub open spec fn buf0_queue(buf: Seq<u8>, s: int, len: int, cap: int) -> Seq<u8> {
    Seq::new(len as nat, |j: int| buf[ring(s, j, cap)])
}

impl PeakableReadExt for ReadWraper {
    open spec fn rest(&self) -> Seq<u8> {
        self.stream()
    }

    open spec fn read_ok(&self) -> bool {
        self.wf()
    }

    open spec fn room(&self) -> nat {
        self.cap() as nat
    }

    fn is_eof(&mut self) -> (r: bool)
        ensures
            *final(self) == *old(self),
            r == (old(self).queue().len() == 0 && old(self).source_done()),
    {
        ReadWraper::is_eof(self)
    }

    fn read_byte(&mut self) -> (r: u8) {
        ReadWraper::read_byte(self)
    }

    fn try_read_byte(&mut self) -> (r: Option<u8>) {
        ReadWraper::try_read_byte(self)
    }

    fn peak_byte(&mut self, n: u8) -> (r: Option<u8>) {
        ReadWraper::peak_byte(self, n)
    }
}

} // verus!
