//! Words as carriers of bits: a value written as one of a list of words, and back.

use vstd::prelude::*;
use vstd::utf8::encode_utf8;
use crate::text::str_writer::WriteExt;
use crate::text::s3::{S3WriterInfo, S3WriterRand, S3Reader, RngMinimal, ilog2, log2_floor};
use crate::error::Result;

verus! {

/// A list of words; a value `x` of `0..s3` is written as one of the words `x`, `x + s3`, ...
#[derive(Clone)]
pub struct TxtVariation {
    inner: Vec<String>,
    s3: u32,
}

impl TxtVariation {
    /// The words, in the order they were added.
    pub closed spec fn words(&self) -> Seq<Seq<char>> {
        self.inner@.map_values(|s: String| s@)
    }

    pub closed spec fn s3(&self) -> nat {
        self.s3 as nat
    }

    pub closed spec fn wf(&self) -> bool {
        &&& self.inner@.len() <= u32::MAX
        &&& self.s3 <= self.inner@.len()
    }

    /// An empty list (`capacity` is a hint).
    pub fn new(capacity: usize) -> (r: Self)
        ensures
            r.wf(),
            r.words() == Seq::<Seq<char>>::empty(),
            r.s3() == 0,
    {
        let r = Self { inner: Vec::new(), s3: 0 };
        assert(r.words() =~= Seq::<Seq<char>>::empty());
        r
    }

    /// How many words there are.
    pub fn variation_amount(&self) -> (r: u32)
        requires
            self.wf(),
        ensures
            r == self.words().len(),
    {
        self.inner.len() as u32
    }

    /// Sets how many values a word stands for.
    pub fn set_s3(&mut self, s3: u32)
        requires
            old(self).wf(),
            s3 <= old(self).words().len(),
        ensures
            final(self).wf(),
            final(self).words() == old(self).words(),
            final(self).s3() == s3,
    {
        self.s3 = s3;
    }

    pub fn add_string_iter(&mut self, iter: Vec<String>)
        requires
            old(self).wf(),
            old(self).words().len() + iter@.len() <= u32::MAX,
        ensures
            final(self).wf(),
            final(self).words() == old(self).words() + iter@.map_values(|s: String| s@),
            final(self).s3() == old(self).s3(),
    {
        let mut i: usize = 0;
        while i < iter.len()
            invariant
                self.wf(),
                i <= iter@.len(),
                old(self).words().len() + iter@.len() <= u32::MAX,
                self.words() == old(self).words() + iter@.subrange(0, i as int).map_values(|s: String| s@),
                self.s3() == old(self).s3(),
            decreases iter@.len() - i,
        {
            self.add_string(iter[i].clone());
            i = i + 1;
            assert(self.words() =~= old(self).words() + iter@.subrange(0, i as int).map_values(|s: String| s@));
        }
        assert(iter@.subrange(0, i as int) =~= iter@);
    }

    pub fn add_string(&mut self, s: String)
        requires
            old(self).wf(),
            old(self).words().len() < u32::MAX,
        ensures
            final(self).wf(),
            final(self).words() == old(self).words().push(s@),
            final(self).s3() == old(self).s3(),
    {
        self.add_cow(s);
    }

    pub fn add_str_iter(&mut self, iter: Vec<&str>)
        requires
            old(self).wf(),
            old(self).words().len() + iter@.len() <= u32::MAX,
        ensures
            final(self).wf(),
            final(self).words() == old(self).words() + iter@.map_values(|s: &str| s@),
            final(self).s3() == old(self).s3(),
    {
        let mut i: usize = 0;
        while i < iter.len()
            invariant
                self.wf(),
                i <= iter@.len(),
                old(self).words().len() + iter@.len() <= u32::MAX,
                self.words() == old(self).words() + iter@.subrange(0, i as int).map_values(|s: &str| s@),
                self.s3() == old(self).s3(),
            decreases iter@.len() - i,
        {
            self.add_str(iter[i]);
            i = i + 1;
            assert(self.words() =~= old(self).words() + iter@.subrange(0, i as int).map_values(|s: &str| s@));
        }
        assert(iter@.subrange(0, i as int) =~= iter@);
    }

    pub fn add_str(&mut self, s: &str)
        requires
            old(self).wf(),
            old(self).words().len() < u32::MAX,
        ensures
            final(self).wf(),
            final(self).words() == old(self).words().push(s@),
            final(self).s3() == old(self).s3(),
    {
        self.add_cow(String::from_str(s));
    }

    /// Adds a word at the end.
    pub fn add_cow(&mut self, cow: String)
        requires
            old(self).wf(),
            old(self).words().len() < u32::MAX,
        ensures
            final(self).wf(),
            final(self).words() == old(self).words().push(cow@),
            final(self).s3() == old(self).s3(),
    {
        self.inner.push(cow);
        assert(self.words() =~= old(self).words().push(cow@));
    }

    fn seal_prepare(&mut self)
        requires
            old(self).wf(),
            old(self).words().len() > 1,
        ensures
            final(self).wf(),
            final(self).words() == old(self).words(),
            final(self).s3() == (if old(self).s3() <= 1 { old(self).words().len() } else { old(self).s3() }),
    {
        if self.s3 == 0 || self.s3 == 1 {
            let n = self.variation_amount();
            self.set_s3(n);
        }
    }

    /// A writer of values as these words.
    pub fn seal_w(self) -> (r: TxtVariationWriter)
        requires
            self.wf(),
            self.words().len() > 1,
            self.s3() > 1 ==> self.words().len() / self.s3() <= 255,
        ensures
            r.wf(),
            r.variation().words() == self.words(),
            r.variation().s3() == (if self.s3() <= 1 { self.words().len() } else { self.s3() }),
    {
        let mut s = self;
        s.seal_prepare();
        proof {
            if self.s3() <= 1 {
                vstd::arithmetic::div_mod::lemma_div_by_self(s.words().len() as int);
            }
        }
        TxtVariationWriter::new(s)
    }

    /// A reader of these words back into values; `default` stands for an unknown word.
    pub fn seal_r(self, valid_char: IsValidChar, default: Option<u32>) -> (r: TxtVariationReader)
        requires
            self.wf(),
            self.words().len() > 1,
            default matches Some(d) ==> d < (if self.s3() <= 1 { self.words().len() } else { self.s3() }),
        ensures
            r.words() == self.words(),
            r.s3() == (if self.s3() <= 1 { self.words().len() } else { self.s3() }),
            r.default() == default,
    {
        let mut s = self;
        s.seal_prepare();
        TxtVariationReader::new(s, valid_char, default)
    }
}

/// How many bits tell one of `s3` values: `ceil(log2(s3))`.
pub open spec fn ceil_bits(s3: u64) -> nat {
    log2_floor(s3 as nat) + (if s3 & ((s3 - 1) as u64) == 0 { 0nat } else { 1nat })
}

/// A value below `s`, moved up by `k` steps of `s` (and one step back when that passes
/// `len`), names a word: `k` is below the ratio, the number of steps of `s` that `len` words
/// take (taken modulo 256; zero there means `k` is zero).
proof fn lemma_word_exists(len: nat, s: nat, ratio: nat, k: nat, x: nat)
    requires
        1 <= s <= len,
        x < s,
        ratio == (if s == len { 1 } else { ((len / s) + (if len % s > 0 { 1nat } else { 0nat })) % 256 }),
        ratio != 1,
        ratio == 0 ==> k == 0,
        ratio != 0 ==> k < ratio,
    ensures
        x + s * k >= len ==> x + s * k >= s && x + s * k - s < len,
        x + s * k < len || x + s * k - s < len,
{
    if k == 0 {
        assert(s * k == 0) by (nonlinear_arith) requires k == 0;
    } else {
        let q = len / s;
        let e: nat = if len % s > 0 { 1 } else { 0 };
        vstd::arithmetic::div_mod::lemma_fundamental_div_mod(len as int, s as int);
        assert(len == s * q + len % s);
        assert(k + 1 <= q + e);
        assert(s * (k + 1) <= s * (q + e)) by (nonlinear_arith) requires k + 1 <= q + e, s >= 1;
        assert(s * (k + 1) == s * k + s) by (nonlinear_arith);
        assert(s * (q + e) == s * q + s * e) by (nonlinear_arith);
        if e == 1 {
            assert(s * k < len);
        } else {
            assert(len % s == 0);
            assert(s * k + s <= len);
        }
        assert(s * k < len);
    }
}

/// Writes values as words of a [`TxtVariation`].
pub struct TxtVariationWriter {
    inner: TxtVariation,
    ratio: u8,
}

impl TxtVariationWriter {
    pub closed spec fn variation(&self) -> TxtVariation {
        self.inner
    }

    /// How many words stand for one value.
    pub closed spec fn ratio(&self) -> u8 {
        self.ratio
    }

    pub closed spec fn wf(&self) -> bool {
        &&& self.inner.wf()
        &&& 1 <= self.inner.s3 <= self.inner.inner@.len()
        &&& self.ratio as nat == (if self.inner.s3 == self.inner.inner@.len() { 1 } else {
                ((self.inner.inner@.len() / self.inner.s3 as nat) + (if self.inner.inner@.len() % self.inner.s3 as nat > 0 { 1nat } else { 0nat })) % 256
            })
    }

    pub fn new(inner: TxtVariation) -> (r: Self)
        requires
            inner.wf(),
            1 <= inner.s3() <= inner.words().len(),
            inner.words().len() / inner.s3() <= 255,
        ensures
            r.wf(),
            r.variation() == inner,
    {
        let s3 = inner.s3;
        let real_s3 = inner.variation_amount();
        let ratio: u8 = if real_s3 == s3 {
            1
        } else {
            let ration_int = real_s3 / s3;
            let rest: u32 = if real_s3 % s3 > 0 { 1 } else { 0 };
            ((ration_int + rest) % 256) as u8
        };
        Self { inner, ratio }
    }

    /// One write takes the variation's `s3` values, in `ceil(log2(s3))` bits.
    pub proof fn lemma_s3(&self)
        ensures
            S3WriterInfo::s3(self) == self.variation().s3(),
            S3WriterInfo::bits(self) == ceil_bits(self.variation().s3() as u64),
    {
    }

    pub fn into_inner(self) -> (r: TxtVariation)
        ensures
            r == self.variation(),
    {
        self.inner
    }

    /// Writes `x` as one of the words `x + k * s3`, the `k` chosen at random below the
    /// ratio. The word chosen always exists, so the answer is always `Some`.
    pub fn write<W: WriteExt, R: RngMinimal>(&mut self, x: u64, w: &mut W, rng: &mut R) -> (r: Option<()>)
        requires
            old(self).wf(),
            x < old(self).variation().s3(),
        ensures
            *final(self) == *old(self),
            r is Some,
            r is Some ==> exists|y: int| 0 <= y < old(self).variation().words().len()
                && y % (old(self).variation().s3() as int) == x
                && final(w).written() == old(w).written() + encode_utf8(#[trigger] old(self).variation().words()[y]),
            old(self).ratio() == 1 ==> r is Some && final(w).written() == old(w).written() + encode_utf8(old(self).variation().words()[x as int]),
    {
        let mut x = x;
        let ghost x0 = x;
        let s3 = self.inner.s3 as u64;
        if self.ratio != 1 {
            let k = if self.ratio == 0 { 0 } else { rng.r8_range(0..=(self.ratio - 1)) as u64 };
            assert(s3 * k <= 0xFFFF_FFFF * 255) by (nonlinear_arith) requires s3 <= 0xFFFF_FFFF, k <= 255;
            let mut x2 = x + s3 * k;
            if k == 0 {
                assert(s3 * k == 0) by (nonlinear_arith) requires k == 0;
            }
            if x2 >= self.inner.inner.len() as u64 {
                x2 = x2 - s3;
            }
            proof {
                if k == 0 {
                    assert(s3 * k == 0) by (nonlinear_arith) requires k == 0;
                    assert(x2 == x0);
                }
                assert((x2 as int) % (s3 as int) == x0) by {
                    let q = if x2 == x0 + s3 * k { k as int } else { k - 1 };
                    assert(x2 == x0 + s3 * q) by (nonlinear_arith)
                        requires (x2 == x0 + s3 * k && q == k) || (x2 == x0 + s3 * k - s3 && q == k - 1);
                    vstd::arithmetic::div_mod::lemma_fundamental_div_mod_converse(x2 as int, s3 as int, q, x0 as int);
                }
                lemma_word_exists(self.inner.inner@.len(), s3 as nat, self.ratio as nat, k as nat, x0 as nat);
                assert(x2 < self.inner.inner@.len());
            }
            x = x2;
        }
        if x >= self.inner.inner.len() as u64 {
            return None;
        }
        let key = &self.inner.inner[x as usize];
        w.write_str(key.as_str());
        proof {
            if self.ratio == 1 {
                assert(x == x0);
            }
            vstd::arithmetic::div_mod::lemma_small_mod(x0 as nat, s3 as nat);
            assert(self.inner.words()[x as int] == key@);
        }
        Some(())
    }
}

impl S3WriterInfo for TxtVariationWriter {
    open spec fn info_wf(&self) -> bool {
        self.wf()
    }

    closed spec fn s3(&self) -> nat {
        self.inner.s3 as nat
    }

    closed spec fn bits(&self) -> nat {
        ceil_bits(self.inner.s3 as u64)
    }

    fn bits_once(&self) -> (r: u8) {
        let s3 = self.s3_once();
        let is_pow_2 = (s3 & (s3 - 1)) == 0;
        let extra: u8 = if is_pow_2 { 0 } else { 1 };
        ilog2(s3) as u8 + extra
    }

    fn s3_once(&self) -> (r: u64) {
        self.inner.s3 as u64
    }
}

/// Tells which characters make up a word.
pub trait IsValidCharSeq {
    /// Starts a new word.
    fn reset(&mut self);

    /// Whether `c` continues the word.
    fn is_valid(&mut self, c: char) -> bool;
}

/// English letters: lower case, capitals, or both.
#[derive(Clone, Copy)]
pub struct IsValidCharEng {
    pub lower: bool,
    pub capital: bool,
}

pub open spec fn eng_valid(e: IsValidCharEng, c: char) -> bool {
    ('a' <= c <= 'z' && e.lower) || ('A' <= c <= 'Z' && e.capital)
}

impl IsValidCharEng {
    pub fn new_lower() -> (r: Self)
        ensures
            r.lower && !r.capital,
    {
        Self { lower: true, capital: false }
    }

    pub fn new_capital() -> (r: Self)
        ensures
            !r.lower && r.capital,
    {
        Self { lower: false, capital: true }
    }

    pub fn new_any() -> (r: Self)
        ensures
            r.lower && r.capital,
    {
        Self { lower: true, capital: true }
    }

    pub fn valid(&self, c: char) -> (r: bool)
        ensures
            r == eng_valid(*self, c),
    {
        ('a' <= c && c <= 'z' && self.lower) || ('A' <= c && c <= 'Z' && self.capital)
    }
}

impl IsValidCharSeq for IsValidCharEng {
    fn reset(&mut self)
        ensures
            *final(self) == *old(self),
    {
    }

    fn is_valid(&mut self, c: char) -> (r: bool)
        ensures
            *final(self) == *old(self),
            r == eng_valid(*old(self), c),
    {
        self.valid(c)
    }
}

/// English letters, then (after the first character) digits too.
#[derive(Clone, Copy)]
pub struct IsValidCharEngNum {
    pub num: IsValidCharEng,
    pub first: bool,
}

impl IsValidCharEngNum {
    pub fn new(num: IsValidCharEng) -> (r: Self)
        ensures
            r.num == num && r.first,
    {
        Self { num, first: true }
    }

    pub fn valid(&mut self, c: char) -> (r: bool)
        ensures
            ('0' <= c <= '9' && !old(self).first) ==> r && *final(self) == *old(self),
            !('0' <= c <= '9' && !old(self).first) ==> r == eng_valid(old(self).num, c) && !final(self).first && final(self).num == old(self).num,
    {
        if '0' <= c && c <= '9' && !self.first {
            true
        } else {
            self.first = false;
            self.num.valid(c)
        }
    }
}

/// Whether `c` continues a word of letters then digits, in state `e`.
pub open spec fn eng_num_valid(e: IsValidCharEngNum, c: char) -> bool {
    if '0' <= c <= '9' && !e.first { true } else { eng_valid(e.num, c) }
}

/// The state after `c`: no longer at the first character, unless a digit kept it as it was.
pub open spec fn eng_num_after(e: IsValidCharEngNum, c: char) -> IsValidCharEngNum {
    if '0' <= c <= '9' && !e.first { e } else { IsValidCharEngNum { num: e.num, first: false } }
}

impl IsValidCharSeq for IsValidCharEngNum {
    fn reset(&mut self)
        ensures
            final(self).first,
            final(self).num == old(self).num,
    {
        self.first = true;
    }

    fn is_valid(&mut self, c: char) -> (r: bool)
        ensures
            r == eng_num_valid(*old(self), c),
            *final(self) == eng_num_after(*old(self), c),
    {
        self.valid(c)
    }
}

/// The characters of a word: one of the kinds above.
#[derive(Clone, Copy)]
pub enum IsValidChar {
    Eng(IsValidCharEng),
    EngThenNum(IsValidCharEngNum),
}

/// Whether `c` continues a word, in state `v`.
pub open spec fn char_valid(v: IsValidChar, c: char) -> bool {
    match v {
        IsValidChar::Eng(e) => eng_valid(e, c),
        IsValidChar::EngThenNum(e) => eng_num_valid(e, c),
    }
}

/// The state after `c`.
pub open spec fn char_after(v: IsValidChar, c: char) -> IsValidChar {
    match v {
        IsValidChar::Eng(e) => IsValidChar::Eng(e),
        IsValidChar::EngThenNum(e) => IsValidChar::EngThenNum(eng_num_after(e, c)),
    }
}

/// The state at the start of a word.
pub open spec fn char_reset(v: IsValidChar) -> IsValidChar {
    match v {
        IsValidChar::Eng(e) => IsValidChar::Eng(e),
        IsValidChar::EngThenNum(e) => IsValidChar::EngThenNum(IsValidCharEngNum { num: e.num, first: true }),
    }
}

impl IsValidCharSeq for IsValidChar {
    fn reset(&mut self)
        ensures
            *final(self) == char_reset(*old(self)),
    {
        match self {
            IsValidChar::Eng(x) => x.reset(),
            IsValidChar::EngThenNum(x) => x.reset(),
        }
    }

    fn is_valid(&mut self, c: char) -> (r: bool)
        ensures
            r == char_valid(*old(self), c),
            *final(self) == char_after(*old(self), c),
    {
        match self {
            IsValidChar::Eng(x) => x.is_valid(c),
            IsValidChar::EngThenNum(x) => x.is_valid(c),
        }
    }
}

/// Reads words of a [`TxtVariation`] back into values.
pub struct TxtVariationReader {
    words: Vec<String>,
    valid_chars: IsValidChar,
    s3: u32,
    unkn_value: Option<u32>,
}

/// The last position of a word in a list of words.
pub open spec fn last_index_of(words: Seq<Seq<char>>, s: Seq<char>) -> Option<int> {
    if exists|i: int| 0 <= i < words.len() && words[i] == s {
        Some(choose|i: int| 0 <= i < words.len() && words[i] == s && forall|j: int| i < j < words.len() ==> words[j] != s)
    } else {
        None
    }
}

/// No word stands at two places of the list.
pub open spec fn distinct_words(words: Seq<Seq<char>>) -> bool {
    forall|i: int, j: int| 0 <= i < j < words.len() ==> words[i] != words[j]
}

/// The word that [`TxtVariationWriter::write`] chose for `x`, the one at place `y` with
/// `y % s3 == x`, is read by [`TxtVariationReader::read`] over the same distinct words as `y`:
/// a value equal to `x` modulo `s3`, and `x` itself where each value has one word.
pub proof fn law_txt_variation_roundtrip(words: Seq<Seq<char>>, s3: nat, x: nat, y: int)
    requires
        distinct_words(words),
        0 <= y < words.len(),
        s3 >= 1,
        y % (s3 as int) == x,
    ensures
        last_index_of(words, words[y]) == Some(y),
        s3 == words.len() ==> y == x,
{
    let s = words[y];
    assert(forall|j: int| y < j < words.len() ==> words[j] != s);
    assert(0 <= y < words.len() && words[y] == s);
    let i = choose|i: int| 0 <= i < words.len() && words[i] == s && forall|j: int| i < j < words.len() ==> words[j] != s;
    assert(0 <= i < words.len() && words[i] == s);
    if i < y {
        assert(words[i] != words[y]);
    } else if y < i {
        assert(words[y] != words[i]);
    }
    if s3 == words.len() {
        vstd::arithmetic::div_mod::lemma_small_mod(y as nat, s3);
    }
}

impl TxtVariationReader {
    pub closed spec fn words(&self) -> Seq<Seq<char>> {
        self.words@.map_values(|s: String| s@)
    }

    pub closed spec fn s3(&self) -> nat {
        self.s3 as nat
    }

    pub closed spec fn default(&self) -> Option<u32> {
        self.unkn_value
    }

    pub closed spec fn valid_chars(&self) -> IsValidChar {
        self.valid_chars
    }

    pub fn new(var: TxtVariation, valid_char: IsValidChar, default: Option<u32>) -> (r: Self)
        requires
            default matches Some(d) ==> d < var.s3(),
        ensures
            r.words() == var.words(),
            r.s3() == var.s3(),
            r.default() == default,
            r.valid_chars() == valid_char,
    {
        Self { words: var.inner, valid_chars: valid_char, s3: var.s3, unkn_value: default }
    }

    /// One read gives one of `s3` values, in `ceil(log2(s3))` bits.
    pub proof fn lemma_s3(&self)
        ensures
            S3WriterInfo::s3(self) == self.s3(),
            S3WriterInfo::bits(self) == ceil_bits(self.s3() as u64),
    {
    }

    /// The value of the word `s`: the position of its last occurrence in the list, or the
    /// default for an unknown word.
    pub fn read(&mut self, s: &str) -> (r: u64)
        requires
            old(self).default() is Some || last_index_of(old(self).words(), s@) is Some,
        ensures
            *final(self) == *old(self),
            match last_index_of(old(self).words(), s@) {
                Some(i) => r == i && r < old(self).words().len(),
                None => r == old(self).default().unwrap(),
            },
    {
        let key = String::from_str(s);
        let mut i = self.words.len();
        while i > 0
            invariant
                i <= self.words@.len(),
                self.words() == old(self).words(),
                key@ == s@,
                forall|j: int| i <= j < self.words@.len() ==> self.words()[j] != s@,
            decreases i,
        {
            i = i - 1;
            if self.words[i] == key {
                proof {
                    assert(self.words()[i as int] == s@);
                    let c = choose|c: int| 0 <= c < old(self).words().len() && old(self).words()[c] == s@
                        && forall|j: int| c < j < old(self).words().len() ==> old(self).words()[j] != s@;
                    assert(c == i) by {
                        if c < i { assert(self.words()[i as int] != s@); }
                        if c > i { assert(self.words()[c] != s@); }
                    }
                }
                return i as u64;
            }
        }
        match self.unkn_value {
            Some(x) => {
                proof {
                    if exists|c: int| 0 <= c < old(self).words().len() && old(self).words()[c] == s@ {
                        let c = choose|c: int| 0 <= c < old(self).words().len() && old(self).words()[c] == s@;
                        assert(self.words()[c] != s@);
                    }
                }
                x as u64
            }
            None => {
                proof {
                    let c = choose|c: int| 0 <= c < old(self).words().len() && old(self).words()[c] == s@;
                    assert(self.words()[c] != s@);
                }
                0
            }
        }
    }
}

impl S3WriterInfo for TxtVariationReader {
    open spec fn info_wf(&self) -> bool {
        self.s3() >= 1
    }

    closed spec fn s3(&self) -> nat {
        self.s3 as nat
    }

    closed spec fn bits(&self) -> nat {
        ceil_bits(self.s3 as u64)
    }

    fn bits_once(&self) -> (r: u8) {
        let s3 = self.s3_once();
        let is_pow_2 = (s3 & (s3 - 1)) == 0;
        let extra: u8 = if is_pow_2 { 0 } else { 1 };
        ilog2(s3) as u8 + extra
    }

    fn s3_once(&self) -> (r: u64) {
        self.s3 as u64
    }
}


impl<W: WriteExt, Rng: RngMinimal> S3WriterRand<W, Rng> for TxtVariationWriter {
    open spec fn writes(&self, x: u64, out: Seq<u8>) -> bool {
        exists|y: int| 0 <= y < self.variation().words().len()
            && y % (self.variation().s3() as int) == x
            && out == encode_utf8(#[trigger] self.variation().words()[y])
    }

    open spec fn writes_left(&self) -> nat {
        u64::MAX as nat
    }

    fn write(&mut self, x: u64, w: &mut W, rng: &mut Rng) {
        let ghost s0 = *self;
        let ghost w0 = w.written();
        let _ = TxtVariationWriter::write(self, x, w, rng);
        proof {
            let y = choose|y: int| 0 <= y < s0.variation().words().len()
                && y % (s0.variation().s3() as int) == x
                && w.written() == w0 + encode_utf8(#[trigger] s0.variation().words()[y]);
            let out = encode_utf8(s0.variation().words()[y]);
            assert(<TxtVariationWriter as S3WriterRand<W, Rng>>::writes(&s0, x, out));
        }
    }
}

/// A word as text: its value is that of [`TxtVariationReader::read`]; the text is not consumed.
impl<'a> S3Reader<&'a str> for TxtVariationReader {
    open spec fn can_read(&self, r: &'a str) -> bool {
        self.default() is Some || last_index_of(self.words(), r@) is Some
    }

    open spec fn reads(&self, before: &'a str, after: &'a str, x: u64) -> bool {
        &&& after@ == before@
        &&& match last_index_of(self.words(), before@) {
            Some(i) => x == i,
            None => x == self.default().unwrap(),
        }
    }

    open spec fn max_value(&self) -> nat {
        self.words().len() + (match self.default() { Some(d) => d as nat, None => 0 })
    }

    fn read(&mut self, r: &mut &'a str) -> (res: Result<u64>) {
        let x = TxtVariationReader::read(self, *r);
        Ok(x)
    }
}

} // verus!
