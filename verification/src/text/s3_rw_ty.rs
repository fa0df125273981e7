//! The kinds of generated values that a line of text is made of.

use vstd::prelude::*;
use crate::text::time::{TimeFormat, S3TimeWriter};
use crate::text::price::{PricePostfixInfo, FracVariation, S3IntPriceWriter, S3FloatPriceWriter, spec_frac_s3};
use crate::text::id::IdWriter;
use crate::text::num::{S3NumsWriter, S3RevNumsWriter, pow10};
use crate::text::s3::S3WriterRandWrap;
use crate::text::s3_full::S3TypeWriter;

verus! {

/// One kind of generated value, with what is needed to write it.
pub enum S3Type {
    Time(TimeFormat),
    IntPrice { int_len: u8, prefix_range: u8, postfix: PricePostfixInfo },
    FloatPrice { int_len: u8, prefix_range: u8, postfix: PricePostfixInfo, frac: FracVariation },
    Id { prefix_start_from: u32, hide_len: u8, postfix_len: u8 },
    IntNumRev { num_len: u8, zeroed: bool },
    IntNum { num_len: u8, zeroed: bool },
    /// A kind made by a constructor registered under `dyn_id`, from `args`.
    Dyn { dyn_id: u32, args: Vec<u8> },
}

/// Whether a writer can be made for kind `t`: not a kind made by a registered constructor,
/// and lengths that the writers take.
pub open spec fn writable(t: S3Type) -> bool {
    match t {
        S3Type::Time(_) => true,
        S3Type::IntPrice { int_len, .. } => 1 <= int_len <= 19,
        S3Type::FloatPrice { int_len, frac, .. } => 1 <= int_len <= 19 && pow10(int_len as nat) * spec_frac_s3(frac) <= u64::MAX,
        S3Type::Id { hide_len, .. } => hide_len <= 19,
        S3Type::IntNumRev { num_len, .. } => num_len <= 19,
        S3Type::IntNum { num_len, .. } => num_len <= 19,
        S3Type::Dyn { .. } => false,
    }
}

/// Whether `w` is the writer of kind `t`, made with the kind's parameters.
pub open spec fn writer_of(t: S3Type, w: S3TypeWriter) -> bool {
    match t {
        S3Type::Time(fmt) => w matches S3TypeWriter::Time(x) && x.0.format() == fmt,
        S3Type::IntPrice { int_len, prefix_range, postfix } => w matches S3TypeWriter::IntPrice(x) && x.wf()
            && x.int_len() == int_len && x.min_prefix() == 0 && x.prefix_range() == prefix_range && x.postfix() == postfix,
        S3Type::FloatPrice { int_len, prefix_range, postfix, frac } => w matches S3TypeWriter::FloatPrice(x) && x.wf()
            && x.int_part().int_len() == int_len && x.int_part().min_prefix() == 0
            && x.int_part().prefix_range() == prefix_range && x.int_part().postfix() == postfix
            && x.frac_variation() == frac,
        S3Type::Id { prefix_start_from, hide_len, postfix_len } => w matches S3TypeWriter::Id(x) && x.wf()
            && x.prefix() == (if prefix_start_from < 1 { 1u64 } else { prefix_start_from as u64 })
            && x.hide_len() == hide_len && x.postfix_len() == postfix_len,
        S3Type::IntNumRev { num_len, zeroed } => w matches S3TypeWriter::IntNumRev(x) && x.0.wf()
            && x.0.len() == num_len && x.0.zeroed() == zeroed && !x.0.allow_empty(),
        S3Type::IntNum { num_len, zeroed } => w matches S3TypeWriter::IntNum(x) && x.0.wf()
            && x.0.len() == num_len && x.0.zeroed() == zeroed,
        S3Type::Dyn { .. } => false,
    }
}

impl S3Type {
    /// The writer of this kind (a kind made by a registered constructor has none here).
    pub fn to_writer(&self) -> (r: S3TypeWriter)
        requires
            writable(*self),
        ensures
            writer_of(*self, r),
    {
        match self {
            S3Type::Time(fmt) => S3TypeWriter::Time(S3WriterRandWrap(S3TimeWriter::new(*fmt))),
            S3Type::IntPrice { int_len, prefix_range, postfix } =>
                S3TypeWriter::IntPrice(S3IntPriceWriter::new(*int_len, *prefix_range, *postfix)),
            S3Type::FloatPrice { int_len, prefix_range, postfix, frac } =>
                S3TypeWriter::FloatPrice(S3FloatPriceWriter::new(S3IntPriceWriter::new(*int_len, *prefix_range, *postfix), *frac)),
            S3Type::Id { prefix_start_from, hide_len, postfix_len } =>
                S3TypeWriter::Id(IdWriter::new(*prefix_start_from as u64, *hide_len, *postfix_len)),
            S3Type::IntNumRev { num_len, zeroed } => S3TypeWriter::IntNumRev(S3WriterRandWrap(S3RevNumsWriter::new(*num_len, *zeroed))),
            S3Type::IntNum { num_len, zeroed } => S3TypeWriter::IntNum(S3WriterRandWrap(S3NumsWriter::new(*num_len, *zeroed))),
            S3Type::Dyn { .. } => unreached(),
        }
    }

    pub fn new_time(fmt: TimeFormat) -> (r: Self)
        ensures
            r == S3Type::Time(fmt),
    {
        Self::Time(fmt)
    }

    pub fn new_price_int(int_len: u8, prefix_range: u8, postfix: PricePostfixInfo) -> (r: Self)
        ensures
            r == (S3Type::IntPrice { int_len, prefix_range, postfix }),
    {
        Self::IntPrice { int_len, prefix_range, postfix }
    }

    pub fn new_price_float(int_len: u8, prefix_range: u8, postfix: PricePostfixInfo, frac: FracVariation) -> (r: Self)
        ensures
            r == (S3Type::FloatPrice { int_len, prefix_range, postfix, frac }),
    {
        Self::FloatPrice { int_len, prefix_range, postfix, frac }
    }

    pub fn new_id(prefix_start_from: u32, hide_len: u8, postfix_len: u8) -> (r: Self)
        ensures
            r == (S3Type::Id { prefix_start_from, hide_len, postfix_len }),
    {
        Self::Id { prefix_start_from, hide_len, postfix_len }
    }

    pub fn new_int_num(num_len: u8, zeroed: bool) -> (r: Self)
        ensures
            r == (S3Type::IntNum { num_len, zeroed }),
    {
        Self::IntNum { num_len, zeroed }
    }

    pub fn new_int_num_rev(num_len: u8, zeroed: bool) -> (r: Self)
        ensures
            r == (S3Type::IntNumRev { num_len, zeroed }),
    {
        Self::IntNumRev { num_len, zeroed }
    }

    pub fn new_dyn(dyn_id: u32, args: Vec<u8>) -> (r: Self)
        ensures
            r matches S3Type::Dyn { dyn_id: d, args: a } && d == dyn_id && a@ == args@,
    {
        Self::Dyn { dyn_id, args }
    }

    pub fn is_dyn(&self) -> (r: bool)
        ensures
            r == (self is Dyn),
    {
        match self {
            Self::Dyn { .. } => true,
            _ => false,
        }
    }
}

/// The kinds of the values of a line, in order.
pub struct S3Signature {
    s3_types: Vec<S3Type>,
}

impl S3Signature {
    pub closed spec fn types(&self) -> Seq<S3Type> {
        self.s3_types@
    }

    pub fn new() -> (r: Self)
        ensures
            r.types() == Seq::<S3Type>::empty(),
    {
        Self::with_capacity(10)
    }

    /// An empty signature (`capacity` is a hint).
    pub fn with_capacity(capacity: usize) -> (r: Self)
        ensures
            r.types() == Seq::<S3Type>::empty(),
    {
        Self { s3_types: Vec::new() }
    }

    pub fn add_s3_type(&mut self, s3_type: S3Type)
        ensures
            final(self).types() == old(self).types().push(s3_type),
    {
        self.s3_types.push(s3_type);
    }

    /// The writers of the kinds, in order.
    pub fn writers(&self) -> (r: Vec<S3TypeWriter>)
        requires
            forall|i: int| 0 <= i < self.types().len() ==> writable(#[trigger] self.types()[i]),
        ensures
            r@.len() == self.types().len(),
            forall|i: int| 0 <= i < r@.len() ==> writer_of(self.types()[i], #[trigger] r@[i]),
    {
        let mut r: Vec<S3TypeWriter> = Vec::new();
        let mut i: usize = 0;
        while i < self.s3_types.len()
            invariant
                i <= self.s3_types@.len(),
                forall|j: int| 0 <= j < self.types().len() ==> writable(#[trigger] self.types()[j]),
                r@.len() == i,
                forall|j: int| 0 <= j < r@.len() ==> writer_of(self.types()[j], #[trigger] r@[j]),
            decreases self.s3_types@.len() - i,
        {
            assert(writable(self.types()[i as int]));
            let w = self.s3_types[i].to_writer();
            r.push(w);
            i = i + 1;
        }
        r
    }
}

} // verus!
