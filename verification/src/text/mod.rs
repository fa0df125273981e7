//! Hiding bits in text: in typos of a text, and in generated values such as numbers,
//! times and prices.

pub mod str_writer;
pub mod num;
pub mod s3;
pub mod s3_full;
pub mod time;
pub mod price;
pub mod txt_enum;
pub mod s3_rw_ty;
pub mod csv;
pub mod id;
pub mod repeat;
pub mod str_reader;
