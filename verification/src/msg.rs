//! The message to hide and the byte that tells its kind.

use vstd::prelude::*;
use crate::error::{Error, Result};

verus! {

/// What is hidden: some text, or the content of a file.
#[derive(Debug, Clone)]
pub enum Msg {
    /// The text of a message itself.
    Txt(String),
    /// Path to the file whose content is the message.
    File(String),
}

/// The kind of a hidden message, as stored in the hidden header.
#[derive(Debug, Clone, Copy, PartialEq, Eq, Structural)]
pub enum MsgType {
    Txt,
    File,
    ReservedPre,
    Reserved,
}

/// The byte that stands for each kind of message.
pub open spec fn spec_msg_type_byte(ty: MsgType) -> u8 {
    match ty {
        MsgType::Txt => 1u8,
        MsgType::File => 2u8,
        MsgType::ReservedPre => 254u8,
        MsgType::Reserved => 255u8,
    }
}

/// The kind that a header byte names, if it names one that can be hidden.
pub open spec fn spec_msg_type_of(byte: u8) -> Option<MsgType> {
    if byte == 1 { Some(MsgType::Txt) } else if byte == 2 { Some(MsgType::File) } else { None }
}

impl Msg {
    pub fn ty(&self) -> (r: MsgType)
        ensures
            r == (match self { Msg::Txt(_) => MsgType::Txt, Msg::File(_) => MsgType::File }),
    {
        match self {
            Msg::Txt(_) => MsgType::Txt,
            Msg::File(_) => MsgType::File,
        }
    }

    /// The message's bytes with its kind: the text's UTF-8 bytes, or `file_content`,
    /// which the caller has read from the file that the message names.
    pub fn into_pair(self, file_content: Vec<u8>) -> (r: (Vec<u8>, MsgType))
        ensures
            match self {
                Msg::Txt(s) => r.0@ == vstd::utf8::encode_utf8(s@) && r.1 == MsgType::Txt,
                Msg::File(_) => r.0@ == file_content@ && r.1 == MsgType::File,
            },
    {
        match self {
            Msg::Txt(s) => (s.as_str().as_bytes_vec(), MsgType::Txt),
            Msg::File(_) => (file_content, MsgType::File),
        }
    }
}

impl MsgType {
    /// The byte that stands for this kind in a header.
    pub fn to_u8(self) -> (r: u8)
        ensures
            r == spec_msg_type_byte(self),
    {
        match self {
            MsgType::Txt => 1,
            MsgType::File => 2,
            MsgType::ReservedPre => 254,
            MsgType::Reserved => 255,
        }
    }

    pub fn is_reserved(self) -> (r: bool)
        ensures
            r == (self == MsgType::ReservedPre || self == MsgType::Reserved),
    {
        match self {
            MsgType::ReservedPre => true,
            MsgType::Reserved => true,
            _ => false,
        }
    }

    pub fn try_from_u8(byte: u8) -> (r: Option<Self>)
        ensures
            r == spec_msg_type_of(byte),
    {
        match byte {
            1 => Some(Self::Txt),
            2 => Some(Self::File),
            _ => None,
        }
    }

    /// The kind named by a header byte, or the error for an unknown byte.
    pub fn from_header_byte(byte: u8) -> (r: Result<Self>)
        ensures
            match spec_msg_type_of(byte) {
                Some(ty) => r == Ok::<MsgType, Error>(ty),
                None => r == Err::<MsgType, Error>(Error::InvalidMsgTypeByte(byte)),
            },
    {
        match Self::try_from_u8(byte) {
            Some(ty) => Ok(ty),
            None => Err(Error::InvalidMsgTypeByte(byte)),
        }
    }
}

} // verus!
