//! The library's errors.

use vstd::prelude::*;

verus! {

/// Everything that can go wrong while hiding or revealing a message.
#[derive(Debug, Clone, PartialEq, Eq)]
pub enum Error {
    /// No initial carriers were given.
    EmptyInit,
    /// No modified carriers were given.
    EmptyModified,
    /// The modified paths are not as many as the initial ones.
    InconsistModLen,
    /// The delta is bigger than [`crate::MAX_BIT_PER_CHAN`].
    TooBigDelta(u8),
    /// The message does not fit in 4 GB.
    TooBigMsg,
    /// An image could not be saved (the cause, in words).
    ImageSave(String),
    /// Revealing needs the modified paths too.
    RevealWithoutModified,
    /// Two images that belong together have different sizes: `w0 x h0` and `w1 x h1`.
    ImageInconsistentSize(u32, u32, u32, u32),
    /// The revealed message is not valid UTF-8 text (the cause, in words).
    InvalidMsg(String),
    /// An I/O error (the cause, in words).
    ErrorIO(String),
    /// A revealed file could not be saved: (the cause, the path).
    SaveProblem(String, String),
    /// The byte that names the message's type is not a known one.
    InvalidMsgTypeByte(u8),
    /// The header could not be read (the carriers are too small).
    UnreadedHeader,
    /// The initial carriers are too small; this many more bytes would have to be hidden.
    NotEnoughSizeOfInit(usize),
    /// The message ended early; this many bytes are missing.
    UnfullResult(usize),
    /// The initial text ended before the modified one.
    InconsistentInitText,
    /// A path that should name a file does not.
    PathIsNotAFile(String),
    /// Any other problem, in words.
    Other(String),
}

pub type Result<T> = std::result::Result<T, Error>;

impl Error {
    /// Refuses a message longer than what four bytes can count.
    pub fn test_too_big_msg(msg_len: usize) -> (r: Result<()>)
        ensures
            r is Ok <==> msg_len <= u32::MAX,
            r is Err ==> r == Err::<(), Error>(Error::TooBigMsg),
    {
        if msg_len > u32::MAX as usize {
            Err(Error::TooBigMsg)
        } else {
            Ok(())
        }
    }
}

} // verus!
