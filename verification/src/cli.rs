//! The command line's arguments as plain values, and the rules that turn them into hiders
//! and revealers.

use vstd::prelude::*;
use crate::error::{Error, Result};
use crate::msg::{Msg, MsgType};
use crate::png::img::ImgPaths;
use crate::png::algo::{DeltaHider, DeltaRevealer};
use crate::png::avg_sum::{AvgSumHider, AvgSumRevealer};
use crate::png::less_sign::{LessSignHider, LessSignRevealer};
use crate::text::repeat::{RepeatCharHider, RepeatCharRevealer, RepeatConstTypo};
use crate::MAX_BIT_PER_CHAN;

verus! {

/// The whole command line.
pub struct Cli {
    pub cmd: CliCmd,
}

pub enum CliCmd {
    /// Hiding in text.
    TxtCmd(TxtArgs),
    /// Hiding in pictures.
    PicCmd(PicArgs),
}

pub struct TxtArgs {
    /// Initial text: the text itself, or a file to read it from.
    pub init: Msg,
    pub cmd: TxtCmd,
}

pub enum TxtCmd {
    RepeatHide {
        /// Message that will be hidden.
        msg: Msg,
        /// Where to save the text with the hidden message.
        modified: Option<String>,
        /// Frequency of a repeat typo.
        bit_freq: usize,
        /// Typo for cases when a character cannot just be repeated.
        typo_a: char,
        /// Second typo for those cases.
        typo_b: char,
    },
    RepeatReveal {
        /// Modified text.
        modified: Msg,
        /// Frequency of a repeat typo.
        bit_freq: usize,
        save: SaveArg,
    },
}

pub struct PicArgs {
    pub info: Info,
    pub cmd: PicCmd,
}

pub enum PicCmd {
    /// Hide a message in pictures by deltas of initial and modified pictures.
    DeltaHide { msg: Msg, arg: DeltaArg },
    /// Reveal a message from the deltas of initial and modified pictures.
    DeltaReveal { save: SaveArg, arg: DeltaArg },
    /// Hide a message in pictures by sums of chunks of channels.
    AvgSumHide { msg: Msg, bits_per_chunk: u8, chunk_size: u8 },
    /// Reveal a message from sums of chunks of channels.
    AvgSumReveal { save: SaveArg },
    /// Hide a message in the least significant bits of channels (or of gray pixels).
    LessSignificantHide { msg: Msg, bits: u8, gray: bool },
    /// Reveal a message from the least significant bits.
    LessSignificantReveal { save: SaveArg },
}

pub struct DeltaArg {
    /// Bits per pixel channel (preferably 1 or 2); not allowed to be more than 4.
    pub bits_per_pixel_chan: u8,
}

pub struct SaveArg {
    /// Where a revealed file is saved (else `file.bin`).
    pub save: Option<String>,
}

impl SaveArg {
    pub fn clone_inner(&self) -> (r: Option<String>)
        ensures
            r == self.save,
    {
        match &self.save {
            Some(s) => Some(s.clone()),
            None => None,
        }
    }
}

pub struct Info {
    /// Paths of the initial pictures.
    pub initial_img: Option<Vec<String>>,
    /// Paths of the modified pictures.
    pub modified_img: Option<Vec<String>>,
}

/// The initial paths, when some were given.
pub open spec fn spec_init_img(initial_img: Option<Vec<String>>) -> Option<Seq<String>> {
    match initial_img {
        Some(v) => if v@.len() == 0 { None } else { Some(v@) },
        None => None,
    }
}

/// The modified paths, when given, are as many as the initial ones.
pub open spec fn consist_len(initial: Seq<String>, modified_img: Option<Vec<String>>) -> bool {
    match modified_img {
        Some(m) => m@.len() == initial.len(),
        None => true,
    }
}

/// The paths where modified pictures go.
pub open spec fn spec_mod_paths(modified_img: Option<Vec<String>>) -> Seq<Seq<char>> {
    match modified_img {
        Some(v) => v@.map_values(|s: String| s@),
        None => Seq::<Seq<char>>::empty(),
    }
}

/// The bytes of a message: a text's UTF-8 bytes, or `file_content` for a file.
pub open spec fn msg_bytes(msg: Msg, file_content: Seq<u8>) -> Seq<u8> {
    match msg {
        Msg::Txt(s) => vstd::utf8::encode_utf8(s@),
        Msg::File(_) => file_content,
    }
}

/// The kind of a message.
pub open spec fn msg_type(msg: Msg) -> MsgType {
    match msg {
        Msg::Txt(_) => MsgType::Txt,
        Msg::File(_) => MsgType::File,
    }
}

/// The error for arguments of another command, with its text.
pub open spec fn is_other(r: Error, text: Seq<char>) -> bool {
    r matches Error::Other(s) && s@ == text
}

impl Cli {
    /// The initial paths; an error when none were given.
    pub fn check_init_img(initial_img: Option<Vec<String>>) -> (r: Result<Vec<String>>)
        ensures
            match spec_init_img(initial_img) {
                Some(v) => r matches Ok(w) && w@ == v,
                None => r == Err::<Vec<String>, Error>(Error::EmptyInit),
            },
    {
        let initial_img = match initial_img {
            Some(v) => v,
            None => return Err(Error::EmptyInit),
        };
        if initial_img.len() == 0 {
            return Err(Error::EmptyInit);
        }
        Ok(initial_img)
    }

    /// The modified paths; an error when none were given.
    pub fn check_mod_img(modified_img: Option<Vec<String>>) -> (r: Result<Vec<String>>)
        ensures
            match modified_img {
                Some(v) => r matches Ok(w) && w@ == v@,
                None => r == Err::<Vec<String>, Error>(Error::EmptyModified),
            },
    {
        match modified_img {
            Some(v) => Ok(v),
            None => Err(Error::EmptyModified),
        }
    }

    /// An error when modified paths were given and are not as many as the initial ones.
    pub fn check_consist_len(initial_img: &Vec<String>, modified_img: &Option<Vec<String>>) -> (r: Result<()>)
        ensures
            consist_len(initial_img@, *modified_img) ==> r is Ok,
            !consist_len(initial_img@, *modified_img) ==> r == Err::<(), Error>(Error::InconsistModLen),
    {
        match modified_img {
            Some(m) => {
                if m.len() != initial_img.len() {
                    return Err(Error::InconsistModLen);
                }
            },
            None => {},
        }
        Ok(())
    }
}

impl DeltaHider {
    /// The hider that the arguments of a delta hide ask for; `file_content` is the content of
    /// the file that the message names, if it names one.
    pub fn try_from(args: PicArgs, file_content: Vec<u8>) -> (r: Result<Self>)
        ensures
            match args.cmd {
                PicCmd::DeltaHide { msg, arg } => match spec_init_img(args.info.initial_img) {
                    None => r == Err::<Self, Error>(Error::EmptyInit),
                    Some(init) => if !consist_len(init, args.info.modified_img) {
                        r == Err::<Self, Error>(Error::InconsistModLen)
                    } else if arg.bits_per_pixel_chan > MAX_BIT_PER_CHAN {
                        r == Err::<Self, Error>(Error::TooBigDelta(arg.bits_per_pixel_chan))
                    } else {
                        r matches Ok(h) && h.msg@ == msg_bytes(msg, file_content@) && h.ty == msg_type(msg)
                            && h.initial_img@ == init && h.modified_img.paths() == spec_mod_paths(args.info.modified_img)
                            && h.bits == (if arg.bits_per_pixel_chan < 1 { 1 } else { arg.bits_per_pixel_chan })
                    },
                },
                _ => r matches Err(e) && is_other(e, "Cannot convert into args: command is not a delta hide."@),
            },
    {
        match args.cmd {
            PicCmd::DeltaHide { msg, arg } => {
                let (msg, ty) = msg.into_pair(file_content);
                let initial_img = Cli::check_init_img(args.info.initial_img)?;
                Cli::check_consist_len(&initial_img, &args.info.modified_img)?;
                let bits = if arg.bits_per_pixel_chan < 1 { 1 } else { arg.bits_per_pixel_chan };
                if arg.bits_per_pixel_chan > MAX_BIT_PER_CHAN {
                    return Err(Error::TooBigDelta(arg.bits_per_pixel_chan));
                }
                Ok(Self { msg, initial_img, modified_img: ImgPaths::new_any(args.info.modified_img), bits, ty })
            },
            _ => Err(Error::Other(String::from_str("Cannot convert into args: command is not a delta hide."))),
        }
    }
}

impl AvgSumHider {
    /// The hider that the arguments of an average-sum hide ask for; `file_content` is the
    /// content of the file that the message names, if it names one.
    pub fn try_from(args: PicArgs, file_content: Vec<u8>) -> (r: Result<Self>)
        ensures
            match args.cmd {
                PicCmd::AvgSumHide { msg, bits_per_chunk, chunk_size } => match spec_init_img(args.info.initial_img) {
                    None => r == Err::<Self, Error>(Error::EmptyInit),
                    Some(init) => if !consist_len(init, args.info.modified_img) {
                        r == Err::<Self, Error>(Error::InconsistModLen)
                    } else {
                        r matches Ok(h) && h.msg@ == msg_bytes(msg, file_content@) && h.ty == msg_type(msg)
                            && h.initial_img@ == init && h.modified_img.paths() == spec_mod_paths(args.info.modified_img)
                            && h.bits_per_chunk == bits_per_chunk && h.chunk_size == chunk_size
                    },
                },
                _ => r matches Err(e) && is_other(e, "Cannot convert into args: command is not an avg sum hide."@),
            },
    {
        match args.cmd {
            PicCmd::AvgSumHide { msg, bits_per_chunk, chunk_size } => {
                let (msg, ty) = msg.into_pair(file_content);
                let initial_img = Cli::check_init_img(args.info.initial_img)?;
                Cli::check_consist_len(&initial_img, &args.info.modified_img)?;
                Ok(Self { msg, ty, initial_img, modified_img: ImgPaths::new_any(args.info.modified_img), bits_per_chunk, chunk_size })
            },
            _ => Err(Error::Other(String::from_str("Cannot convert into args: command is not an avg sum hide."))),
        }
    }
}

impl LessSignHider {
    /// The hider that the arguments of a least-significant-bits hide ask for; `file_content`
    /// is the content of the file that the message names, if it names one.
    pub fn try_from(args: PicArgs, file_content: Vec<u8>) -> (r: Result<Self>)
        ensures
            match args.cmd {
                PicCmd::LessSignificantHide { msg, bits, gray } => match spec_init_img(args.info.initial_img) {
                    None => r == Err::<Self, Error>(Error::EmptyInit),
                    Some(init) => if !consist_len(init, args.info.modified_img) {
                        r == Err::<Self, Error>(Error::InconsistModLen)
                    } else {
                        r matches Ok(h) && h.msg@ == msg_bytes(msg, file_content@) && h.ty == msg_type(msg)
                            && h.initial_img@ == init && h.modified_img.paths() == spec_mod_paths(args.info.modified_img)
                            && h.bits == bits && h.gray == gray
                    },
                },
                _ => r matches Err(e) && is_other(e, "Cannot convert into args: command is not a less significant hide."@),
            },
    {
        match args.cmd {
            PicCmd::LessSignificantHide { msg, bits, gray } => {
                let (msg, ty) = msg.into_pair(file_content);
                let initial_img = Cli::check_init_img(args.info.initial_img)?;
                Cli::check_consist_len(&initial_img, &args.info.modified_img)?;
                Ok(Self { msg, ty, initial_img, modified_img: ImgPaths::new_any(args.info.modified_img), bits, gray })
            },
            _ => Err(Error::Other(String::from_str("Cannot convert into args: command is not a less significant hide."))),
        }
    }
}

impl DeltaRevealer {
    /// The revealer that the arguments of a delta reveal ask for.
    pub fn try_from(args: PicArgs) -> (r: Result<Self>)
        ensures
            match args.cmd {
                PicCmd::DeltaReveal { save, arg } => match spec_init_img(args.info.initial_img) {
                    None => r == Err::<Self, Error>(Error::EmptyInit),
                    Some(init) => if !consist_len(init, args.info.modified_img) {
                        r == Err::<Self, Error>(Error::InconsistModLen)
                    } else {
                        match args.info.modified_img {
                            None => r == Err::<Self, Error>(Error::EmptyModified),
                            Some(m) => r matches Ok(v) && v.initial_img@ == init && v.modified_img@ == m@
                                && v.save_path == save.save && v.bits == arg.bits_per_pixel_chan,
                        }
                    },
                },
                _ => r matches Err(e) && is_other(e, "Cannot convert into args: command is not a delta reveal."@),
            },
    {
        match args.cmd {
            PicCmd::DeltaReveal { save, arg } => {
                let initial_img = Cli::check_init_img(args.info.initial_img)?;
                Cli::check_consist_len(&initial_img, &args.info.modified_img)?;
                let modified_img = Cli::check_mod_img(args.info.modified_img)?;
                Ok(Self { initial_img, modified_img, save_path: save.save, bits: arg.bits_per_pixel_chan })
            },
            _ => Err(Error::Other(String::from_str("Cannot convert into args: command is not a delta reveal."))),
        }
    }
}

impl AvgSumRevealer {
    /// The revealer that the arguments of an average-sum reveal ask for.
    pub fn try_from(args: PicArgs) -> (r: Result<Self>)
        ensures
            match args.cmd {
                PicCmd::AvgSumReveal { save } => match args.info.modified_img {
                    None => r == Err::<Self, Error>(Error::EmptyModified),
                    Some(m) => r matches Ok(v) && v.modified_img@ == m@ && v.save_path == save.save,
                },
                _ => r matches Err(e) && is_other(e, "Cannot convert into args: command is not an avg sum reveal."@),
            },
    {
        match args.cmd {
            PicCmd::AvgSumReveal { save } => {
                let modified_img = Cli::check_mod_img(args.info.modified_img)?;
                Ok(Self { modified_img, save_path: save.save })
            },
            _ => Err(Error::Other(String::from_str("Cannot convert into args: command is not an avg sum reveal."))),
        }
    }
}

impl LessSignRevealer {
    /// The revealer that the arguments of a least-significant-bits reveal ask for.
    pub fn try_from(args: PicArgs) -> (r: Result<Self>)
        ensures
            match args.cmd {
                PicCmd::LessSignificantReveal { save } => match args.info.modified_img {
                    None => r == Err::<Self, Error>(Error::EmptyModified),
                    Some(m) => r matches Ok(v) && v.modified_img@ == m@ && v.save_path == save.save,
                },
                _ => r matches Err(e) && is_other(e, "Cannot convert into args: command is not a less significant reveal."@),
            },
    {
        match args.cmd {
            PicCmd::LessSignificantReveal { save } => {
                let modified_img = Cli::check_mod_img(args.info.modified_img)?;
                Ok(Self { modified_img, save_path: save.save })
            },
            _ => Err(Error::Other(String::from_str("Cannot convert into args: command is not a less significant reveal."))),
        }
    }
}

impl RepeatCharHider<RepeatConstTypo> {
    /// The hider that the arguments of a repeat hide ask for: `init_text` is the initial text
    /// and `msg` the message's bytes, as the arguments name them.
    pub fn try_from(args: TxtArgs, init_text: String, msg: Vec<u8>) -> (r: Result<Self>)
        requires
            args.cmd matches TxtCmd::RepeatHide { typo_a, typo_b, .. } ==> typo_a != typo_b,
        ensures
            match args.cmd {
                TxtCmd::RepeatHide { bit_freq, typo_a, typo_b, .. } => r matches Ok(h) && h.initial@ == init_text@
                    && h.msg@ == msg@ && h.bit_freq == bit_freq && h.typo.first() == typo_a && h.typo.second() == typo_b,
                _ => r matches Err(e) && is_other(e, "Cannot convert into args: command is not a txt repeat hide."@),
            },
    {
        match args.cmd {
            TxtCmd::RepeatHide { bit_freq, typo_a, typo_b, .. } => {
                Ok(Self { initial: init_text, bit_freq, msg, typo: RepeatConstTypo::new(typo_a, typo_b) })
            },
            _ => Err(Error::Other(String::from_str("Cannot convert into args: command is not a txt repeat hide."))),
        }
    }
}

impl RepeatCharRevealer {
    /// The revealer that the arguments of a repeat reveal ask for: `init_text` and
    /// `modified_text` are the texts that the arguments name.
    pub fn try_from(args: TxtArgs, init_text: String, modified_text: String) -> (r: Result<Self>)
        ensures
            match args.cmd {
                TxtCmd::RepeatReveal { bit_freq, .. } => r matches Ok(v) && v.initial@ == init_text@
                    && v.modified@ == modified_text@ && v.bit_freq == bit_freq && !v.with_header,
                _ => r matches Err(e) && is_other(e, "Cannot convert into args: command is not a txt repeat reveal."@),
            },
    {
        match args.cmd {
            TxtCmd::RepeatReveal { bit_freq, .. } => {
                Ok(Self { initial: init_text, modified: modified_text, bit_freq, with_header: false })
            },
            _ => Err(Error::Other(String::from_str("Cannot convert into args: command is not a txt repeat reveal."))),
        }
    }
}

impl Msg {
    /// The message that a command-line argument names: a file after the prefix `file:`, else
    /// the text itself.
    pub fn from_arg(s: &str) -> (r: Msg)
        ensures
            s@.len() >= 5 && s@.subrange(0, 5) == "file:"@ ==> (r matches Msg::File(p) && p@ == s@.subrange(5, s@.len() as int)),
            !(s@.len() >= 5 && s@.subrange(0, 5) == "file:"@) ==> (r matches Msg::Txt(t) && t@ == s@),
    {
        proof { reveal_strlit("file:"); }
        match strip_prefix(s, "file:") {
            Some(rest) => Msg::File(String::from_str(rest)),
            None => Msg::Txt(String::from_str(s)),
        }
    }
}

/// `str::strip_prefix`: the text after `prefix`, when `s` starts with it.
/// Claimed as its documentation says: `Some` of the rest exactly when `s` starts with `prefix`.
#[verifier::external_body]
fn strip_prefix<'a>(s: &'a str, prefix: &str) -> (r: Option<&'a str>)
    ensures
        r is Some <==> (s@.len() >= prefix@.len() && s@.subrange(0, prefix@.len() as int) == prefix@),
        r matches Some(p) ==> p@ == s@.subrange(prefix@.len() as int, s@.len() as int),
{
    s.strip_prefix(prefix)
}

} // verus!
