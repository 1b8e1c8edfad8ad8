//! The errors of this crate.

use vstd::prelude::*;
use vstd::string::*;

use crate::text;
use crate::text::{push_decimal, push_hex};

verus! {

/// `std::io::Error`, carried through without a look inside.
#[verifier::external_type_specification]
#[verifier::external_body]
pub struct ExIoError(std::io::Error);

/// `binrw::Error`, carried through without a look inside.
#[verifier::external_type_specification]
#[verifier::external_body]
pub struct ExLayoutError(binrw::Error);

/// Errors produced by this crate.
#[derive(Debug)]
pub enum MfsError {
    Io(std::io::Error),
    /// The volume signature word (`drSigWord`) was not 0xD2D7.
    BadSignature { found: u16 },
    /// The volume is HFS (`drSigWord` 0x4244), which this crate does not support.
    UnsupportedHfs,
    /// Neither a raw MFS image nor a DiskCopy 4.2 container was recognized.
    UnknownImageFormat,
    /// The DiskCopy 4.2 container is malformed (bad magic, size, or checksum).
    Dc42(String),
    /// The MFS structures are internally inconsistent.
    CorruptVolume(String),
    FileNotFound(String),
    FileExists(String),
    /// The file or volume name is empty, too long, unmappable to MacRoman,
    /// or contains a forbidden character (`:` or NUL).
    InvalidName(String),
    /// Not enough free allocation blocks for the requested write.
    VolumeFull { needed_blocks: u32, free_blocks: u32 },
    /// The file directory region cannot hold another entry.
    DirectoryFull,
    /// The file's locked bit is set; clear it first (`set_locked`).
    FileLocked(String),
    /// The volume attribute word marks the volume as locked.
    VolumeLocked,
    /// Invalid parameters for formatting a new volume.
    InvalidGeometry(String),
}

/// What an [`MfsError`] says, with its texts as sequences of characters.
pub enum Fault {
    Io(std::io::Error),
    BadSignature { found: u16 },
    UnsupportedHfs,
    UnknownImageFormat,
    Dc42(Seq<char>),
    CorruptVolume(Seq<char>),
    FileNotFound(Seq<char>),
    FileExists(Seq<char>),
    InvalidName(Seq<char>),
    VolumeFull { needed_blocks: u32, free_blocks: u32 },
    DirectoryFull,
    FileLocked(Seq<char>),
    VolumeLocked,
    InvalidGeometry(Seq<char>),
}

impl View for MfsError {
    type V = Fault;

    open spec fn view(&self) -> Fault {
        match *self {
            MfsError::Io(e) => Fault::Io(e),
            MfsError::BadSignature { found } => Fault::BadSignature { found },
            MfsError::UnsupportedHfs => Fault::UnsupportedHfs,
            MfsError::UnknownImageFormat => Fault::UnknownImageFormat,
            MfsError::Dc42(m) => Fault::Dc42(m@),
            MfsError::CorruptVolume(m) => Fault::CorruptVolume(m@),
            MfsError::FileNotFound(m) => Fault::FileNotFound(m@),
            MfsError::FileExists(m) => Fault::FileExists(m@),
            MfsError::InvalidName(m) => Fault::InvalidName(m@),
            MfsError::VolumeFull { needed_blocks, free_blocks } => Fault::VolumeFull {
                needed_blocks,
                free_blocks,
            },
            MfsError::DirectoryFull => Fault::DirectoryFull,
            MfsError::FileLocked(m) => Fault::FileLocked(m@),
            MfsError::VolumeLocked => Fault::VolumeLocked,
            MfsError::InvalidGeometry(m) => Fault::InvalidGeometry(m@),
        }
    }
}

/// The outcome of a call, in terms of the views of what it hands back.
pub open spec fn outcome<T: View>(r: Result<T>) -> core::result::Result<T::V, Fault> {
    match r {
        Ok(v) => Ok(v@),
        Err(e) => Err(e@),
    }
}

pub type Result<T> = core::result::Result<T, MfsError>;

/// The sentence an error is reported with, `cause` being what an I/O error
/// says of itself.
pub open spec fn message(f: Fault, cause: Seq<char>) -> Seq<char> {
    match f {
        Fault::Io(_) => "I/O error: "@ + cause,
        Fault::BadSignature { found } => "not an MFS volume: signature "@ + text::hex(found as nat, 4)
            + " (expected 0xd2d7)"@,
        Fault::UnsupportedHfs => "HFS volume detected (signature 0x4244): HFS is not supported"@,
        Fault::UnknownImageFormat => "unrecognized image: neither raw MFS nor DiskCopy 4.2"@,
        Fault::Dc42(m) => "DiskCopy 4.2 container: "@ + m,
        Fault::CorruptVolume(m) => "corrupt MFS volume: "@ + m,
        Fault::FileNotFound(m) => "file not found: "@ + m,
        Fault::FileExists(m) => "file already exists: "@ + m,
        Fault::InvalidName(m) => "invalid name: "@ + m,
        Fault::VolumeFull { needed_blocks, free_blocks } => "volume full: need "@ + text::decimal(
            needed_blocks as nat,
        ) + " allocation blocks, "@ + text::decimal(free_blocks as nat) + " free"@,
        Fault::DirectoryFull => "file directory is full"@,
        Fault::FileLocked(m) => "file is locked: "@ + m,
        Fault::VolumeLocked => "volume is locked"@,
        Fault::InvalidGeometry(m) => "invalid geometry: "@ + m,
    }
}

/// `std::io::Error`'s `to_string`. Nothing is claimed of the text: for an error
/// of the operating system it depends on the machine.
#[verifier::external_body]
fn io_text(e: &std::io::Error) -> String {
    e.to_string()
}

/// The I/O error that a `binrw::Error` was made of: the one inside of
/// `binrw::Error::Io`, and none for every other variant.
pub uninterp spec fn layout_cause(e: binrw::Error) -> Option<std::io::Error>;

/// Takes the I/O error out of a `binrw::Error::Io`, and hands any other
/// `binrw::Error` back as it came.
#[verifier::external_body]
fn layout_io(e: binrw::Error) -> (r: core::result::Result<std::io::Error, binrw::Error>)
    ensures
        r == (match layout_cause(e) {
            Some(io) => Ok::<std::io::Error, binrw::Error>(io),
            None => Err(e),
        }),
{
    match e {
        binrw::Error::Io(io) => Ok(io),
        other => Err(other),
    }
}

/// `binrw::Error`'s `to_string`. Nothing is claimed of the text.
#[verifier::external_body]
fn layout_text(e: &binrw::Error) -> String {
    e.to_string()
}

/// `head` followed by `tail`.
fn joined(head: &str, tail: &str) -> (s: String)
    ensures
        s@ == head@ + tail@,
{
    let mut s = String::from_str(head);
    s.append(tail);
    s
}

impl MfsError {
    /// The sentence this error is reported with. What an I/O error says of
    /// itself is not known here beyond standing behind `I/O error: `.
    pub fn to_string(&self) -> (s: String)
        ensures
            self is Io ==> exists|cause: Seq<char>| s@ == #[trigger] message(self@, cause),
            !(self is Io) ==> s@ == message(self@, Seq::empty()),
    {
        let cause = match self {
            MfsError::Io(e) => io_text(e),
            _ => String::new(),
        };
        self.to_string_with(cause.as_str())
    }

    /// The sentence this error is reported with, `cause` being what an I/O
    /// error says of itself.
    pub fn to_string_with(&self, cause: &str) -> (s: String)
        ensures
            s@ == message(self@, cause@),
    {
        match self {
            MfsError::Io(_) => joined("I/O error: ", cause),
            MfsError::BadSignature { found } => {
                let mut s = String::from_str("not an MFS volume: signature ");
                push_hex(&mut s, *found as u32, 4);
                s.append(" (expected 0xd2d7)");
                s
            },
            MfsError::UnsupportedHfs => String::from_str(
                "HFS volume detected (signature 0x4244): HFS is not supported",
            ),
            MfsError::UnknownImageFormat => String::from_str(
                "unrecognized image: neither raw MFS nor DiskCopy 4.2",
            ),
            MfsError::Dc42(m) => joined("DiskCopy 4.2 container: ", m.as_str()),
            MfsError::CorruptVolume(m) => joined("corrupt MFS volume: ", m.as_str()),
            MfsError::FileNotFound(m) => joined("file not found: ", m.as_str()),
            MfsError::FileExists(m) => joined("file already exists: ", m.as_str()),
            MfsError::InvalidName(m) => joined("invalid name: ", m.as_str()),
            MfsError::VolumeFull { needed_blocks, free_blocks } => {
                let mut s = String::from_str("volume full: need ");
                push_decimal(&mut s, *needed_blocks as u64);
                s.append(" allocation blocks, ");
                push_decimal(&mut s, *free_blocks as u64);
                s.append(" free");
                s
            },
            MfsError::DirectoryFull => String::from_str("file directory is full"),
            MfsError::FileLocked(m) => joined("file is locked: ", m.as_str()),
            MfsError::VolumeLocked => String::from_str("volume is locked"),
            MfsError::InvalidGeometry(m) => joined("invalid geometry: ", m.as_str()),
        }
    }

    /// The I/O error behind this one, if there is one.
    pub fn source(&self) -> (cause: Option<&std::io::Error>)
        ensures
            cause == (match *self {
                MfsError::Io(e) => Some(&e),
                _ => None,
            }),
    {
        match self {
            MfsError::Io(e) => Some(e),
            _ => None,
        }
    }

    /// The error for a layout that could not be read or written: an I/O error
    /// stays one, and anything else is a corrupt volume with that text.
    pub fn from_layout(failure: core::result::Result<std::io::Error, String>) -> (e: MfsError)
        ensures
            e == (match failure {
                Ok(io) => MfsError::Io(io),
                Err(text) => MfsError::CorruptVolume(text),
            }),
    {
        match failure {
            Ok(io) => MfsError::Io(io),
            Err(text) => MfsError::CorruptVolume(text),
        }
    }
}

impl From<std::io::Error> for MfsError {
    fn from(e: std::io::Error) -> (r: MfsError) {
        MfsError::Io(e)
    }
}

impl vstd::std_specs::convert::FromSpecImpl<std::io::Error> for MfsError {
    open spec fn obeys_from_spec() -> bool {
        true
    }

    open spec fn from_spec(e: std::io::Error) -> MfsError {
        MfsError::Io(e)
    }
}

impl From<binrw::Error> for MfsError {
    /// The error for a failed layout: an I/O error stays the one it was, and
    /// anything else is a corrupt volume. What that one says is not stated: it
    /// is the text that the `binrw::Error` has for itself.
    fn from(e: binrw::Error) -> (r: MfsError)
        ensures
            match layout_cause(e) {
                Some(io) => r == MfsError::Io(io),
                None => r is CorruptVolume,
            },
    {
        match layout_io(e) {
            Ok(io) => MfsError::from_layout(Ok(io)),
            Err(other) => MfsError::from_layout(Err(layout_text(&other))),
        }
    }
}

impl vstd::std_specs::convert::FromSpecImpl<binrw::Error> for MfsError {
    open spec fn obeys_from_spec() -> bool {
        false
    }

    open spec fn from_spec(e: binrw::Error) -> MfsError {
        arbitrary()
    }
}

} // verus!
