//! What decoding can fail with.

use vstd::prelude::*;
use vstd::string::*;

use crate::text;

verus! {

/// A read that could not be completed.
#[derive(Debug, PartialEq, Eq)]
pub enum IoError {
    /// The data ends before the read does.
    UnexpectedEof,
    /// Anything else a source of bytes reports, in its own words.
    Other(String),
}

/// Why four bytes are not a name.
#[derive(Debug, Clone, Copy, PartialEq, Eq, Structural)]
pub enum NameError {
    /// Too many bytes, or none.
    InvalidSize,
    /// A byte is zero.
    InvalidNull,
    /// A byte is not ASCII.
    NonAscii,
}

/// Why the decoder rejects an input.
#[derive(Debug, PartialEq, Eq)]
pub enum Error {
    /// The data does not begin with the signature.
    InvalidMagic,
    /// The name is not four ASCII bytes.
    InvalidName(NameError),
    /// The size in the header is not the size of the data.
    SizeMismatch { true_size: u32, internal_size: u32 },
    /// The number of segment slots is not four.
    InvalidNumSegments(u8),
    /// A byte of padding is not zero.
    NonZeroPadding,
    /// The data could not be read.
    Io(IoError),
}

/// A construct that the format allows and this decoder has no representation for.
#[derive(Debug, Clone, Copy, PartialEq, Eq, Structural)]
pub enum Fault {
    /// A random jump (command `0xFC`).
    JumpRandom,
    /// A subroutine whose commands begin before the sequence that calls it.
    SubroutineBeforeStart,
    /// A command so far into its sequence that its offset has no key.
    OffsetOverflow,
}

/// Why an input was not decoded.
#[derive(Debug, PartialEq, Eq)]
pub enum Failure {
    /// The input is not valid.
    Rejected(Error),
    /// The input holds something that is not supported.
    Unsupported(Fault),
}

/// The error of a read past the end of the data.
pub open spec fn eof() -> Error {
    Error::Io(IoError::UnexpectedEof)
}

impl From<IoError> for Error {
    fn from(io: IoError) -> (r: Error) {
        Error::Io(io)
    }
}

impl vstd::std_specs::convert::FromSpecImpl<IoError> for Error {
    open spec fn obeys_from_spec() -> bool {
        true
    }

    open spec fn from_spec(io: IoError) -> Error {
        Error::Io(io)
    }
}

/// What [`Error::message`] says.
pub open spec fn message_of(error: Error) -> Seq<char> {
    match error {
        Error::InvalidMagic => "Missing 'BGM' signature at start of file"@,
        Error::InvalidName(_) => "Invalid name string, must be 4 ASCII bytes"@,
        Error::SizeMismatch { true_size, internal_size } => "The file says it is "@ + text::digits(
            internal_size as nat,
            10,
        ) + "B, but it is actually "@ + text::digits(true_size as nat, 10) + "B"@,
        Error::InvalidNumSegments(num_segments) =>
            "Exactly 4 segment slots are supported, but this file has "@ + text::digits(
            num_segments as nat,
            10,
        ),
        Error::NonZeroPadding => "Expected padding but found non-zero byte(s)"@,
        Error::Io(IoError::UnexpectedEof) => "Unexpected end-of-file"@,
        Error::Io(IoError::Other(message)) => message@,
    }
}

impl Error {
    /// The error in words.
    pub fn message(&self) -> (r: String)
        ensures
            r@ == message_of(*self),
    {
        match self {
            Error::InvalidMagic => "Missing 'BGM' signature at start of file".to_owned(),
            Error::InvalidName(_) => "Invalid name string, must be 4 ASCII bytes".to_owned(),
            Error::SizeMismatch { true_size, internal_size } => {
                let mut out = "The file says it is ".to_owned();
                text::push_decimal(&mut out, *internal_size as u64);
                out.append("B, but it is actually ");
                text::push_decimal(&mut out, *true_size as u64);
                out.append("B");
                out
            },
            Error::InvalidNumSegments(num_segments) => {
                let mut out =
                    "Exactly 4 segment slots are supported, but this file has ".to_owned();
                text::push_decimal(&mut out, *num_segments as u64);
                out
            },
            Error::NonZeroPadding => "Expected padding but found non-zero byte(s)".to_owned(),
            Error::Io(source) => match source {
                IoError::UnexpectedEof => "Unexpected end-of-file".to_owned(),
                IoError::Other(message) => message.clone(),
            },
        }
    }

    /// The failed read behind the error, if that is what it stands for.
    pub fn source(&self) -> (r: Option<&IoError>)
        ensures
            r == (match *self {
                Error::Io(source) => Some(&source),
                _ => None,
            }),
    {
        match self {
            Error::Io(source) => Some(source),
            _ => None,
        }
    }
}

/// `r` with its error as a [`Failure::Rejected`].
pub open spec fn rejecting<T>(r: Result<T, Error>) -> Result<T, Failure> {
    match r {
        Ok(value) => Ok(value),
        Err(e) => Err(Failure::Rejected(e)),
    }
}

/// An error is a rejection.
pub(crate) fn reject<T>(r: Result<T, Error>) -> (out: Result<T, Failure>)
    ensures
        out == rejecting(r),
{
    match r {
        Ok(value) => Ok(value),
        Err(e) => Err(Failure::Rejected(e)),
    }
}

/// Whether decoding comes to an end that is not a [`Fault`].
pub open spec fn is_supported<T>(r: Result<T, Failure>) -> bool {
    match r {
        Err(Failure::Unsupported(_)) => false,
        _ => true,
    }
}

impl Failure {
    /// The error behind a rejection.
    pub(crate) fn into_error(self) -> (r: Error)
        requires
            self is Rejected,
        ensures
            self == Failure::Rejected(r),
    {
        match self {
            Failure::Rejected(e) => e,
            Failure::Unsupported(_) => vstd::pervasive::unreached(),
        }
    }
}

} // verus!
