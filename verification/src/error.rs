//! What can go wrong inside the library.

use vstd::prelude::*;

verus! {

/// The families that failures fall into.
#[derive(Clone, Copy, Debug, PartialEq, Eq, Structural)]
pub enum ErrorKind {
    /// The service was asked for work before it was set up.
    Config,
    /// The client's stream ended or misbehaved in the middle of a frame.
    Transport,
    /// A command's arguments could not be read.
    Parse,
    /// An image could not be decoded, resized or encoded.
    Codec,
}

/// A failure of one request.
#[derive(Clone, Copy, Debug, PartialEq, Eq, Structural)]
pub enum Error {
    /// No `setup` command has been accepted yet.
    NotSetup,
    /// The stream ended inside a frame.
    Truncated,
    /// More bytes were handed over than the reader had asked for.
    Overrun,
    /// A command came with fewer arguments than it needs.
    MissingArgument,
    /// A width or a height is not a decimal number that fits 32 bits.
    BadInteger,
    /// The source bytes are not an image that the codec can read.
    Decode,
    /// The image or the extent asked for is more than the codec can work on.
    TooLarge,
    /// The image cannot be written as a bitmap.
    Encode,
}

impl Error {
    /// The family of this failure.
    pub open spec fn spec_kind(self) -> ErrorKind {
        match self {
            Error::NotSetup => ErrorKind::Config,
            Error::Truncated | Error::Overrun => ErrorKind::Transport,
            Error::MissingArgument | Error::BadInteger => ErrorKind::Parse,
            Error::Decode | Error::TooLarge | Error::Encode => ErrorKind::Codec,
        }
    }

    /// The family of this failure.
    #[verifier::when_used_as_spec(spec_kind)]
    pub fn kind(self) -> (k: ErrorKind)
        ensures
            k == self.spec_kind(),
    {
        match self {
            Error::NotSetup => ErrorKind::Config,
            Error::Truncated | Error::Overrun => ErrorKind::Transport,
            Error::MissingArgument | Error::BadInteger => ErrorKind::Parse,
            Error::Decode | Error::TooLarge | Error::Encode => ErrorKind::Codec,
        }
    }
}

} // verus!
