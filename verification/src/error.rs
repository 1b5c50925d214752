//! The errors of the bit streams and packets.
use vstd::prelude::*;

verus! {

/// What went wrong.
#[derive(Debug, Copy, Clone, PartialEq, Eq, Structural)]
pub enum Error {
    /// A read went past the end of the stream.
    BitStreamEos,
    /// A packet had no ID.
    MissingID,
    /// A packet had no ID after its timestamp.
    MissingTimedID,
}

/// The outcome of a read.
pub type Result<T> = std::result::Result<T, Error>;

impl Error {
    /// The message that describes the error.
    pub fn message(&self) -> (r: &'static str)
        ensures
            r@ == match self {
                Error::BitStreamEos => "BitStream read past EOS"@,
                Error::MissingID => "Missing packet ID"@,
                Error::MissingTimedID => "Missing packet ID after timestamp"@,
            },
    {
        match self {
            Error::BitStreamEos => "BitStream read past EOS",
            Error::MissingID => "Missing packet ID",
            Error::MissingTimedID => "Missing packet ID after timestamp",
        }
    }
}

} // verus!
