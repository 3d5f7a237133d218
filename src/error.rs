use vstd::prelude::*;

verus! {

/// The three ways reading a block can fail.
#[derive(Debug, Clone, Copy, PartialEq, Eq)]
pub enum Error {
    /// The block's payload is not valid gzip data.
    BGZDecompress,
    /// The byte source ended early (or failed) while a header or a block body was read.
    BGZRead,
    /// The 18 header bytes fail validation; they are carried for diagnostics.
    BGZInvalidHeader([u8; 18]),
}

pub type Result<T, E = Error> = core::result::Result<T, E>;

impl Error {
    /// The description of each kind of failure.
    pub open spec fn message_spec(&self) -> Seq<char> {
        match self {
            Error::BGZDecompress => "Unable to decompress BGZ block"@,
            Error::BGZRead => "Unable to read BGZ block"@,
            Error::BGZInvalidHeader(_) => "Invalid BGZ header"@,
        }
    }

    /// A short human-readable description of the failure.
    pub fn message(&self) -> (r: String)
        ensures
            r@ == self.message_spec(),
    {
        match self {
            Error::BGZDecompress => String::from_str("Unable to decompress BGZ block"),
            Error::BGZRead => String::from_str("Unable to read BGZ block"),
            Error::BGZInvalidHeader(_) => String::from_str("Invalid BGZ header"),
        }
    }
}

} // verus!
