//! The error kinds of the library.

use vstd::prelude::*;

verus! {

/// Why an archive could not be opened or an entry could not be served.
#[derive(Clone, Copy, PartialEq, Eq, Debug, Structural)]
pub enum MDictError {
    /// The main path does not name an `.mdx` file, or too many companions were given.
    InvalidInput,
    /// The header or a table is not laid out as the format demands.
    InvalidFormat,
    /// A checksum does not match, a block does not decompress, or text does not decode.
    Corrupt,
    /// A locator reaches beyond the decompressed block it points into.
    OutOfRange,
    /// The archive uses a cipher variant that is not implemented.
    Unsupported,
    /// The key is absent from the index.
    NotFound,
    /// A read reaches beyond the end of the byte source.
    Io,
}

impl MDictError {
    /// A short description of the error, for display by callers.
    pub fn message(&self) -> (text: &'static str)
        ensures
            text@ == match *self {
                MDictError::InvalidInput => "Expect a mdx file"@,
                MDictError::InvalidFormat => "Invalid archive format"@,
                MDictError::Corrupt => "Corrupt archive data"@,
                MDictError::OutOfRange => "Record out of range"@,
                MDictError::Unsupported => "Unsupported cipher"@,
                MDictError::NotFound => "Not found in index"@,
                MDictError::Io => "Read beyond end of archive"@,
            },
    {
        match self {
            MDictError::InvalidInput => "Expect a mdx file",
            MDictError::InvalidFormat => "Invalid archive format",
            MDictError::Corrupt => "Corrupt archive data",
            MDictError::OutOfRange => "Record out of range",
            MDictError::Unsupported => "Unsupported cipher",
            MDictError::NotFound => "Not found in index",
            MDictError::Io => "Read beyond end of archive",
        }
    }

    /// Whether the error belongs to the corruption class: a failed checksum or
    /// decompression, undecodable text, or a locator out of range.
    pub fn is_corruption(&self) -> (yes: bool)
        ensures
            yes == (*self == MDictError::Corrupt || *self == MDictError::OutOfRange),
    {
        match self {
            MDictError::Corrupt => true,
            MDictError::OutOfRange => true,
            _ => false,
        }
    }
}

} // verus!
