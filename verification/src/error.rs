//! Error types shared by the whole crate.

use vstd::prelude::*;

verus! {

/// Why a hexadecimal string could not be decoded.
#[derive(Debug, Clone, Copy, PartialEq, Eq, Structural)]
pub enum HexError {
    /// The byte `c` at position `index` is not a hexadecimal digit.
    InvalidHexCharacter { c: char, index: usize },
    /// The string has an odd number of bytes.
    OddLength,
    /// The decoded bytes do not fit the buffer that was offered for them.
    InvalidStringLength,
}

/// Why a container could not be processed.
#[derive(Debug, Clone, Copy, PartialEq, Eq, Structural)]
pub enum Error {
    /// The stream ended in the middle of a fixed-width field.
    Io,
    /// The activation secret is not valid hexadecimal.
    HexDecode,
    /// The secret is wrong, or the file is corrupt.
    CredentialMismatch,
    /// The format variant is recognised but not handled.
    UnsupportedFormat,
    /// A required box (`ftyp`, `moov` or `mdat`) is absent.
    MissingBox,
    /// A declared size or count does not fit the bytes that are present.
    MalformedContainer,
    /// No decryption key was supplied.
    MissingKey,
    /// No initialisation vector was supplied.
    MissingIv,
    /// The key or the initialisation vector is not 16 bytes long.
    InvalidKeyLength,
}

} // verus!
