use vstd::prelude::*;

verus! {

/// The classified outcome of a failed store operation.
#[derive(Debug, Clone, Copy, PartialEq, Eq, Structural)]
pub enum StoreError {
    /// The identifier has no backing file.
    NotFound,
    /// The identifier already exists at write time.
    Conflict,
    /// Ciphertext or image payload could not be decoded.
    DecodeError,
    /// A filesystem failure unrelated to existence.
    IoError,
    /// The identifier-generation retry budget was used up.
    ResourceExhausted,
}

} // verus!
