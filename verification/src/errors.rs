use vstd::prelude::*;

verus! {

/// The closed set of error conditions of the property store.
#[derive(Clone, Copy, Debug, PartialEq, Eq, Structural)]
pub enum PropErrorKind {
    /// A source or overlay file path does not exist or cannot be opened.
    NotFound,
    /// A read or write failed mid-operation.
    IoError,
    /// The cipher key material is under 16 bytes.
    CipherKeyTooShort,
    /// Invalid base64 input, a malformed cipher buffer, or a UTF-8 validation
    /// failure on recovered plaintext bytes.
    CipherDecodeError,
    /// A search-and-replace was requested on a key that has no value.
    KeyNotSet,
}

/// An error of the property store: one of the closed kinds, carrying a
/// human-readable detail string.
#[derive(Debug)]
pub struct PropError {
    pub kind: PropErrorKind,
    pub detail: String,
}

impl PropError {
    /// Builds an error of the given kind with the given detail text.
    pub fn new(kind: PropErrorKind, detail: String) -> (r: PropError)
        ensures
            r.kind == kind,
            r.detail == detail,
    {
        PropError { kind, detail }
    }

    /// The human-readable description of this error.
    pub fn message(&self) -> (r: String)
        ensures
            r@ == self.detail@,
    {
        self.detail.clone()
    }
}

} // verus!
