//! Errors of the tokenizer.
use vstd::prelude::*;

verus! {

/// Why tokenizing failed.
#[derive(Debug, Clone, Copy, PartialEq, Eq)]
pub enum ErrorKind {
    UnexpectedByte,
    UndefinedKeyword,
    FinishInObject,
    ConfirmStream,
    ParseNumber,
    ParseName,
    ParseHexString,
    InvalidIndirectRef,
}

impl ErrorKind {
    /// The window ended before the token or object did.
    pub open spec fn spec_is_truncation(self) -> bool {
        self is FinishInObject || self is ConfirmStream
    }

    /// Whether the window ended before the token or object did.
    pub fn is_truncation(&self) -> (r: bool)
        ensures
            r == self.spec_is_truncation(),
    {
        match self {
            ErrorKind::FinishInObject | ErrorKind::ConfirmStream => true,
            _ => false,
        }
    }
}

/// A tokenizing failure and the file offset of the token where it occurred.
#[derive(Debug, Clone, Copy, PartialEq, Eq)]
pub struct Error {
    pub kind: ErrorKind,
    pub byte_offset: u64,
}

impl Error {
    pub fn new(kind: ErrorKind, byte_offset: u64) -> (r: Error)
        ensures
            r.kind == kind,
            r.byte_offset == byte_offset,
    {
        Error { kind, byte_offset }
    }
}

} // verus!
