//! Errors of the parser.
use vstd::prelude::*;

use crate::lexer::error as lexer_error;

verus! {

/// A parsing failure and the file offset nearest to it.
#[derive(Debug, Clone, Copy, PartialEq, Eq)]
pub struct Error {
    pub kind: ErrorKind,
    pub byte_offset: u64,
}

impl Error {
    pub fn new(kind: ErrorKind, byte_offset: u64) -> (r: Error)
        ensures
            r.kind == kind,
            r.byte_offset == byte_offset,
    {
        Error { kind, byte_offset }
    }

    /// The window ended before the object did: a larger window may succeed.
    pub open spec fn spec_is_recoverable(self) -> bool {
        match self.kind {
            ErrorKind::IndirectObjMissMatch => true,
            ErrorKind::Lexer(e) => e.kind.spec_is_truncation(),
            _ => false,
        }
    }

    /// Whether the window ended before the object did.
    pub fn is_recoverable(&self) -> (r: bool)
        ensures
            r == self.spec_is_recoverable(),
    {
        match self.kind {
            ErrorKind::IndirectObjMissMatch => true,
            ErrorKind::Lexer(e) => e.kind.is_truncation(),
            _ => false,
        }
    }
}

/// Why parsing failed.
#[derive(Debug, Clone, Copy, PartialEq, Eq)]
pub enum ErrorKind {
    NoToken,
    IndirectObjMissMatch,
    UnexpectedToken,
    InvalidStreamObj,
    Lexer(lexer_error::Error),
}

} // verus!
