//! Errors of the byte searches.
use vstd::prelude::*;

verus! {

/// Errors of the byte searches.
#[derive(Debug)]
pub enum Error {
    EmptyBuffer,
    EOLNotFound,
    TargetNotFound(Vec<u8>),
}

} // verus!
