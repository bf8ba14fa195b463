//! Errors of the trailer reader.
use vstd::prelude::*;

use crate::object;
use crate::parser::error as parser_error;

verus! {

/// Why the trailer could not be read.
#[derive(Debug)]
pub enum Error {
    EOFNotFound,
    StartXRefNotFound,
    TrailerNotFound,
    ParseXRefOffset(parser_error::Error),
    ParseTrailerDict(parser_error::Error),
    Object(object::Error),
}

} // verus!
