//! The header line `%PDF-<major>.<minor>` at the start of the file.
use vstd::prelude::*;
use vstd::utf8::*;

use crate::raw_byte;
use crate::util::{read_partially, str_from_utf8, window};

verus! {

/// Bytes at the start of the file that must hold the header line.
pub const PDF_HEADER_MAX_LENGTH: u64 = 15;

/// Why the header was refused.
#[derive(Debug)]
pub enum Error {
    InvalidHeader(Vec<u8>),
}

/// Whether `%PDF-`, digits, `.`, digits occurs in the text, digits as the
/// regex crate's `\d` reads them.
pub uninterp spec fn header_pattern_found(s: Seq<char>) -> bool;

/// Relies on `regex::Regex::is_match` with the pattern `%PDF-\d+\.\d+`,
/// which is valid: whether the pattern occurs somewhere in `s`.
#[verifier::external_body]
fn matches_header_pattern(s: &str) -> (r: bool)
    ensures
        r == header_pattern_found(s@),
{
    regex::Regex::new(r"%PDF-\d+\.\d+").unwrap().is_match(s)
}

/// The header line is the text before the first line boundary within the
/// first `PDF_HEADER_MAX_LENGTH` bytes; it must be UTF-8 and hold the header
/// pattern.
pub open spec fn valid_header(first: Seq<u8>) -> bool {
    exists|i: int|
        raw_byte::is_first_eol(first, i) && valid_utf8(first.subrange(0, i)) && header_pattern_found(
            decode_utf8(first.subrange(0, i)),
        )
}

/// Checks the header line of `source`.
pub fn validate_pdf_header(source: &[u8]) -> (r: Result<(), Error>)
    ensures
        r is Ok <==> valid_header(window(source@, 0, 15)),
{
    let buffer = read_partially(source, 0, PDF_HEADER_MAX_LENGTH);
    let line = match raw_byte::cut_after_eol(buffer) {
        Some(b) => b,
        None => return Err(Error::InvalidHeader(vstd::slice::slice_to_vec(buffer))),
    };
    let text = match str_from_utf8(line) {
        Some(s) => s,
        None => return Err(Error::InvalidHeader(vstd::slice::slice_to_vec(line))),
    };
    if matches_header_pattern(text) {
        Ok(())
    } else {
        Err(Error::InvalidHeader(vstd::slice::slice_to_vec(line)))
    }
}

} // verus!
