//! Bounded reads from the byte source.
use vstd::prelude::*;
use vstd::slice::slice_subrange;
use vstd::utf8::{decode_utf8, valid_utf8};

verus! {

/// The bytes that a read of `size` bytes at `offset` gives: those of the
/// source from `offset` on, at most `size` of them, none past its end.
pub open spec fn window(source: Seq<u8>, offset: int, size: int) -> Seq<u8> {
    let start = if offset < source.len() {
        offset
    } else {
        source.len() as int
    };
    let end = if offset + size < source.len() {
        offset + size
    } else {
        source.len() as int
    };
    source.subrange(start, end)
}

/// Reads at most `size` bytes of `source` from `offset` on; fewer where the
/// source ends first.
pub fn read_partially(source: &[u8], offset: u64, size: u64) -> (r: &[u8])
    ensures
        r@ == window(source@, offset as int, size as int),
        r@.len() <= size,
        offset + r@.len() <= u64::MAX,
{
    let n = source.len();
    let start: usize = if (offset as u128) < (n as u128) {
        offset as usize
    } else {
        n
    };
    let end: usize = if (offset as u128) + (size as u128) < (n as u128) {
        (offset + size) as usize
    } else {
        n
    };
    slice_subrange(source, start, end)
}

/// Relies on `std::str::from_utf8`: it succeeds exactly on valid UTF-8 and
/// then holds the decoded characters.
#[verifier::external_body]
pub(crate) fn str_from_utf8(b: &[u8]) -> (r: Option<&str>)
    ensures
        r is Some <==> valid_utf8(b@),
        r matches Some(s) ==> s@ == decode_utf8(b@),
{
    std::str::from_utf8(b).ok()
}

} // verus!
