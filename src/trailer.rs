//! The trailer: where the cross-reference table starts and which object is
//! the document catalog, read from the last bytes of the file.
use vstd::prelude::*;

use crate::lexer;
use crate::object;
use crate::object::{PdfDict, PdfIndirectRef, PdfInteger};
use crate::parser;
use crate::parser::Object;
use crate::raw_byte;
use crate::util::{read_partially, window};

pub mod error;

verus! {

/// Bytes at the end of the file that hold the trailer.
pub const TAIL_SIZE: u64 = 1024;

/// `%%EOF`.
pub open spec fn eof_marker() -> Seq<u8> {
    seq![37u8, 37, 69, 79, 70]
}

/// File offset where the tail that holds the trailer starts.
pub open spec fn tail_start(filesize: int) -> int {
    if filesize > 1024 {
        filesize - 1024
    } else {
        0
    }
}

/// `startxref`.
pub open spec fn startxref_keyword() -> Seq<u8> {
    seq![115u8, 116, 97, 114, 116, 120, 114, 101, 102]
}

/// In `tail`, cut before its last `%%EOF`, the last `startxref` is followed
/// by an integer literal of value `v`.
pub open spec fn xref_offset_written(tail: Seq<u8>, v: int) -> bool {
    exists|j: int, i: int, k: int|
        raw_byte::is_last_match(tail, eof_marker(), j) && raw_byte::is_last_match(
            tail.subrange(0, j),
            startxref_keyword(),
            i,
        ) && #[trigger] lexer::integer_at(tail.subrange(0, j).subrange(i + 9, j), k, v)
}

/// `trailer`.
pub open spec fn trailer_keyword() -> Seq<u8> {
    seq![116u8, 114, 97, 105, 108, 101, 114]
}

/// The text between the first `trailer` of `buffer` and the last
/// `startxref` after it, with its file offset (`buffer` is at `off`).
pub open spec fn trailer_span(buffer: Seq<u8>, off: int) -> Option<(Seq<u8>, int)> {
    if raw_byte::occurs(buffer, trailer_keyword()) {
        let i = choose|i: int| raw_byte::is_first_match(buffer, trailer_keyword(), i);
        let a = buffer.subrange(i + 7, buffer.len() as int);
        if raw_byte::occurs(a, startxref_keyword()) {
            let j = choose|j: int| raw_byte::is_last_match(a, startxref_keyword(), j);
            Some((a.subrange(0, j), off + i + 7))
        } else {
            None
        }
    } else {
        None
    }
}

/// The trailer span of a file tail at file offset `off`: the tail is cut
/// before its last `%%EOF`.
pub open spec fn trailer_of_tail(tail: Seq<u8>, off: int) -> Option<(Seq<u8>, int)> {
    if raw_byte::occurs(tail, eof_marker()) {
        let j = choose|j: int| raw_byte::is_last_match(tail, eof_marker(), j);
        trailer_span(tail.subrange(0, j), off)
    } else {
        None
    }
}

/// What the trailer gives.
#[derive(Debug, Clone, Copy, PartialEq, Eq)]
pub struct Trailer {
    pub xref_start_offset: u64,
    pub xref_entry_num: isize,
    pub root_catalog_ref: PdfIndirectRef,
}

impl Trailer {
    /// The reference to the document catalog.
    pub fn get_root_catalog_ref(&self) -> (r: PdfIndirectRef)
        ensures
            r == self.root_catalog_ref,
    {
        self.root_catalog_ref
    }
}

/// Reads the trailer from the last `TAIL_SIZE` bytes of `source`: everything
/// after the last `%%EOF` is cut off; the dictionary after `trailer` must hold
/// `Size` (an integer) and `Root` (a reference); the integer after the last
/// `startxref` is the offset of the cross-reference table and must be
/// positive.
#[verifier::rlimit(40)]
pub fn parse_trailer(source: &[u8]) -> (r: Result<Trailer, error::Error>)
    ensures
        !raw_byte::occurs(
            window(source@, tail_start(source@.len() as int), 1024),
            eof_marker(),
        ) <==> r matches Err(error::Error::EOFNotFound),
        r matches Ok(t) ==> t.xref_start_offset > 0 && t.root_catalog_ref.object_number > 0
            && xref_offset_written(
            window(source@, tail_start(source@.len() as int), 1024),
            t.xref_start_offset as int,
        ),
        trailer_of_tail(window(source@, tail_start(source@.len() as int), 1024), tail_start(
            source@.len() as int,
        )) matches Some((span, at)) ==> (!parser::window_parses(span, at) ==> r matches Err(
            error::Error::ParseTrailerDict(_),
        )),
        r matches Ok(t) ==> trailer_of_tail(
            window(source@, tail_start(source@.len() as int), 1024),
            tail_start(source@.len() as int),
        ) matches Some((span, at)) && exists|d: PdfDict|
            #[trigger] parser::parses_to(span, at as u64, Object::Dict(d)) && d.spec_get("Root"@) == Some(
                Object::IndirectRef(t.root_catalog_ref),
            ) && (d.spec_get("Size"@) matches Some(Object::Integer(i)) && i.payload == t.xref_entry_num),
        raw_byte::occurs(window(source@, tail_start(source@.len() as int), 1024), eof_marker())
            && trailer_of_tail(window(source@, tail_start(source@.len() as int), 1024), tail_start(
            source@.len() as int,
        )) is None ==> r is Err,
{
    let filesize = source.len() as u64;
    let byte_offset = if filesize > TAIL_SIZE {
        filesize - TAIL_SIZE
    } else {
        0
    };
    let tail = read_partially(source, byte_offset, TAIL_SIZE);
    let marker: &[u8] = &[37u8, 37, 69, 79, 70];
    assert(marker@ =~= eof_marker());
    let buffer = match raw_byte::cut_tail_from(tail, marker) {
        Some(b) => b,
        None => return Err(error::Error::EOFNotFound),
    };
    proof {
        let j = choose|j: int| raw_byte::is_last_match(tail@, eof_marker(), j) && buffer@ == tail@.subrange(0, j);
        let j2 = choose|j: int| raw_byte::is_last_match(tail@, eof_marker(), j);
        raw_byte::lemma_last_match_unique(tail@, eof_marker(), j, j2);
    }
    let may_trailer_dict = parse_trailer_dict(buffer, byte_offset)?;
    let trailer_dict = match PdfDict::ensure_with_key(&may_trailer_dict, vec!["Size", "Root"]) {
        Ok(d) => d,
        Err(e) => return Err(error::Error::Object(e)),
    };
    let xref_entry_num = match trailer_dict.get("Size") {
        Some(o) => match PdfInteger::ensure(o) {
            Ok(i) => i.unpack(),
            Err(e) => return Err(error::Error::Object(e)),
        },
        None => return Err(error::Error::Object(object::Error::DictKeyNotFound("Size"))),
    };
    let root_catalog_ref = match trailer_dict.get("Root") {
        Some(o) => match PdfIndirectRef::ensure(o) {
            Ok(x) => *x,
            Err(e) => return Err(error::Error::Object(e)),
        },
        None => return Err(error::Error::Object(object::Error::DictKeyNotFound("Root"))),
    };
    if root_catalog_ref.object_number == 0 {
        return Err(error::Error::Object(
            object::Error::ValueRestriction { byte_offset: root_catalog_ref.byte_offset },
        ));
    }
    let xref_start_offset = parse_xref_offset(buffer, byte_offset)?;
    proof {
        let j = choose|j: int|
            raw_byte::is_last_match(tail@, eof_marker(), j) && buffer@ == tail@.subrange(0, j);
        let (i, k) = choose|i: int, k: int|
            raw_byte::is_last_match(buffer@, startxref_keyword(), i) && #[trigger] lexer::integer_at(
                buffer@.subrange(i + 9, buffer@.len() as int),
                k,
                xref_start_offset as int,
            );
        assert(buffer@.len() == j);
        assert(lexer::integer_at(tail@.subrange(0, j).subrange(i + 9, j), k, xref_start_offset as int));
    }
    Ok(Trailer { xref_start_offset, xref_entry_num, root_catalog_ref })
}

/// The positive integer after the last `startxref`.
pub fn parse_xref_offset(buffer: &[u8], byte_offset: u64) -> (r: Result<u64, error::Error>)
    requires
        byte_offset + buffer@.len() <= u64::MAX,
    ensures
        !raw_byte::occurs(buffer@, startxref_keyword()) ==> (r matches Err(
            error::Error::StartXRefNotFound,
        )),
        forall|i: int|
            #[trigger] raw_byte::is_last_match(buffer@, startxref_keyword(), i) ==> match parser::first_integer(
                buffer@.subrange(i + 9, buffer@.len() as int),
                byte_offset + i + 9,
            ) {
                Some(v) => if v > 0 {
                    r matches Ok(x) && x == v
                } else {
                    r is Err
                },
                None => r is Err,
            },
        r matches Ok(v) ==> v > 0 && exists|i: int, k: int|
            raw_byte::is_last_match(buffer@, startxref_keyword(), i) && #[trigger] lexer::integer_at(
                buffer@.subrange(i + 9, buffer@.len() as int),
                k,
                v as int,
            ),
        !(r matches Err(error::Error::EOFNotFound)),
{
    let startxref_buffer = match raw_byte::extract_tail_after(
        buffer,
        &[115u8, 116, 97, 114, 116, 120, 114, 101, 102],
    ) {
        Some(b) => b,
        None => return Err(error::Error::StartXRefNotFound),
    };
    let startxref_byte_offset = (buffer.len() - startxref_buffer.len()) as u64 + byte_offset;
    let obj = match object::parse_window(startxref_buffer, startxref_byte_offset) {
        Ok(o) => o,
        Err(e) => return Err(error::Error::ParseXRefOffset(e)),
    };
    let xref_byte_offset = match PdfInteger::ensure(&obj) {
        Ok(i) => i,
        Err(e) => return Err(error::Error::Object(e)),
    };
    if let Err(e) = xref_byte_offset.assert_natural() {
        return Err(error::Error::Object(e));
    }
    proof {
        object::lemma_parsed_integer(startxref_buffer@, startxref_byte_offset, obj);
        let i = choose|i: int|
            raw_byte::is_last_match(buffer@, startxref_keyword(), i) && startxref_buffer@
                == buffer@.subrange(i + 9, buffer@.len() as int);
        let k = choose|k: int| lexer::integer_at(startxref_buffer@, k, xref_byte_offset.payload as int);
        assert(lexer::integer_at(buffer@.subrange(i + 9, buffer@.len() as int), k, xref_byte_offset.payload as int));
    }
    Ok(xref_byte_offset.unpack() as u64)
}

/// The object between `trailer` and the last `startxref` after it.
pub fn parse_trailer_dict(buffer: &[u8], byte_offset: u64) -> (r: Result<parser::Object, error::Error>)
    requires
        byte_offset + buffer@.len() <= u64::MAX,
    ensures
        !raw_byte::occurs(buffer@, seq![116u8, 114, 97, 105, 108, 101, 114]) ==> (r matches Err(
            error::Error::TrailerNotFound,
        )),
        !(r matches Err(error::Error::EOFNotFound)),
        match trailer_span(buffer@, byte_offset as int) {
            Some((span, at)) => (r is Ok) == parser::window_parses(span, at) && (r matches Ok(o)
                ==> parser::parses_to(span, at as u64, o)) && (r matches Err(e) ==> e is ParseTrailerDict),
            None => r is Err,
        },
{
    let keyword: &[u8] = &[116u8, 114, 97, 105, 108, 101, 114];
    assert(keyword@ =~= trailer_keyword());
    let trailer_dict_buffer = match raw_byte::extract_after(buffer, keyword) {
        Some(b) => b,
        None => return Err(error::Error::TrailerNotFound),
    };
    proof {
        let i = choose|i: int|
            raw_byte::is_first_match(buffer@, trailer_keyword(), i) && trailer_dict_buffer@
                == buffer@.subrange(i + 7, buffer@.len() as int);
        let i2 = choose|i: int| raw_byte::is_first_match(buffer@, trailer_keyword(), i);
        raw_byte::lemma_first_match_unique(buffer@, trailer_keyword(), i, i2);
    }
    let ghost after = trailer_dict_buffer@;
    let trailer_dict_byte_offset = (buffer.len() - trailer_dict_buffer.len()) as u64 + byte_offset;
    let startxref: &[u8] = &[115u8, 116, 97, 114, 116, 120, 114, 101, 102];
    assert(startxref@ =~= startxref_keyword());
    let trailer_dict_buffer = match raw_byte::cut_tail_from(trailer_dict_buffer, startxref) {
        Some(b) => b,
        None => return Err(error::Error::StartXRefNotFound),
    };
    proof {
        let j = choose|j: int|
            raw_byte::is_last_match(after, startxref_keyword(), j) && trailer_dict_buffer@
                == after.subrange(0, j);
        let j2 = choose|j: int| raw_byte::is_last_match(after, startxref_keyword(), j);
        raw_byte::lemma_last_match_unique(after, startxref_keyword(), j, j2);
    }
    match object::parse_window(trailer_dict_buffer, trailer_dict_byte_offset) {
        Ok(obj) => Ok(obj),
        Err(e) => Err(error::Error::ParseTrailerDict(e)),
    }
}

} // verus!
