//! Errors of opening and reading a document.
use vstd::prelude::*;

use crate::cross_reference;
use crate::header;
use crate::object;
use crate::page;
use crate::page_tree;
use crate::trailer::error as trailer_error;

verus! {

/// Any failure of the document reader, by the component that failed.
#[derive(Debug)]
pub enum Error {
    Header(header::Error),
    Trailer(trailer_error::Error),
    Xref(cross_reference::Error),
    PageTree(page_tree::Error),
    Object(object::Error),
    Page(page::Error),
}

} // verus!
