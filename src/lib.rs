//! Structural reader for PDF documents: tokenizer, object parser, typed
//! object model, cross-reference table, trailer and object resolution, over a
//! byte source that holds the file.
use vstd::prelude::*;

pub mod cross_reference;
pub mod error;
pub mod header;
pub mod image;
pub mod lexer;
pub mod object;
pub mod page;
pub mod page_tree;
pub mod parser;
pub mod raw_byte;
pub mod trailer;
pub mod util;

use object::{PdfDict, PdfIndirectObj, PdfIndirectRef, PdfStreamObj};
use parser::Object;

verus! {

/// An open document: the byte source, its trailer and its cross-reference
/// table.
pub struct PDF<'a> {
    pub source: &'a [u8],
    pub size: u64,
    pub trailer: trailer::Trailer,
    pub xref: cross_reference::XRef,
}

impl<'a> PDF<'a> {
    pub open spec fn wf(&self) -> bool {
        self.xref.wf() && self.size == self.source@.len()
    }

    /// Opens the document held by `source`: checks the header, reads the
    /// trailer and the cross-reference table it points to.
    pub fn new(source: &'a [u8]) -> (r: Result<PDF<'a>, error::Error>)
        ensures
            r matches Ok(pdf) ==> pdf.wf() && pdf.source == source,
            (r matches Err(error::Error::Header(_))) == !header::valid_header(
                util::window(source@, 0, 15),
            ),
            r matches Ok(pdf) ==> cross_reference::xref_header(
                util::window(source@, pdf.trailer.xref_start_offset as int, 30),
                pdf.trailer.xref_start_offset as int,
            ) == Some(
                (pdf.xref.from as int, pdf.xref.entry_num as int, pdf.xref.actual_start_offset as int),
            ),
            r matches Ok(pdf) ==> pdf.trailer.xref_start_offset > 0 && trailer::xref_offset_written(
                util::window(source@, trailer::tail_start(source@.len() as int), 1024),
                pdf.trailer.xref_start_offset as int,
            ),
            header::valid_header(util::window(source@, 0, 15)) && !raw_byte::occurs(
                util::window(source@, trailer::tail_start(source@.len() as int), 1024),
                trailer::eof_marker(),
            ) ==> r matches Err(error::Error::Trailer(trailer::error::Error::EOFNotFound)),
    {
        let size = source.len() as u64;
        if let Err(e) = header::validate_pdf_header(source) {
            return Err(error::Error::Header(e));
        }
        let trailer = match trailer::parse_trailer(source) {
            Ok(t) => t,
            Err(e) => return Err(error::Error::Trailer(e)),
        };
        let xref = match cross_reference::XRef::new(source, trailer.xref_start_offset) {
            Ok(x) => x,
            Err(e) => return Err(error::Error::Xref(e)),
        };
        Ok(PDF { source, size, trailer, xref })
    }

    /// The object that `indirect_ref` names.
    pub fn resolve(&self, indirect_ref: &PdfIndirectRef) -> (r: Result<Object, error::Error>)
        requires
            self.wf(),
        ensures
            !self.xref.spec_contains(indirect_ref.object_number as int) ==> (r matches Err(
                error::Error::Object(object::Error::XRef(b)),
            ) && *b == cross_reference::Error::NotContain(indirect_ref.object_number)),
            r matches Ok(o) ==> object::resolves_to(self.source@, self.xref, *indirect_ref, o),
            self.xref.spec_contains(indirect_ref.object_number as int) ==> {
                let at = self.xref.spec_entry_offset(indirect_ref.object_number as int);
                let entry = util::window(self.source@, at, 18);
                entry.len() == 18 ==> match cross_reference::entry_value(entry, at) {
                    Some((offset, generation, in_use)) => if !in_use {
                        r matches Err(error::Error::Object(object::Error::XRef(b)))
                            && *b is NotSupporttedEntryType
                    } else if generation != indirect_ref.generation_number {
                        r matches Err(error::Error::Object(object::Error::XRef(b)))
                            && *b is GenerationNumberMisMatch
                    } else {
                        (r is Ok) == object::resolves_within(self.source@, offset, object::WINDOW_STEP as int)
                    },
                    None => r is Err,
                }
            },
    {
        match indirect_ref.get_indirect_obj(self.source, &self.xref) {
            Ok(o) => Ok(o),
            Err(e) => Err(error::Error::Object(e)),
        }
    }

    /// The raw bytes of a stream of this document.
    pub fn read_stream_bytes(&self, stream: &PdfStreamObj) -> (r: Result<Vec<u8>, error::Error>)
        requires
            self.wf(),
        ensures
            r matches Ok(b) ==> b@ == self.source@.subrange(
                stream.byte_offset as int,
                stream.byte_offset + b@.len(),
            ),
            stream.dict.spec_get("Length"@) matches Some(Object::Integer(i)) ==> match r {
                Ok(b) => b@.len() == i.payload,
                Err(e) => (i.payload < 0 && e == error::Error::Object(
                    object::Error::InvalidStreamLength,
                )) || (i.payload >= 0 && stream.byte_offset + i.payload > self.source@.len() && e
                    == error::Error::Object(
                    object::Error::ShortRead { byte_offset: stream.byte_offset },
                )),
            },
            stream.dict.spec_get("Length"@) matches Some(Object::IndirectRef(x)) ==> (r matches Ok(
                b,
            ) ==> object::integer_object_at(self.source@, self.xref, x, b@.len() as int)),
    {
        match stream.get_stream(self.source, &self.xref) {
            Ok(b) => Ok(b),
            Err(e) => Err(error::Error::Object(e)),
        }
    }

    /// The document catalog's page tree.
    pub fn pages(&self) -> (r: Result<page_tree::Pages, error::Error>)
        requires
            self.wf(),
        ensures
            r matches Ok(p) ==> page_tree::numbered_from(p.pages@, 1),
    {
        let root_ref = self.trailer.get_root_catalog_ref();
        let root_obj = match root_ref.get_indirect_obj(self.source, &self.xref) {
            Ok(o) => o,
            Err(e) => return Err(error::Error::Object(e)),
        };
        let root_obj = match PdfIndirectObj::ensure(&root_obj) {
            Ok(x) => x.get_object(),
            Err(e) => return Err(error::Error::Object(e)),
        };
        let root_dict = match PdfDict::ensure_with_key(root_obj, vec!["Type", "Pages"]) {
            Ok(d) => d,
            Err(e) => return Err(error::Error::Object(e)),
        };
        if let Err(e) = root_dict.ensure_type("Catalog") {
            return Err(error::Error::Object(e));
        }
        let pages_ref = match root_dict.get("Pages") {
            Some(o) => match PdfIndirectRef::ensure(o) {
                Ok(x) => x,
                Err(e) => return Err(error::Error::Object(e)),
            },
            None => return Err(error::Error::Object(object::Error::DictKeyNotFound("Pages"))),
        };
        match page_tree::Pages::new(self.source, &self.xref, pages_ref) {
            Ok(p) => Ok(p),
            Err(e) => Err(error::Error::PageTree(e)),
        }
    }

    /// The images of each requested page (numbered from 1), in request order.
    pub fn extract_image(&self, request_pages: &Vec<usize>) -> (r: Result<
        Vec<Vec<image::RgbImage>>,
        error::Error,
    >)
        requires
            self.wf(),
        ensures
            r matches Ok(v) ==> v@.len() == request_pages@.len(),
    {
        let pages = self.pages()?;
        let mut images_of_pages: Vec<Vec<image::RgbImage>> = Vec::new();
        let mut k: usize = 0;
        while k < request_pages.len()
            invariant
                self.wf(),
                page_tree::numbered_from(pages.pages@, 1),
                k <= request_pages@.len(),
                images_of_pages@.len() == k,
            decreases request_pages@.len() - k,
        {
            let page = match pages.get_page(request_pages[k]) {
                Ok(p) => p,
                Err(e) => return Err(error::Error::PageTree(e)),
            };
            match page.extract_images(self.source, &self.xref) {
                Ok(v) => images_of_pages.push(v),
                Err(e) => return Err(error::Error::Page(e)),
            }
            k += 1;
        }
        Ok(images_of_pages)
    }
}

} // verus!
