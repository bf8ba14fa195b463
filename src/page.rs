//! One page: its number, thumbnail and external objects, and the images among
//! them.
use vstd::prelude::*;

use crate::cross_reference::XRef;
use crate::image;
use crate::object;
use crate::object::{PdfDict, PdfIndirectRef, PdfName, PdfStreamObj};
use crate::parser::Object;

verus! {

/// Why a page's images could not be read.
#[derive(Debug)]
pub enum Error {
    Object(object::Error),
    Image(image::Error),
    /// An external object of the page is not an image.
    NotAnImage,
}

/// A page of the document.
#[derive(Debug, Clone, PartialEq)]
pub struct Page {
    pub page_number: usize,
    pub thumbnail: Option<PdfIndirectRef>,
    pub external_objects: Vec<PdfIndirectRef>,
}

impl Page {
    pub fn new(
        page_number: usize,
        thumbnail_ref: Option<PdfIndirectRef>,
        external_objects: Vec<PdfIndirectRef>,
    ) -> (r: Self)
        ensures
            r.page_number == page_number,
            r.thumbnail == thumbnail_ref,
            r.external_objects == external_objects,
    {
        Self { page_number, thumbnail: thumbnail_ref, external_objects }
    }

    pub fn get_page_number(&self) -> (r: usize)
        ensures
            r == self.page_number,
    {
        self.page_number
    }

    /// The images among the page's external objects, in order, leaving out
    /// those that serve as another image's soft mask.
    pub fn extract_images(&self, source: &[u8], xref: &XRef) -> (r: Result<Vec<image::RgbImage>, Error>)
        requires
            xref.wf(),
        ensures
            r matches Ok(v) ==> v@.len() <= self.external_objects@.len(),
    {
        let mut smasks: Vec<PdfIndirectRef> = Vec::new();
        let mut k: usize = 0;
        while k < self.external_objects.len()
            invariant
                xref.wf(),
                k <= self.external_objects@.len(),
            decreases self.external_objects@.len() - k,
        {
            if let Some(smask_ref) = contained_smask_in_xobj(&self.external_objects[k], source, xref)? {
                smasks.push(smask_ref);
            }
            k += 1;
        }
        let mut images: Vec<image::RgbImage> = Vec::new();
        let mut k: usize = 0;
        while k < self.external_objects.len()
            invariant
                xref.wf(),
                k <= self.external_objects@.len(),
                images@.len() <= k,
            decreases self.external_objects@.len() - k,
        {
            let xobj_ref = &self.external_objects[k];
            if !contains_ref(&smasks, xobj_ref) {
                let img = construct_image_from_xobj(xobj_ref, source, xref)?;
                images.push(img);
            }
            k += 1;
        }
        Ok(images)
    }
}

/// Whether `refs` holds a reference to the same object as `r`.
fn contains_ref(refs: &Vec<PdfIndirectRef>, r: &PdfIndirectRef) -> (b: bool)
    ensures
        b == exists|k: int|
            0 <= k < refs@.len() && (#[trigger] refs@[k]).object_number == r.object_number
                && refs@[k].generation_number == r.generation_number,
{
    let mut k: usize = 0;
    while k < refs.len()
        invariant
            k <= refs@.len(),
            forall|m: int|
                0 <= m < k ==> !((#[trigger] refs@[m]).object_number == r.object_number
                    && refs@[m].generation_number == r.generation_number),
        decreases refs@.len() - k,
    {
        if refs[k].object_number == r.object_number && refs[k].generation_number == r.generation_number {
            return true;
        }
        k += 1;
    }
    false
}

/// The dictionary of an external object must have `Subtype` `/Image`.
pub fn assert_xobj_is_image(xobj_dict: &PdfDict) -> (r: Result<(), Error>)
    ensures
        r is Ok <==> (xobj_dict.spec_get("Subtype"@) matches Some(Object::Name(n)) && n.payload@
            == "Image"@),
{
    let subtype = match xobj_dict.get("Subtype") {
        Some(o) => o,
        None => return Err(Error::Object(object::Error::DictKeyNotFound("Subtype"))),
    };
    let subtype = match PdfName::ensure(subtype) {
        Ok(n) => n,
        Err(e) => return Err(Error::Object(e)),
    };
    if !subtype.is("Image") {
        return Err(Error::NotAnImage);
    }
    Ok(())
}

/// Resolves an image XObject and decodes it.
fn construct_image_from_xobj(xobj_ref: &PdfIndirectRef, source: &[u8], xref: &XRef) -> (r: Result<
    image::RgbImage,
    Error,
>)
    requires
        xref.wf(),
{
    let xobj = match xobj_ref.get_indirect_obj(source, xref) {
        Ok(o) => o,
        Err(e) => return Err(Error::Object(e)),
    };
    let xobj = match PdfStreamObj::ensure_stream(&xobj) {
        Ok(s) => s,
        Err(e) => return Err(Error::Object(e)),
    };
    assert_xobj_is_image(&xobj.dict)?;
    let stream_content = match xobj.get_stream(source, xref) {
        Ok(b) => b,
        Err(e) => return Err(Error::Object(e)),
    };
    let image_param = match image::ImageDecodeParam::new(&xobj.dict, source, xref) {
        Ok(p) => p,
        Err(e) => return Err(Error::Image(e)),
    };
    match image::decode_image(&image_param, &stream_content) {
        Ok(img) => Ok(img),
        Err(e) => Err(Error::Image(e)),
    }
}

/// The soft mask an image XObject names, if any.
fn contained_smask_in_xobj(xobj_ref: &PdfIndirectRef, source: &[u8], xref: &XRef) -> (r: Result<
    Option<PdfIndirectRef>,
    Error,
>)
    requires
        xref.wf(),
{
    let xobj = match xobj_ref.get_indirect_obj(source, xref) {
        Ok(o) => o,
        Err(e) => return Err(Error::Object(e)),
    };
    let xobj = match PdfStreamObj::ensure_stream(&xobj) {
        Ok(s) => s,
        Err(e) => return Err(Error::Object(e)),
    };
    assert_xobj_is_image(&xobj.dict)?;
    match xobj.dict.get("SMask") {
        Some(obj) => match PdfIndirectRef::ensure(obj) {
            Ok(x) => Ok(Some(*x)),
            Err(e) => Err(Error::Object(e)),
        },
        None => Ok(None),
    }
}

} // verus!
