//! The page tree: the pages of the document in order, numbered from 1.
use vstd::prelude::*;

use crate::cross_reference::XRef;
use crate::object;
use crate::object::{PdfArray, PdfDict, PdfIndirectObj, PdfIndirectRef};
use crate::page::Page;
use crate::parser::Object;

verus! {

/// Why the page tree could not be read, or a page not found.
#[derive(Debug)]
pub enum Error {
    PageNotFound(usize),
    Object(object::Error),
    /// A node is neither `/Page` nor `/Pages`, or the tree is deeper than
    /// the document has objects.
    InvalidPageTree,
}

/// The references among `entries`' values, in order.
pub open spec fn indirect_refs(entries: Seq<(String, Object)>) -> Seq<PdfIndirectRef>
    decreases entries.len(),
{
    if entries.len() == 0 {
        seq![]
    } else {
        indirect_refs(entries.drop_last()) + match entries.last().1 {
            Object::IndirectRef(x) => seq![x],
            _ => seq![],
        }
    }
}

/// Pages numbered `first`, `first + 1`, ... in order.
pub open spec fn numbered_from(pages: Seq<Page>, first: int) -> bool {
    forall|k: int| 0 <= k < pages.len() ==> (#[trigger] pages[k]).page_number == first + k
}

/// The pages of a document.
#[derive(Debug)]
pub struct Pages {
    pub pages: Vec<Page>,
}

impl Pages {
    /// Reads the page tree whose root is `root_page_ref`.
    pub fn new(source: &[u8], xref: &XRef, root_page_ref: &PdfIndirectRef) -> (r: Result<Self, Error>)
        requires
            xref.wf(),
        ensures
            r matches Ok(p) ==> numbered_from(p.pages@, 1),
    {
        let pages = Self::parse_page_list(source, xref, root_page_ref)?;
        Ok(Self { pages })
    }

    /// Page `page_number`, counted from 1.
    pub fn get_page(&self, page_number: usize) -> (r: Result<&Page, Error>)
        requires
            numbered_from(self.pages@, 1),
        ensures
            1 <= page_number <= self.pages@.len() ==> (r matches Ok(p) && *p == self.pages@[page_number - 1]
                && p.page_number == page_number),
            !(1 <= page_number <= self.pages@.len()) ==> (r matches Err(Error::PageNotFound(n))
                && n == page_number),
    {
        if page_number == 0 || self.get_page_number() < page_number {
            return Err(Error::PageNotFound(page_number));
        }
        Ok(&self.pages[page_number - 1])
    }

    fn parse_page_list(source: &[u8], xref: &XRef, root_page_ref: &PdfIndirectRef) -> (r: Result<Vec<Page>, Error>)
        requires
            xref.wf(),
        ensures
            r matches Ok(v) ==> numbered_from(v@, 1),
    {
        let root = match root_page_ref.get_indirect_obj(source, xref) {
            Ok(o) => o,
            Err(e) => return Err(Error::Object(e)),
        };
        let root = match PdfIndirectObj::ensure(&root) {
            Ok(x) => x.get_object(),
            Err(e) => return Err(Error::Object(e)),
        };
        let root_dict = match PdfDict::ensure_with_key(root, vec!["Type", "Kids", "Count"]) {
            Ok(d) => d,
            Err(e) => return Err(Error::Object(e)),
        };
        if let Err(e) = root_dict.ensure_type("Pages") {
            return Err(Error::Object(e));
        }
        Self::parse_kids(source, xref, root_dict, 1, xref.entry_num)
    }

    /// The pages under the `Kids` of an intermediate node, numbered from
    /// `start_page_number`.
    fn parse_kids(
        source: &[u8],
        xref: &XRef,
        node_dict: &PdfDict,
        start_page_number: usize,
        depth: usize,
    ) -> (r: Result<Vec<Page>, Error>)
        requires
            xref.wf(),
        ensures
            r matches Ok(v) ==> numbered_from(v@, start_page_number as int),
        decreases depth, 1nat,
    {
        let kids = match node_dict.get("Kids") {
            Some(o) => o,
            None => return Err(Error::Object(object::Error::DictKeyNotFound("Kids"))),
        };
        let kids = match PdfArray::ensure(kids) {
            Ok(a) => a.elements(),
            Err(e) => return Err(Error::Object(e)),
        };
        let mut page_list: Vec<Page> = Vec::new();
        let mut k: usize = 0;
        while k < kids.len()
            invariant
                xref.wf(),
                k <= kids@.len(),
                numbered_from(page_list@, start_page_number as int),
            decreases kids@.len() - k,
        {
            let kid_ref = match PdfIndirectRef::ensure(&kids[k]) {
                Ok(x) => x,
                Err(e) => return Err(Error::Object(e)),
            };
            if page_list.len() > usize::MAX - start_page_number {
                return Err(Error::InvalidPageTree);
            }
            let next = start_page_number + page_list.len();
            let mut sub = Self::parse_page_tree_node(source, xref, kid_ref, next, depth)?;
            let ghost before = page_list@;
            let ghost sub_v = sub@;
            page_list.append(&mut sub);
            proof {
                assert forall|m: int| 0 <= m < page_list@.len() implies (
                #[trigger] page_list@[m]).page_number == start_page_number + m by {
                    if m >= before.len() {
                        assert(page_list@[m] == sub_v[m - before.len()]);
                    }
                }
            }
            k += 1;
        }
        Ok(page_list)
    }

    fn parse_page_tree_node(
        source: &[u8],
        xref: &XRef,
        node_ref: &PdfIndirectRef,
        start_page_number: usize,
        depth: usize,
    ) -> (r: Result<Vec<Page>, Error>)
        requires
            xref.wf(),
        ensures
            r matches Ok(v) ==> numbered_from(v@, start_page_number as int),
        decreases depth, 0nat,
    {
        if depth == 0 {
            return Err(Error::InvalidPageTree);
        }
        let node = match node_ref.get_indirect_obj(source, xref) {
            Ok(o) => o,
            Err(e) => return Err(Error::Object(e)),
        };
        let node = match PdfIndirectObj::ensure(&node) {
            Ok(x) => x.get_object(),
            Err(e) => return Err(Error::Object(e)),
        };
        let node_dict = match PdfDict::ensure_with_key(node, vec!["Type"]) {
            Ok(d) => d,
            Err(e) => return Err(Error::Object(e)),
        };
        if node_dict.ensure_type("Page").is_ok() {
            let page = Self::parse_page_node(node_dict, start_page_number)?;
            let mut page_list: Vec<Page> = Vec::new();
            page_list.push(page);
            Ok(page_list)
        } else if node_dict.ensure_type("Pages").is_ok() {
            Self::parse_kids(source, xref, node_dict, start_page_number, depth - 1)
        } else {
            Err(Error::InvalidPageTree)
        }
    }

    /// A leaf of the tree as page `page_number`.
    pub fn parse_page_node(node_dict: &PdfDict, page_number: usize) -> (r: Result<Page, Error>)
        ensures
            r matches Ok(p) ==> p.page_number == page_number,
    {
        let external_objects = Self::extract_external_objects(node_dict)?;
        let may_thumbnail_ref = Self::extract_thumbnail_ref(node_dict)?;
        Ok(Page::new(page_number, may_thumbnail_ref, external_objects))
    }

    /// The references among the entries of the page's `Resources` /
    /// `XObject` dictionary; none where either is absent.
    pub fn extract_external_objects(node_dict: &PdfDict) -> (r: Result<Vec<PdfIndirectRef>, Error>)
        ensures
            node_dict.spec_get("Resources"@) is None ==> (r matches Ok(v) && v@.len() == 0),
            node_dict.spec_get("Resources"@) matches Some(Object::Dict(res)) ==> match res.spec_get(
                "XObject"@,
            ) {
                None => r matches Ok(v) && v@.len() == 0,
                Some(Object::Dict(x)) => r matches Ok(v) && v@ == indirect_refs(x.payload@),
                Some(_) => r is Err,
            },
    {
        let mut external_objects: Vec<PdfIndirectRef> = Vec::new();
        if let Some(resource_obj) = node_dict.get("Resources") {
            let resource_dict = match PdfDict::ensure_with_key(resource_obj, vec![]) {
                Ok(d) => d,
                Err(e) => return Err(Error::Object(e)),
            };
            if let Some(xobj_obj) = resource_dict.get("XObject") {
                let xobj_dict = match PdfDict::ensure_with_key(xobj_obj, vec![]) {
                    Ok(d) => d,
                    Err(e) => return Err(Error::Object(e)),
                };
                let entries = xobj_dict.iter();
                let mut k: usize = 0;
                while k < entries.len()
                    invariant
                        k <= entries@.len(),
                        external_objects@ == indirect_refs(entries@.subrange(0, k as int)),
                    decreases entries@.len() - k,
                {
                    proof {
                        let s = entries@.subrange(0, k + 1);
                        assert(s.drop_last() =~= entries@.subrange(0, k as int));
                        assert(s.last() == entries@[k as int]);
                    }
                    if let Object::IndirectRef(x) = &entries[k].1 {
                        external_objects.push(*x);
                    }
                    k += 1;
                }
                assert(entries@.subrange(0, entries@.len() as int) =~= entries@);
            }
        }
        Ok(external_objects)
    }

    /// The page's `Thumb` reference, if it has one.
    pub fn extract_thumbnail_ref(node_dict: &PdfDict) -> (r: Result<Option<PdfIndirectRef>, Error>)
        ensures
            match node_dict.spec_get("Thumb"@) {
                None => r == Ok::<Option<PdfIndirectRef>, Error>(None),
                Some(Object::IndirectRef(x)) => r == Ok::<Option<PdfIndirectRef>, Error>(Some(x)),
                Some(_) => r is Err,
            },
    {
        match node_dict.get("Thumb") {
            Some(thumbnail_ref) => match PdfIndirectRef::ensure(thumbnail_ref) {
                Ok(x) => Ok(Some(*x)),
                Err(e) => Err(Error::Object(e)),
            },
            None => Ok(None),
        }
    }

    /// Number of pages.
    pub fn get_page_number(&self) -> (r: usize)
        ensures
            r == self.pages@.len(),
    {
        self.pages.len()
    }
}

} // verus!
