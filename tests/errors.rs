use pdf_parser::cross_reference::{Error as XRefError, XRef};
use pdf_parser::error::Error;
use pdf_parser::image::{colorspace_of, ColorSpace, Error as ImageError};
use pdf_parser::object::{PdfDict, PdfIndirectRef, PdfName};
use pdf_parser::page::{assert_xobj_is_image, Error as PageError};
use pdf_parser::page_tree::Error as TreeError;
use pdf_parser::parser::Parser;
use pdf_parser::trailer::error::Error as TrailerError;
use pdf_parser::trailer::{parse_trailer, parse_trailer_dict, parse_xref_offset};
use pdf_parser::PDF;

fn with_objects(objects: &[&str]) -> Vec<u8> {
    let mut out: Vec<u8> = b"%PDF-1.4\n".to_vec();
    let mut offsets = vec![];
    for (i, body) in objects.iter().enumerate() {
        offsets.push(out.len());
        out.extend_from_slice(format!("{} 0 obj\n{}\nendobj\n", i + 1, body).as_bytes());
    }
    let xref_at = out.len();
    out.extend_from_slice(format!("xref\n1 {}\n", objects.len()).as_bytes());
    for off in &offsets {
        out.extend_from_slice(format!("{:010} 00000 n\r\n", off).as_bytes());
    }
    out.extend_from_slice(
        format!("trailer\n<</Size {} /Root 1 0 R>>\nstartxref\n{}\n%%EOF\n", objects.len() + 1, xref_at)
            .as_bytes(),
    );
    out
}

#[test]
fn entry_type_must_be_n_or_f() {
    let x = XRef { actual_start_offset: 0, from: 1, entry_num: 1 };
    let source = b"0000000009 00000 x\r\n";
    assert!(matches!(
        x.get_byte_offset(source, &PdfIndirectRef::new(1, 0, 0)),
        Err(XRefError::InvalidEntryType(120))
    ));
    let source = b"00000000z9 00000 n\r\n";
    assert!(matches!(
        x.get_byte_offset(source, &PdfIndirectRef::new(1, 0, 0)),
        Err(XRefError::Parser(_))
    ));
    let source = b"0000000009 00000 n\r\n";
    assert_eq!(x.get_byte_offset(source, &PdfIndirectRef::new(1, 0, 0)).unwrap(), 9);
}

#[test]
fn xref_header_needs_integers() {
    assert!(matches!(XRef::new(b"xref\n/a 2\n", 0), Err(XRefError::Object(_))));
    assert!(matches!(XRef::new(b"xref\n12\n", 0), Err(XRefError::SubsectionNotFound)));
}

#[test]
fn trailer_parse_failures() {
    assert!(matches!(
        parse_xref_offset(b"startxref (abc", 0),
        Err(TrailerError::ParseXRefOffset(_))
    ));
    assert!(matches!(parse_xref_offset(b"startxref /X", 0), Err(TrailerError::Object(_))));
    assert_eq!(parse_xref_offset(b"startxref 512 ", 0).unwrap(), 512);
    assert!(matches!(
        parse_trailer_dict(b"trailer <</Size (1 startxref", 0),
        Err(TrailerError::ParseTrailerDict(_))
    ));
    assert!(matches!(
        parse_trailer(b"trailer 5 startxref 9 %%EOF"),
        Err(TrailerError::Object(_))
    ));
}

#[test]
fn open_reports_each_stage() {
    assert!(matches!(PDF::new(b"hello\n"), Err(Error::Header(_))));
    assert!(matches!(PDF::new(b"%PDF-1.4\nno trailer"), Err(Error::Trailer(_))));
    assert!(matches!(
        PDF::new(b"%PDF-1.4\ntrailer <</Size 1 /Root 1 0 R>> startxref 9 %%EOF"),
        Err(Error::Xref(_))
    ));
}

#[test]
fn page_tree_node_kinds() {
    let source = with_objects(&[
        "<</Type /Catalog /Pages 2 0 R>>",
        "<</Type /Pages /Kids [3 0 R] /Count 1>>",
        "<</Type /Outline>>",
    ]);
    let pdf = PDF::new(&source).unwrap();
    assert!(matches!(pdf.pages(), Err(Error::PageTree(TreeError::InvalidPageTree))));

    let source = with_objects(&[
        "<</Type /Catalog /Pages 2 0 R>>",
        "<</Type /Pages /Kids [2 0 R] /Count 1>>",
    ]);
    let pdf = PDF::new(&source).unwrap();
    assert!(matches!(pdf.pages(), Err(Error::PageTree(TreeError::InvalidPageTree))));

    let source = with_objects(&["<</Type /Outlines /Pages 2 0 R>>"]);
    let pdf = PDF::new(&source).unwrap();
    assert!(matches!(pdf.pages(), Err(Error::Object(_))));
}

#[test]
fn image_dictionary_checks() {
    let mut p = Parser::new(b"<</Subtype /Form>>", 0).unwrap();
    let obj = p.parse().unwrap();
    let dict = PdfDict::ensure_with_key(&obj, vec!["Subtype"]).unwrap();
    assert!(matches!(assert_xobj_is_image(dict), Err(PageError::NotAnImage)));

    let mut p = Parser::new(b"<</Subtype /Image>>", 0).unwrap();
    let obj = p.parse().unwrap();
    let dict = PdfDict::ensure_with_key(&obj, vec!["Subtype"]).unwrap();
    assert!(assert_xobj_is_image(dict).is_ok());

    assert!(matches!(
        colorspace_of(&PdfName::new(String::from("DeviceCMYK"), 0)),
        Err(ImageError::UnsupporttedColorSpace)
    ));
    assert_eq!(
        colorspace_of(&PdfName::new(String::from("DeviceGray"), 0)).unwrap(),
        ColorSpace::DeviceGray
    );
}
