use std::io::Write;

use pdf_parser::cross_reference::{Error as XRefError, XRef};
use pdf_parser::error::Error;
use pdf_parser::header::validate_pdf_header;
use pdf_parser::image::{
    decode_image, samples_to_rgb, ColorSpace, Error as ImageError, ImageDecodeParam,
};
use pdf_parser::object::{
    next_step, resolve_at, Error as ObjectError, PdfDict, PdfIndirectObj, PdfIndirectRef,
    PdfInteger, PdfName, PdfStreamObj, ResolveStep,
};
use pdf_parser::page_tree::Pages;
use pdf_parser::parser::error::ErrorKind;
use pdf_parser::parser::Object;
use pdf_parser::trailer::error::Error as TrailerError;
use pdf_parser::trailer::parse_trailer;
use pdf_parser::PDF;

/// A document with the given objects (numbered from 1), an xref table with
/// one subsection `0 n+1` and a trailer whose root is object 1.
fn build(objects: &[Vec<u8>]) -> Vec<u8> {
    let mut out: Vec<u8> = b"%PDF-1.4\n".to_vec();
    let mut offsets = vec![];
    for (i, body) in objects.iter().enumerate() {
        offsets.push(out.len());
        out.extend_from_slice(format!("{} 0 obj\n", i + 1).as_bytes());
        out.extend_from_slice(body);
        out.extend_from_slice(b"\nendobj\n");
    }
    let xref_at = out.len();
    out.extend_from_slice(format!("xref\n0 {}\n", objects.len() + 1).as_bytes());
    out.extend_from_slice(b"0000000000 65535 f\r\n");
    for off in &offsets {
        out.extend_from_slice(format!("{:010} 00000 n\r\n", off).as_bytes());
    }
    out.extend_from_slice(
        format!(
            "trailer\n<</Size {} /Root 1 0 R>>\nstartxref\n{}\n%%EOF\n",
            objects.len() + 1,
            xref_at
        )
        .as_bytes(),
    );
    out
}

fn inner(obj: &Object) -> &Object {
    PdfIndirectObj::ensure(obj).unwrap().get_object()
}

#[test]
fn open_and_resolve_catalog() {
    let source = build(&[b"<</Type /Catalog /Pages 2 0 R>>".to_vec()]);
    let pdf = PDF::new(&source).unwrap();
    assert_eq!(pdf.trailer.xref_entry_num, 2);
    assert_eq!(pdf.xref.from, 0);
    assert_eq!(pdf.xref.entry_num, 2);

    let root = pdf.trailer.get_root_catalog_ref();
    let obj = pdf.resolve(&root).unwrap();
    let dict = PdfDict::ensure_with_key(inner(&obj), vec!["Type", "Pages"]).unwrap();
    assert_eq!(PdfName::ensure(dict.get("Type").unwrap()).unwrap().as_str(), "Catalog");
    dict.ensure_type("Catalog").unwrap();

    match pdf.resolve(&PdfIndirectRef::new(1, 1, 0)) {
        Err(Error::Object(ObjectError::XRef(e))) => {
            assert!(matches!(*e, XRefError::GenerationNumberMisMatch))
        }
        other => panic!("{:?}", other),
    }
    match pdf.resolve(&PdfIndirectRef::new(2, 0, 0)) {
        Err(Error::Object(ObjectError::XRef(e))) => assert!(matches!(*e, XRefError::NotContain(2))),
        other => panic!("{:?}", other),
    }
}

#[test]
fn entry_offsets_and_range() {
    let source = build(&[b"1".to_vec(), b"2".to_vec(), b"3".to_vec()]);
    let pdf = PDF::new(&source).unwrap();
    let x = pdf.xref;
    // entry k lies at actual_start_offset + k * 20: its first ten bytes are
    // the offset of object k
    for k in 1..4usize {
        let at = x.actual_start_offset as usize + k * 20;
        let field = std::str::from_utf8(&source[at..at + 10]).unwrap();
        let off = x.get_byte_offset(&source, &PdfIndirectRef::new(k, 0, 0)).unwrap();
        assert_eq!(field.parse::<u64>().unwrap(), off);
        assert!(source[off as usize..].starts_with(format!("{} 0 obj", k).as_bytes()));
    }
    match x.get_byte_offset(&source, &PdfIndirectRef::new(4, 0, 0)) {
        Err(XRefError::NotContain(4)) => {}
        other => panic!("{:?}", other),
    }
}

#[test]
fn free_entry_is_not_supported() {
    let source = build(&[b"1".to_vec()]);
    let mut x = PDF::new(&source).unwrap().xref;
    // the first entry, which is free, read as the entry of object 1
    x.from = 1;
    match x.get_byte_offset(&source, &PdfIndirectRef::new(1, 0, 0)) {
        Err(XRefError::NotSupporttedEntryType) => {}
        other => panic!("{:?}", other),
    }
}

#[test]
fn large_object_needs_several_windows() {
    let long = "a".repeat(450);
    let body = format!("<</Data ({}) /N 7>>", long).into_bytes();
    let source = build(&[b"<</Type /Catalog>>".to_vec(), body]);
    let pdf = PDF::new(&source).unwrap();
    let obj = pdf.resolve(&PdfIndirectRef::new(2, 0, 0)).unwrap();
    let dict = PdfDict::ensure_with_key(inner(&obj), vec!["Data", "N"]).unwrap();
    assert_eq!(PdfInteger::ensure(dict.get("N").unwrap()).unwrap().unpack(), 7);
    match dict.get("Data").unwrap() {
        Object::String(s) => assert_eq!(s.as_bytes().len(), 450),
        other => panic!("{:?}", other),
    }
}

#[test]
fn malformed_object_fails_without_retry() {
    let source = build(&[b"<</Type /Catalog>>".to_vec(), b"[1 2".to_vec()]);
    let pdf = PDF::new(&source).unwrap();
    match pdf.resolve(&PdfIndirectRef::new(2, 0, 0)) {
        Err(Error::Object(ObjectError::Parser(e))) => {
            assert_eq!(e.kind, ErrorKind::UnexpectedToken);
            assert!(!e.is_recoverable());
        }
        other => panic!("{:?}", other),
    }
}

#[test]
fn object_cut_by_end_of_source_stops() {
    let mut source = b"%PDF-1.4\n".to_vec();
    let at = source.len() as u64;
    source.extend_from_slice(format!("5 0 obj <</A ({})", "b".repeat(700)).as_bytes());
    match resolve_at(&source, at) {
        Err(e) => assert!(e.is_recoverable()),
        other => panic!("{:?}", other),
    }
    match resolve_at(&source, source.len() as u64 + 10) {
        Err(e) => assert_eq!(e.kind, ErrorKind::NoToken),
        other => panic!("{:?}", other),
    }
}

#[test]
fn retry_decisions() {
    let truncated = pdf_parser::parser::Parser::new("1 0 obj 2".as_bytes(), 0).err().unwrap();
    match next_step(Err(truncated), 200, 200) {
        ResolveStep::Grow(400) => {}
        other => panic!("{:?}", other),
    }
    // the source ended inside this window: no larger window helps
    match next_step(Err(truncated), 150, 200) {
        ResolveStep::Fail(e) => assert_eq!(e, truncated),
        other => panic!("{:?}", other),
    }
    let fatal = pdf_parser::parser::error::Error::new(ErrorKind::UnexpectedToken, 9);
    match next_step(Err(fatal), 200, 200) {
        ResolveStep::Fail(e) => assert_eq!(e, fatal),
        other => panic!("{:?}", other),
    }
}

#[test]
fn stream_length_literal_or_indirect() {
    let source = build(&[
        b"<</Type /Catalog>>".to_vec(),
        b"<</Length 5>>\nstream\nhello\nendstream".to_vec(),
        b"<</Length 4 0 R>>\nstream\nhello\nendstream".to_vec(),
        b"5".to_vec(),
    ]);
    let pdf = PDF::new(&source).unwrap();
    let direct = pdf.resolve(&PdfIndirectRef::new(2, 0, 0)).unwrap();
    let indirect = pdf.resolve(&PdfIndirectRef::new(3, 0, 0)).unwrap();
    let a = pdf.read_stream_bytes(PdfStreamObj::ensure_stream(&direct).unwrap()).unwrap();
    let b = pdf.read_stream_bytes(PdfStreamObj::ensure_stream(&indirect).unwrap()).unwrap();
    assert_eq!(a, b"hello".to_vec());
    assert_eq!(a, b);
}

#[test]
fn stream_errors() {
    let source = build(&[
        b"<</Type /Catalog>>".to_vec(),
        b"<</Length -1>>\nstream\nhello\nendstream".to_vec(),
        b"<</Length 5000>>\nstream\nhello\nendstream".to_vec(),
    ]);
    let pdf = PDF::new(&source).unwrap();
    let neg = pdf.resolve(&PdfIndirectRef::new(2, 0, 0)).unwrap();
    match pdf.read_stream_bytes(PdfStreamObj::ensure_stream(&neg).unwrap()) {
        Err(Error::Object(ObjectError::InvalidStreamLength)) => {}
        other => panic!("{:?}", other),
    }
    let long = pdf.resolve(&PdfIndirectRef::new(3, 0, 0)).unwrap();
    match pdf.read_stream_bytes(PdfStreamObj::ensure_stream(&long).unwrap()) {
        Err(Error::Object(ObjectError::ShortRead { .. })) => {}
        other => panic!("{:?}", other),
    }
}

#[test]
fn trailer_errors() {
    match parse_trailer(b"%PDF-1.4\nno marker here") {
        Err(TrailerError::EOFNotFound) => {}
        other => panic!("{:?}", other),
    }
    match parse_trailer(b"startxref\n12\n%%EOF") {
        Err(TrailerError::TrailerNotFound) => {}
        other => panic!("{:?}", other),
    }
    match parse_trailer(b"trailer <</Size 1 /Root 1 0 R>> %%EOF") {
        Err(TrailerError::StartXRefNotFound) => {}
        other => panic!("{:?}", other),
    }
    match parse_trailer(b"trailer <</Size 1>> startxref 12 %%EOF") {
        Err(TrailerError::Object(ObjectError::DictKeyNotFound("Root"))) => {}
        other => panic!("{:?}", other),
    }
    match parse_trailer(b"trailer <</Size 1 /Root 1 0 R>> startxref 0 %%EOF") {
        Err(TrailerError::Object(ObjectError::ValueRestriction { .. })) => {}
        other => panic!("{:?}", other),
    }
    let t = parse_trailer(b"trailer <</Size 9 /Root 3 0 R>> startxref 77 %%EOF junk %%EOF")
        .unwrap();
    assert_eq!(t.xref_start_offset, 77);
    assert_eq!(t.xref_entry_num, 9);
    assert_eq!(t.get_root_catalog_ref().unpack(), (3, 0));
}

#[test]
fn headers() {
    assert!(validate_pdf_header(b"%PDF-1.7\n%rest").is_ok());
    assert!(validate_pdf_header(b"%PDF-10.25\r\n").is_ok());
    assert!(validate_pdf_header(b"%PDX-1.7\n").is_err());
    assert!(validate_pdf_header(b"%PDF-1.7 and more text\n").is_err());
    assert!(validate_pdf_header(&[0x25, 0xff, 0x0a]).is_err());
}

#[test]
fn xref_header_errors() {
    match XRef::new(b"nothing", 0) {
        Err(XRefError::XrefNotFound) => {}
        other => panic!("{:?}", other),
    }
    match XRef::new(b"xref\n0 0\n", 0) {
        Err(XRefError::SubsectionNotFound) => {}
        other => panic!("{:?}", other),
    }
    let x = XRef::new(b"xref\n3 2\n", 0).unwrap();
    assert_eq!((x.from, x.entry_num, x.actual_start_offset), (3, 2, 9));
}

#[test]
fn decode_gray_and_rgb_images() {
    let mut enc = flate2::write::ZlibEncoder::new(Vec::new(), flate2::Compression::default());
    enc.write_all(&[10, 200]).unwrap();
    let compressed = enc.finish().unwrap();
    let gray = ImageDecodeParam { width: 2, height: 1, colorspace: ColorSpace::DeviceGray };
    let img = decode_image(&gray, &compressed).unwrap();
    assert_eq!(img.pixels, vec![10, 10, 10, 200, 200, 200]);

    let rgb = ImageDecodeParam { width: 1, height: 1, colorspace: ColorSpace::DeviceRGB };
    assert_eq!(samples_to_rgb(&rgb, &[1, 2, 3, 4]).unwrap().pixels, vec![1, 2, 3, 4]);
    assert_eq!(samples_to_rgb(&gray, &[5, 6, 7]).unwrap().pixels, vec![5, 5, 5, 6, 6, 6]);
    assert!(matches!(samples_to_rgb(&rgb, &[1, 2]), Err(ImageError::InvalidImageSize)));
    assert!(matches!(
        decode_image(&gray, &vec![1, 2, 3]),
        Err(ImageError::InvalidCompressedData)
    ));
}

#[test]
fn page_tree_and_images() {
    let mut enc = flate2::write::ZlibEncoder::new(Vec::new(), flate2::Compression::default());
    enc.write_all(&[7, 8]).unwrap();
    let data = enc.finish().unwrap();
    let mut image = format!(
        "<</Type /XObject /Subtype /Image /Width 1 /Height 2 /ColorSpace /DeviceGray /Length {}>>\nstream\n",
        data.len()
    )
    .into_bytes();
    image.extend_from_slice(&data);
    image.extend_from_slice(b"\nendstream");
    let source = build(&[
        b"<</Type /Catalog /Pages 2 0 R>>".to_vec(),
        b"<</Type /Pages /Kids [3 0 R 4 0 R] /Count 2>>".to_vec(),
        b"<</Type /Page /Resources <</XObject <</Im1 5 0 R /X 9>>>> /Thumb 6 0 R>>".to_vec(),
        b"<</Type /Page>>".to_vec(),
        image,
        b"null".to_vec(),
    ]);
    let pdf = PDF::new(&source).unwrap();
    let pages = pdf.pages().unwrap();
    assert_eq!(pages.get_page_number(), 2);
    let first = pages.get_page(1).unwrap();
    assert_eq!(first.get_page_number(), 1);
    let refs: Vec<(usize, usize)> = first.external_objects.iter().map(|r| r.unpack()).collect();
    assert_eq!(refs, vec![(5, 0)]);
    assert_eq!(first.thumbnail.map(|t| t.unpack()), Some((6, 0)));
    assert_eq!(pages.get_page(2).unwrap().get_page_number(), 2);
    assert!(matches!(pages.get_page(3), Err(pdf_parser::page_tree::Error::PageNotFound(3))));
    assert!(matches!(pages.get_page(0), Err(pdf_parser::page_tree::Error::PageNotFound(0))));

    let images = pdf.extract_image(&vec![1, 2]).unwrap();
    assert_eq!(images.len(), 2);
    assert_eq!(images[0].len(), 1);
    assert_eq!(images[0][0].pixels, vec![7, 7, 7, 8, 8, 8]);
    assert!(images[1].is_empty());
}

#[test]
fn page_node_parts() {
    let mut p = pdf_parser::parser::Parser::new(b"<</Thumb 3>>", 0).unwrap();
    let obj = p.parse().unwrap();
    let dict = PdfDict::ensure_with_key(&obj, vec![]).unwrap();
    assert!(Pages::extract_thumbnail_ref(dict).is_err());
    assert!(Pages::extract_external_objects(dict).unwrap().is_empty());
    let page = Pages::parse_page_node(dict, 4);
    assert!(page.is_err());
}
