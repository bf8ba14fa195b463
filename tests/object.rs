use pdf_parser::cross_reference::XRef;
use pdf_parser::object::{
    Error, ObjectType, PdfArray, PdfBoolean, PdfDict, PdfIndirectObj, PdfIndirectRef, PdfInteger,
    PdfName, PdfNull, PdfObject, PdfStreamObj,
};
use pdf_parser::parser::{Object, Parser};

fn parse(text: &str) -> Object {
    Parser::new(text.as_bytes(), 0).unwrap().parse().unwrap()
}

#[test]
fn narrowing_reports_type_and_offset() {
    let obj = Object::Boolean(PdfBoolean::new(true, 42));
    match PdfInteger::ensure(&obj) {
        Err(Error::ObjectTypeMissMatch { required_type, byte_offset }) => {
            assert_eq!(required_type, ObjectType::Integer);
            assert_eq!(byte_offset, 42);
        }
        other => panic!("{:?}", other),
    }
    assert!(matches!(
        PdfName::ensure(&obj),
        Err(Error::ObjectTypeMissMatch { required_type: ObjectType::Name, byte_offset: 42 })
    ));
    assert!(matches!(
        PdfArray::ensure(&obj),
        Err(Error::ObjectTypeMissMatch { required_type: ObjectType::Array, .. })
    ));
    assert!(matches!(
        PdfIndirectRef::ensure(&obj),
        Err(Error::ObjectTypeMissMatch { required_type: ObjectType::IndirectRef, .. })
    ));
    assert!(matches!(
        PdfDict::ensure_with_key(&obj, vec![]),
        Err(Error::ObjectTypeMissMatch { required_type: ObjectType::Dict, .. })
    ));
    assert!(matches!(
        PdfIndirectObj::ensure(&obj),
        Err(Error::ObjectTypeMissMatch { required_type: ObjectType::IndirectObj, .. })
    ));
    assert!(matches!(
        PdfStreamObj::ensure_stream(&obj),
        Err(Error::ObjectTypeMissMatch { required_type: ObjectType::StreamObj, .. })
    ));
    assert_eq!(obj.byte_offset(), 42);
    assert!(PdfBoolean::new(false, 1).unpack() == false);
    assert_eq!(PdfNull::new(9).byte_offset(), 9);
}

#[test]
fn dictionary_checks() {
    let obj = parse("<</Type /Page /Count 3>>");
    let dict = PdfDict::ensure_with_key(&obj, vec!["Type", "Count"]).unwrap();
    assert!(matches!(
        dict.assert_with_key(vec!["Type", "Kids"]),
        Err(Error::DictKeyNotFound("Kids"))
    ));
    assert!(dict.ensure_type("Page").is_ok());
    match dict.ensure_type("Pages") {
        Err(Error::DictTypeMissMatch(expected, actual)) => {
            assert_eq!(expected, "Pages");
            assert_eq!(actual, "Page");
        }
        other => panic!("{:?}", other),
    }
    assert!(dict.get("Missing").is_none());

    let obj = parse("<</Type 5>>");
    let dict = PdfDict::ensure_with_key(&obj, vec!["Type"]).unwrap();
    assert!(matches!(
        dict.ensure_type("Page"),
        Err(Error::ObjectTypeMissMatch { required_type: ObjectType::Name, byte_offset: 8 })
    ));
}

#[test]
fn dictionary_insert_replaces() {
    let mut dict = PdfDict::new(vec![], 0);
    dict.insert(String::from("A"), Object::Null(PdfNull::new(1)));
    dict.insert(String::from("B"), Object::Null(PdfNull::new(2)));
    dict.insert(String::from("A"), Object::Null(PdfNull::new(3)));
    assert_eq!(dict.iter().len(), 2);
    assert_eq!(dict.get("A"), Some(&Object::Null(PdfNull::new(3))));
    let rebuilt = PdfDict::new(
        vec![
            (String::from("K"), Object::Null(PdfNull::new(1))),
            (String::from("K"), Object::Null(PdfNull::new(2))),
        ],
        7,
    );
    assert_eq!(rebuilt.iter().len(), 1);
    assert_eq!(rebuilt.get("K"), Some(&Object::Null(PdfNull::new(2))));
    assert_eq!(rebuilt.byte_offset(), 7);
}

#[test]
fn integer_restrictions() {
    let zero = PdfInteger::new(0, 11);
    assert!(zero.assert_not_negative().is_ok());
    assert!(matches!(zero.assert_natural(), Err(Error::ValueRestriction { byte_offset: 11 })));
    let neg = PdfInteger::new(-4, 12);
    assert!(matches!(neg.assert_not_negative(), Err(Error::ValueRestriction { byte_offset: 12 })));
    assert!(PdfInteger::new(1, 0).assert_natural().is_ok());
}

#[test]
fn stream_object_needs_length() {
    let obj = parse("<</Filter /X>>");
    assert!(matches!(PdfStreamObj::new(obj, 5), Err(Error::DictKeyNotFound("Length"))));
    let obj = parse("12");
    assert!(matches!(
        PdfStreamObj::new(obj, 5),
        Err(Error::ObjectTypeMissMatch { required_type: ObjectType::Dict, .. })
    ));
    let obj = parse("<</Length 2>>");
    let s = PdfStreamObj::new(obj, 5).unwrap();
    assert_eq!(s.byte_offset(), 5);
}

#[test]
fn entry_offset_formula() {
    let x = XRef { actual_start_offset: 100, from: 10, entry_num: 5 };
    assert!(x.contains(10));
    assert!(x.contains(14));
    assert!(!x.contains(15));
    assert!(!x.contains(9));
    assert_eq!(x.entry_start_byte_offset(10), 100);
    assert_eq!(x.entry_start_byte_offset(13), 160);
    assert!(matches!(
        x.get_byte_offset(b"", &PdfIndirectRef::new(15, 0, 0)),
        Err(pdf_parser::cross_reference::Error::NotContain(15))
    ));
    assert!(matches!(
        x.get_byte_offset(b"", &PdfIndirectRef::new(12, 0, 0)),
        Err(pdf_parser::cross_reference::Error::ShortRead { byte_offset: 140 })
    ));
}

#[test]
fn indirect_ref_parts() {
    let r = PdfIndirectRef::new(3, 2, 17);
    assert_eq!(r.unpack(), (3, 2));
    assert_eq!(r.byte_offset(), 17);
    assert!(matches!(
        PdfIndirectRef::type_missmatch_error(4),
        Error::ObjectTypeMissMatch { required_type: ObjectType::IndirectRef, byte_offset: 4 }
    ));
}
