use pdf_parser::object::{
    PdfArray, PdfBoolean, PdfDict, PdfIndirectRef, PdfInteger, PdfName, PdfNull, PdfReal,
    PdfString,
};
use pdf_parser::parser::error::ErrorKind;
use pdf_parser::parser::{Object, Parser};

fn parse(text: &str) -> Object {
    let mut parser = Parser::new(text.as_bytes(), 0).unwrap();
    parser.parse().unwrap()
}

#[test]
fn parse_integer() {
    assert_eq!(parse("123"), Object::Integer(PdfInteger::new(123, 0)));
}

#[test]
fn parse_real() {
    let obj = parse("-123.");
    assert_eq!(obj, Object::Real(PdfReal::new("-123.".as_bytes().to_vec(), 0)));
    if let Object::Real(r) = obj {
        let v: f64 = std::str::from_utf8(r.unpack()).unwrap().parse().unwrap();
        assert_eq!(v, -123.0);
    }
}

#[test]
fn parse_boolean() {
    assert_eq!(parse("true"), Object::Boolean(PdfBoolean::new(true, 0)));
}

#[test]
fn parse_null() {
    assert_eq!(parse("null"), Object::Null(PdfNull::new(0)));
}

#[test]
fn parse_indirect_ref() {
    assert_eq!(parse("1 0 R"), Object::IndirectRef(PdfIndirectRef::new(1, 0, 0)));
}

#[test]
fn parse_string_1() {
    assert_eq!(
        parse("(hoge)"),
        Object::String(PdfString::new(vec![104, 111, 103, 101], 0))
    );
}

#[test]
fn parse_array_1() {
    assert_eq!(
        parse("[  123  true \n  -12.[2 1 R\nnull] ]"),
        Object::Array(PdfArray::new(
            vec![
                Object::Integer(PdfInteger::new(123, 3)),
                Object::Boolean(PdfBoolean::new(true, 8)),
                Object::Real(PdfReal::new("-12.".as_bytes().to_vec(), 16)),
                Object::Array(PdfArray::new(
                    vec![
                        Object::IndirectRef(PdfIndirectRef::new(2, 1, 21)),
                        Object::Null(PdfNull::new(27)),
                    ],
                    20
                )),
            ],
            0
        ))
    );
}

#[test]
fn parse_dict_1() {
    let inner = PdfDict::new(
        vec![(
            String::from("arr"),
            Object::Array(PdfArray::new(
                vec![
                    Object::Integer(PdfInteger::new(123, 28)),
                    Object::Name(PdfName::new(String::from("name"), 32)),
                ],
                27,
            )),
        )],
        20,
    );
    let expected = PdfDict::new(
        vec![
            (
                String::from("hoge"),
                Object::IndirectRef(PdfIndirectRef::new(1, 0, 8)),
            ),
            (String::from("fuga"), Object::Dict(inner)),
        ],
        0,
    );
    assert_eq!(parse("<</hoge 1 0 R\n/fuga <</arr [123\n/name]>>>>"), Object::Dict(expected));
}

#[test]
fn parse_nested_dict_entries() {
    let obj = parse("<</hoge 1 0 R /fuga <</arr [123 /name]>>>>");
    let dict = PdfDict::ensure_with_key(&obj, vec!["hoge", "fuga"]).unwrap();
    assert_eq!(dict.iter().len(), 2);
    let fuga = PdfDict::ensure_with_key(dict.get("fuga").unwrap(), vec!["arr"]).unwrap();
    let arr = PdfArray::ensure(fuga.get("arr").unwrap()).unwrap();
    assert_eq!(arr.elements().len(), 2);
    assert_eq!(PdfInteger::ensure(&arr.elements()[0]).unwrap().unpack(), 123);
    assert_eq!(PdfName::ensure(&arr.elements()[1]).unwrap().as_str(), "name");
}

#[test]
fn duplicate_key_keeps_last_value() {
    let obj = parse("<</A 1 /B 2 /A 3>>");
    let dict = PdfDict::ensure_with_key(&obj, vec!["A", "B"]).unwrap();
    assert_eq!(dict.iter().len(), 2);
    assert_eq!(PdfInteger::ensure(dict.get("A").unwrap()).unwrap().unpack(), 3);
}

#[test]
fn parse_indirect_and_stream_objects() {
    match parse("3 0 obj\n(x)\nendobj") {
        Object::IndirectObj(o) => {
            assert_eq!(o.byte_offset, 0);
            assert_eq!(*o.get_object(), Object::String(PdfString::new(vec![120], 8)));
        }
        other => panic!("{:?}", other),
    }
    match parse("3 0 obj\n<</Length 2>>\nstream\nab") {
        Object::StreamObj(s) => assert_eq!(s.byte_offset, 29),
        other => panic!("{:?}", other),
    }
}

#[test]
fn parse_errors() {
    let mut p = Parser::new("]".as_bytes(), 5).unwrap();
    let e = p.parse().unwrap_err();
    assert_eq!((e.kind, e.byte_offset), (ErrorKind::UnexpectedToken, 5));

    let mut p = Parser::new("[1 2".as_bytes(), 0).unwrap();
    assert_eq!(p.parse().unwrap_err().kind, ErrorKind::NoToken);

    let mut p = Parser::new("<</A>>".as_bytes(), 0).unwrap();
    assert_eq!(p.parse().unwrap_err().kind, ErrorKind::UnexpectedToken);

    let mut p = Parser::new("<<1 2>>".as_bytes(), 0).unwrap();
    assert_eq!(p.parse().unwrap_err().kind, ErrorKind::UnexpectedToken);

    let mut p = Parser::new("3 0 obj <</A 1>> stream\nxy".as_bytes(), 0).unwrap();
    assert_eq!(p.parse().unwrap_err().kind, ErrorKind::InvalidStreamObj);

    let e = Parser::new("3 0 obj 1".as_bytes(), 0).err().unwrap();
    assert_eq!(e.kind, ErrorKind::IndirectObjMissMatch);
    assert!(e.is_recoverable());

    let e = Parser::new("(abc".as_bytes(), 0).err().unwrap();
    assert!(e.is_recoverable());
    let e = Parser::new("{".as_bytes(), 0).err().unwrap();
    assert!(!e.is_recoverable());
}
