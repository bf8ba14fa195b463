use pdf_parser::lexer::error::ErrorKind;
use pdf_parser::lexer::{parse_hex_string, parse_name, parse_string, Lexer, Token, TokenContent};

fn tokens(buffer: &[u8]) -> Vec<Token> {
    let mut lexer = Lexer::new(buffer, 0);
    lexer.tokenize().unwrap();
    lexer.token_vec
}

fn real_literal(s: &str) -> TokenContent {
    TokenContent::Real(s.as_bytes().to_vec())
}

#[test]
fn tokenize_space_eol() {
    let buffer = "\0\t\n\x0c\r \r\n \n\r".as_bytes();
    assert_eq!(tokens(buffer), vec![]);
}

#[test]
fn tokenize_integer() {
    let buffer = " +123 -123\r".as_bytes();
    assert_eq!(
        tokens(buffer),
        vec![
            Token::new(TokenContent::Integer(123), 1),
            Token::new(TokenContent::Integer(-123), 6),
        ]
    );
}

#[test]
fn tokenize_float() {
    let buffer = "1.5 -23.4 +110.0 .5 4. -.002 0.0".as_bytes();
    let got = tokens(buffer);
    assert_eq!(
        got,
        vec![
            Token::new(real_literal("1.5"), 0),
            Token::new(real_literal("-23.4"), 4),
            Token::new(real_literal("+110.0"), 10),
            Token::new(real_literal(".5"), 17),
            Token::new(real_literal("4."), 20),
            Token::new(real_literal("-.002"), 23),
            Token::new(real_literal("0.0"), 29),
        ]
    );
    let values: Vec<f64> = got
        .iter()
        .map(|t| match &t.token_content {
            TokenContent::Real(v) => std::str::from_utf8(v).unwrap().parse::<f64>().unwrap(),
            _ => panic!(),
        })
        .collect();
    assert_eq!(values, vec![1.5, -23.4, 110.0, 0.5, 4.0, -0.002, 0.0]);
}

#[test]
fn tokenize_hex_str() {
    let buffer = "<a0e0f>".as_bytes();
    assert_eq!(
        tokens(buffer),
        vec![Token::new(TokenContent::HexStr(vec![160, 224, 240]), 0)]
    );
}

#[test]
fn tokenize_string() {
    let buffer = "(hoge \t \\\\ \\053 (\\0053))".as_bytes();
    assert_eq!(
        tokens(buffer),
        vec![Token::new(
            TokenContent::String(vec![
                104, 111, 103, 101, 32, 9, 32, 92, 32, 43, 32, 40, 5, 51, 41,
            ]),
            0,
        )]
    );
}

#[test]
fn tokenize_array() {
    let buffer = "[123 (aa\\() -55.]".as_bytes();
    assert_eq!(
        tokens(buffer),
        vec![
            Token::new(TokenContent::ArrayStart, 0),
            Token::new(TokenContent::Integer(123), 1),
            Token::new(TokenContent::String(vec![97, 97, 40]), 5),
            Token::new(real_literal("-55."), 12),
            Token::new(TokenContent::ArrayEnd, 16),
        ]
    );
}

#[test]
fn tokenize_indirect_ref_1() {
    let buffer = "  1 0 R".as_bytes();
    assert_eq!(
        tokens(buffer),
        vec![Token::new(TokenContent::IndirectRef(1, 0), 2)]
    );
}

#[test]
fn tokenize_indirect_ref_2() {
    let buffer = "123 1 0 R".as_bytes();
    assert_eq!(
        tokens(buffer),
        vec![
            Token::new(TokenContent::Integer(123), 0),
            Token::new(TokenContent::IndirectRef(1, 0), 4),
        ]
    );
}

#[test]
fn tokenize_name() {
    let buffer = "/Name..;$@?! ".as_bytes();
    assert_eq!(
        tokens(buffer),
        vec![Token::new(
            TokenContent::Name(String::from("Name..;$@?!")),
            0
        )]
    );
}

#[test]
fn tokenize_comment() {
    let buffer = "/Name%hogehoge /..<>(){}[]\r\n123".as_bytes();
    assert_eq!(
        tokens(buffer),
        vec![
            Token::new(TokenContent::Name(String::from("Name")), 0),
            Token::new(TokenContent::Integer(123), 28),
        ]
    );
}

#[test]
fn tokenize_boolean_null() {
    let buffer = "null true false".as_bytes();
    assert_eq!(
        tokens(buffer),
        vec![
            Token::new(TokenContent::Null, 0),
            Token::new(TokenContent::Boolean(true), 5),
            Token::new(TokenContent::Boolean(false), 10),
        ]
    );
}

#[test]
fn tokenize_indirect_obj() {
    // tokenizing stops after endobj
    let buffer = "1 0 obj\n123 endobj   hogehoge lkjdflkj)".as_bytes();
    let mut lexer = Lexer::new(buffer, 0);
    lexer.tokenize().unwrap();
    assert_eq!(
        lexer.token_vec,
        vec![
            Token::new(TokenContent::IndirectObjStart(1, 0), 0),
            Token::new(TokenContent::Integer(123), 8),
            Token::new(TokenContent::IndirectObjEnd, 12),
        ]
    );
    assert!(!lexer.has_unbalanced_indirectobj());
}

#[test]
fn tokenize_stream_start() {
    let buffer = "1 0 obj <</Length 3>> stream\r\nabc".as_bytes();
    let mut lexer = Lexer::new(buffer, 100);
    lexer.tokenize().unwrap();
    let n = lexer.token_vec.len();
    assert_eq!(lexer.token_vec[n - 2].token_content, TokenContent::IndirectObjEnd);
    assert_eq!(lexer.token_vec[n - 1].token_content, TokenContent::StreamObjStart(130));
    assert!(!lexer.has_unbalanced_indirectobj());
}

#[test]
fn tokenize_offsets_are_absolute() {
    let mut lexer = Lexer::new(" 7".as_bytes(), 1000);
    lexer.tokenize().unwrap();
    assert_eq!(lexer.token_vec, vec![Token::new(TokenContent::Integer(7), 1001)]);
}

#[test]
fn tokenize_errors() {
    let cases: Vec<(&str, ErrorKind, u64)> = vec![
        ("1 2 3 4 truex", ErrorKind::UndefinedKeyword, 8),
        ("0 0 R", ErrorKind::InvalidIndirectRef, 4),
        ("/a R", ErrorKind::InvalidIndirectRef, 3),
        ("1.2.3 ", ErrorKind::ParseNumber, 0),
        ("<12x>", ErrorKind::UnexpectedByte, 0),
        ("(abc", ErrorKind::FinishInObject, 0),
        ("<abc", ErrorKind::FinishInObject, 0),
        ("1 0 obj 5 endo", ErrorKind::FinishInObject, 10),
        ("<</A 1>> stream", ErrorKind::ConfirmStream, 9),
        ("<</A 1>> stream x", ErrorKind::UnexpectedByte, 9),
        ("<</A 1>> stream\rx", ErrorKind::UnexpectedByte, 9),
        ("/\u{7f}x", ErrorKind::ParseName, 0),
        ("> ", ErrorKind::UnexpectedByte, 0),
        ("{", ErrorKind::UndefinedKeyword, 0),
    ];
    for (text, kind, offset) in cases {
        let mut lexer = Lexer::new(text.as_bytes(), 0);
        let e = lexer.tokenize().unwrap_err();
        assert_eq!((text, e.kind, e.byte_offset), (text, kind, offset));
    }
}

#[test]
fn unbalanced_object_is_reported() {
    let mut lexer = Lexer::new("1 0 obj <</A 1".as_bytes(), 0);
    lexer.tokenize().unwrap();
    assert!(lexer.has_unbalanced_indirectobj());
}

#[test]
fn string_escapes() {
    assert_eq!(
        parse_string("a\\nb\\rc\\td\\be\\ff\\(\\)\\\\\\q".as_bytes()).unwrap(),
        vec![97, 10, 98, 13, 99, 9, 100, 8, 101, 12, 102, 40, 41, 92, 113]
    );
    // up to three octal digits, the value taken modulo 256, also at the end
    assert_eq!(parse_string("\\0053\\777\\7".as_bytes()).unwrap(), vec![5, 51, 255, 7]);
}

#[test]
fn hex_strings() {
    assert_eq!(parse_hex_string("".as_bytes()).unwrap(), vec![]);
    assert_eq!(parse_hex_string("A".as_bytes()).unwrap(), vec![160]);
    assert_eq!(parse_hex_string("fF01".as_bytes()).unwrap(), vec![255, 1]);
    assert!(parse_hex_string("0g".as_bytes()).is_err());
}

#[test]
fn names_are_printable_ascii() {
    assert_eq!(parse_name("Type".as_bytes()).unwrap(), "Type");
    assert!(parse_name(&[0x54, 0xc3, 0xa9]).is_err());
    assert!(parse_name(&[0x41, 0x01]).is_err());
}

#[test]
fn big_integer_becomes_real() {
    assert_eq!(
        tokens("99999999999999999999999".as_bytes()),
        vec![Token::new(real_literal("99999999999999999999999"), 0)]
    );
}
