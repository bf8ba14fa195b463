use pdf_parser::raw_byte::error::Error;
use pdf_parser::raw_byte::{
    cut_after, cut_after_eol, cut_from, cut_tail_after, cut_tail_from, extract_after,
    extract_after_eol, extract_from, extract_from_eol, extract_tail_after, extract_tail_from,
    first_match_eol, first_match_index, is_next_satisfy, last_match_index,
};

#[test]
fn skip_eol_1() {
    let buffer = "  kjkj\n".as_bytes();

    let buffer = extract_after_eol(buffer).unwrap();
    assert_eq!(buffer, "".as_bytes());
}

#[test]
fn extract_after_eol_2() {
    let buffer = "  hogehoeg \r\nhoge".as_bytes();

    let buffer = extract_after_eol(buffer).unwrap();
    assert_eq!(buffer, "hoge".as_bytes());
}

#[test]
fn extract_after_eol_3() {
    let buffer = "hoge\r   \nfuga".as_bytes();

    let buffer = extract_after_eol(buffer).unwrap();
    assert_eq!(buffer, "   \nfuga".as_bytes());
}

#[test]
fn first_match_index_1() {
    let buffer = "0123abcd\n { target\r hoge".as_bytes();
    let target = "target".as_bytes();

    let i = first_match_index(buffer, target).unwrap();
    assert_eq!(i, 12);
}

#[test]
fn first_match_index_2() {
    let buffer = "0123abcd\n { target\r hoge".as_bytes();
    let target = "".as_bytes();

    let i = first_match_index(buffer, target).unwrap();
    assert_eq!(i, 0);
}

#[test]
fn first_match_index_3() {
    let buffer = "hogehoge".as_bytes();
    let target = "too long target ".as_bytes();

    if let Err(Error::TargetNotFound(_)) = first_match_index(buffer, target) {
    } else {
        panic!();
    }
}

#[test]
fn last_match_index_1() {
    let buffer = "0123abcd\n { target\r target2 hoge".as_bytes();
    let target = "target".as_bytes();

    let i = last_match_index(buffer, target).unwrap();
    assert_eq!(i, 20);
}

#[test]
fn last_match_index_2() {
    let buffer = "0123abcd\n { target\r hoge".as_bytes();
    let target = "".as_bytes();

    let i = last_match_index(buffer, target).unwrap();
    assert_eq!(i, 24);
}

#[test]
fn last_match_index_3() {
    let buffer = "hogehoge".as_bytes();
    let target = "too long target ".as_bytes();

    if let Err(Error::TargetNotFound(_)) = last_match_index(buffer, target) {
    } else {
        panic!();
    }
}

#[test]
fn extract_from_1() {
    let buffer = "hogehoge target jjjj\n\rhoge".as_bytes();
    let target = "target".as_bytes();

    let i = extract_from(buffer, target).unwrap();
    assert_eq!(i, "target jjjj\n\rhoge".as_bytes());
}

#[test]
fn extract_from_2() {
    let buffer = "hogehoge target jjjj\n\rhoge".as_bytes();
    let target = "".as_bytes();

    let i = extract_from(buffer, target).unwrap();
    assert_eq!(i, "hogehoge target jjjj\n\rhoge".as_bytes());
}

#[test]
fn cut_from_1() {
    let buffer = "hogehoge target jjjj\n\rhoge".as_bytes();
    let target = "target".as_bytes();

    let i = cut_from(buffer, target).unwrap();
    assert_eq!(i, "hogehoge ".as_bytes());
}

#[test]
fn cut_from_2() {
    let buffer = "hogehoge target jjjj\n\rhoge".as_bytes();
    let target = "".as_bytes();

    let i = cut_from(buffer, target).unwrap();
    assert_eq!(i, "".as_bytes());
}

#[test]
fn extract_after_1() {
    let buffer = "hogehoge target jjjj\n\rhoge".as_bytes();
    let target = "target".as_bytes();

    let i = extract_after(buffer, target).unwrap();
    assert_eq!(i, " jjjj\n\rhoge".as_bytes());
}

#[test]
fn extract_after_2() {
    let buffer = "hogehoge target jjjj\n\rhoge".as_bytes();
    let target = "".as_bytes();

    let i = extract_after(buffer, target).unwrap();
    assert_eq!(i, "hogehoge target jjjj\n\rhoge".as_bytes());
}

#[test]
fn cut_after_1() {
    let buffer = "hogehoge target jjjj\n\rhoge".as_bytes();
    let target = "target".as_bytes();

    let i = cut_after(buffer, target).unwrap();
    assert_eq!(i, "hogehoge target".as_bytes());
}

#[test]
fn cut_after_2() {
    let buffer = "hogehoge target jjjj\n\rhoge".as_bytes();
    let target = "".as_bytes();

    let i = cut_after(buffer, target).unwrap();
    assert_eq!(i, "".as_bytes());
}

#[test]
fn extract_tail_from_1() {
    let buffer = "hogehoge target jjjj\n\rhoge".as_bytes();
    let target = "target".as_bytes();

    let i = extract_tail_from(buffer, target).unwrap();
    assert_eq!(i, "target jjjj\n\rhoge".as_bytes());
}

#[test]
fn extract_tail_from_2() {
    let buffer = "hogehoge target jjjj\n\rhoge".as_bytes();
    let target = "".as_bytes();

    let i = extract_tail_from(buffer, target).unwrap();
    assert_eq!(i, "".as_bytes());
}

#[test]
fn cut_tail_from_1() {
    let buffer = "hogehoge target jjjj\n\rhoge".as_bytes();
    let target = "target".as_bytes();

    let i = cut_tail_from(buffer, target).unwrap();
    assert_eq!(i, "hogehoge ".as_bytes());
}

#[test]
fn cut_tail_from_2() {
    let buffer = "hogehoge target jjjj\n\rhoge".as_bytes();
    let target = "".as_bytes();

    let i = cut_tail_from(buffer, target).unwrap();
    assert_eq!(i, "hogehoge target jjjj\n\rhoge".as_bytes());
}

#[test]
fn extract_tail_after_1() {
    let buffer = "hogehoge target jjjj\n\rhoge".as_bytes();
    let target = "target".as_bytes();

    let i = extract_tail_after(buffer, target).unwrap();
    assert_eq!(i, " jjjj\n\rhoge".as_bytes());
}

#[test]
fn extract_tail_after_2() {
    let buffer = "hogehoge target jjjj\n\rhoge".as_bytes();
    let target = "".as_bytes();

    let i = extract_tail_after(buffer, target).unwrap();
    assert_eq!(i, "".as_bytes());
}

#[test]
fn cut_tail_after_1() {
    let buffer = "hogehoge target jjjj\n\rhoge".as_bytes();
    let target = "target".as_bytes();

    let i = cut_tail_after(buffer, target).unwrap();
    assert_eq!(i, "hogehoge target".as_bytes());
}

#[test]
fn cut_tail_after_2() {
    let buffer = "hogehoge target jjjj\n\rhoge".as_bytes();
    let target = "".as_bytes();

    let i = cut_tail_after(buffer, target).unwrap();
    assert_eq!(i, "hogehoge target jjjj\n\rhoge".as_bytes());
}

#[test]
fn first_match_index_overlapping_prefix() {
    // a partial match that fails must not hide a match starting inside it
    let buffer = "aab".as_bytes();
    assert_eq!(first_match_index(buffer, "ab".as_bytes()).unwrap(), 1);
    assert_eq!(last_match_index("abab".as_bytes(), "ab".as_bytes()).unwrap(), 2);
}

#[test]
fn first_match_eol_kinds() {
    assert_eq!(first_match_eol("ab\r\ncd".as_bytes()), Some((2, 2)));
    assert_eq!(first_match_eol("ab\rcd".as_bytes()), Some((2, 1)));
    assert_eq!(first_match_eol("ab\ncd".as_bytes()), Some((2, 1)));
    assert_eq!(first_match_eol("ab\n\rcd".as_bytes()), Some((2, 1)));
    assert_eq!(first_match_eol("abcd".as_bytes()), None);
}

#[test]
fn eol_cut_and_extract() {
    assert_eq!(cut_after_eol("head\r\ntail".as_bytes()).unwrap(), "head".as_bytes());
    assert_eq!(extract_from_eol("head\r\ntail".as_bytes()).unwrap(), "\r\ntail".as_bytes());
    assert!(cut_after_eol("no boundary".as_bytes()).is_none());
    assert!(extract_after_eol("".as_bytes()).is_none());
}

#[test]
fn next_byte_predicate() {
    let buffer = "\r\nx".as_bytes();
    assert!(is_next_satisfy(buffer, 0, |b| b == 10));
    assert!(!is_next_satisfy(buffer, 1, |b| b == 10));
    assert!(!is_next_satisfy(buffer, 2, |b| b == 10));
    assert!(!is_next_satisfy("".as_bytes(), 0, |b| b == 10));
}

#[test]
fn target_not_found_everywhere() {
    let buffer = "abc".as_bytes();
    assert!(extract_from(buffer, "x".as_bytes()).is_none());
    assert!(cut_tail_after(buffer, "x".as_bytes()).is_none());
    if let Err(Error::TargetNotFound(t)) = first_match_index(buffer, "xy".as_bytes()) {
        assert_eq!(t, vec![120, 121]);
    } else {
        panic!();
    }
}
