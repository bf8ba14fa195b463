//! Tokenizer: a byte window of the file into offset-tagged tokens.
use vstd::prelude::*;
use vstd::slice::{slice_subrange, slice_to_vec};
use vstd::utf8::*;

use crate::raw_byte;
use crate::util::str_from_utf8;

pub mod error;

use error::{Error, ErrorKind};

verus! {

/// What a token stands for.
#[derive(Debug, Clone, PartialEq)]
pub enum TokenContent {
    Eol,
    Boolean(bool),
    Integer(isize),
    /// A real number, kept as the literal bytes it was written with.
    Real(Vec<u8>),
    HexStr(Vec<u8>),
    String(Vec<u8>),
    Name(String),
    DictStart,
    DictEnd,
    ArrayStart,
    ArrayEnd,
    Null,
    IndirectRef(usize, usize),
    IndirectObjStart(usize, usize),
    IndirectObjEnd,
    /// File offset where the raw bytes of a stream begin; tokenizing stops
    /// there.
    StreamObjStart(u64),
}

/// A token and the file offset of its first byte.
#[derive(Debug, Clone, PartialEq)]
pub struct Token {
    pub token_content: TokenContent,
    pub byte_offset: u64,
}

impl Token {
    pub fn new(token_content: TokenContent, byte_offset: u64) -> (r: Token)
        ensures
            r.token_content == token_content,
            r.byte_offset == byte_offset,
    {
        Token { token_content, byte_offset }
    }

    pub fn content(&self) -> (r: &TokenContent)
        ensures
            *r == self.token_content,
    {
        &self.token_content
    }
}

/// NUL, TAB, FF and SPACE: skipped between tokens.
pub open spec fn is_space_byte(b: u8) -> bool {
    b == 0 || b == 9 || b == 12 || b == 32
}

/// White space, line boundaries included.
pub open spec fn is_white_byte(b: u8) -> bool {
    is_space_byte(b) || b == 10 || b == 13
}

/// The bytes that end a token: ( ) < > [ ] { } / %.
pub open spec fn is_delimiter_byte(b: u8) -> bool {
    b == 40 || b == 41 || b == 60 || b == 62 || b == 91 || b == 93 || b == 123 || b == 125
        || b == 47 || b == 37
}

/// Neither white space nor a delimiter.
pub open spec fn is_regular_byte(b: u8) -> bool {
    !is_white_byte(b) && !is_delimiter_byte(b)
}

pub open spec fn is_digit_byte(b: u8) -> bool {
    48 <= b <= 57
}

/// Digits, signs and the decimal point.
pub open spec fn is_number_byte(b: u8) -> bool {
    is_digit_byte(b) || b == 43 || b == 45 || b == 46
}

pub open spec fn is_hex_digit(b: u8) -> bool {
    is_digit_byte(b) || (65 <= b <= 70) || (97 <= b <= 102)
}

pub open spec fn hex_value(b: u8) -> int {
    if is_digit_byte(b) {
        b - 48
    } else if 65 <= b <= 70 {
        b - 55
    } else {
        b - 87
    }
}

/// Decoded hex string: digit pairs folded big-endian into bytes, an odd last
/// digit padded with 0.
pub open spec fn hex_decode(s: Seq<u8>) -> Seq<u8> {
    Seq::new(
        ((s.len() + 1) / 2) as nat,
        |k: int|
            (hex_value(s[2 * k]) * 16 + if 2 * k + 1 < s.len() {
                hex_value(s[2 * k + 1])
            } else {
                0
            }) as u8,
    )
}

/// Value of a run of decimal digits.
pub open spec fn digits_value(s: Seq<u8>) -> int
    decreases s.len(),
{
    if s.len() == 0 {
        0
    } else {
        digits_value(s.drop_last()) * 10 + (s.last() - 48)
    }
}

pub open spec fn all_digits(s: Seq<u8>) -> bool {
    forall|k: int| 0 <= k < s.len() ==> is_digit_byte(#[trigger] s[k])
}

/// Value of an optionally signed decimal integer literal, if `s` is one.
pub open spec fn integer_literal(s: Seq<u8>) -> Option<int> {
    if s.len() > 0 && (s[0] == 43 || s[0] == 45) {
        let d = s.drop_first();
        if d.len() > 0 && all_digits(d) {
            Some(if s[0] == 45 { -digits_value(d) } else { digits_value(d) })
        } else {
            None
        }
    } else if s.len() > 0 && all_digits(s) {
        Some(digits_value(s))
    } else {
        None
    }
}

/// `s` without its leading sign, if any.
pub open spec fn unsigned_part(s: Seq<u8>) -> Seq<u8> {
    if s.len() > 0 && (s[0] == 43 || s[0] == 45) {
        s.drop_first()
    } else {
        s
    }
}

/// An optionally signed run of digits with at most one decimal point and at
/// least one digit.
pub open spec fn is_real_literal(s: Seq<u8>) -> bool {
    let body = unsigned_part(s);
    &&& forall|k: int| 0 <= k < body.len() ==> is_digit_byte(#[trigger] body[k]) || body[k] == 46
    &&& exists|k: int| 0 <= k < body.len() && is_digit_byte(#[trigger] body[k])
    &&& forall|k: int, m: int|
        0 <= k < m < body.len() && #[trigger] body[k] == 46 ==> #[trigger] body[m] != 46
}

pub open spec fn is_octal_byte(b: u8) -> bool {
    48 <= b <= 55
}

/// Number of octal digits (at most 3) at the start of `s`.
pub open spec fn octal_run(s: Seq<u8>) -> int {
    if s.len() >= 3 && is_octal_byte(s[0]) && is_octal_byte(s[1]) && is_octal_byte(s[2]) {
        3
    } else if s.len() >= 2 && is_octal_byte(s[0]) && is_octal_byte(s[1]) {
        2
    } else {
        1
    }
}

/// Byte given by a run of up to three octal digits, modulo 256.
pub open spec fn octal_value(s: Seq<u8>) -> int
    decreases s.len(),
{
    if s.len() == 0 {
        0
    } else {
        octal_value(s.drop_last()) * 8 + (s.last() - 48)
    }
}

/// Byte that `\c` stands for when `c` is not an octal digit; an unknown
/// escape stands for `c` itself.
pub open spec fn escaped_byte(c: u8) -> u8 {
    if c == 110 {
        10
    } else if c == 114 {
        13
    } else if c == 116 {
        9
    } else if c == 98 {
        8
    } else if c == 102 {
        12
    } else {
        c
    }
}

/// Content of a literal string body with its backslash escapes resolved.
pub open spec fn unescape(s: Seq<u8>) -> Seq<u8>
    decreases s.len(),
{
    if s.len() == 0 {
        seq![]
    } else if s[0] != 92 {
        seq![s[0]] + unescape(s.drop_first())
    } else if s.len() == 1 {
        seq![]
    } else if is_octal_byte(s[1]) {
        let k = octal_run(s.subrange(1, s.len() as int));
        seq![(octal_value(s.subrange(1, 1 + k)) % 256) as u8] + unescape(
            s.subrange(1 + k, s.len() as int),
        )
    } else {
        seq![escaped_byte(s[1])] + unescape(s.subrange(2, s.len() as int))
    }
}

/// Printable ASCII, the bytes a name may hold.
pub open spec fn is_printable_ascii(s: Seq<u8>) -> bool {
    forall|k: int| 0 <= k < s.len() ==> 33 <= #[trigger] s[k] <= 126
}

proof fn lemma_ascii_valid_utf8(b: Seq<u8>)
    requires
        forall|k: int| 0 <= k < b.len() ==> b[k] < 128,
    ensures
        valid_utf8(b),
    decreases b.len(),
{
    if b.len() > 0 {
        let b0 = b[0];
        assert(b0 & 0x7f == b0) by (bit_vector)
            requires
                b0 < 128,
        ;
        let rest = b.subrange(1, b.len() as int);
        assert(pop_first_scalar(b) =~= rest);
        lemma_ascii_valid_utf8(rest);
    }
}

/// The characters of a name, which must be printable ASCII.
pub fn parse_name(buffer: &[u8]) -> (r: Result<String, ()>)
    ensures
        r is Ok <==> is_printable_ascii(buffer@),
        r matches Ok(s) ==> s@ == decode_utf8(buffer@),
{
    let mut k: usize = 0;
    while k < buffer.len()
        invariant
            k <= buffer@.len(),
            forall|m: int| 0 <= m < k ==> 33 <= #[trigger] buffer@[m] <= 126,
        decreases buffer@.len() - k,
    {
        if buffer[k] < 33 || buffer[k] > 126 {
            return Err(());
        }
        k += 1;
    }
    proof {
        lemma_ascii_valid_utf8(buffer@);
    }
    match str_from_utf8(buffer) {
        Some(s) => Ok(s.to_owned()),
        None => Err(()),
    }
}

fn hex_digit_value(b: u8) -> (r: u8)
    requires
        is_hex_digit(b),
    ensures
        r == hex_value(b),
        r < 16,
{
    if b <= 57 {
        b - 48
    } else if b <= 70 {
        b - 55
    } else {
        b - 87
    }
}

/// Bytes of a hex string body: digit pairs folded big-endian, an odd last
/// digit padded with 0; anything but hex digits is refused.
pub fn parse_hex_string(buffer: &[u8]) -> (r: Result<Vec<u8>, ()>)
    ensures
        r is Ok <==> forall|k: int| 0 <= k < buffer@.len() ==> is_hex_digit(#[trigger] buffer@[k]),
        r matches Ok(v) ==> v@ == hex_decode(buffer@),
{
    let n = buffer.len();
    let mut k: usize = 0;
    while k < n
        invariant
            n == buffer@.len(),
            k <= n,
            forall|m: int| 0 <= m < k ==> is_hex_digit(#[trigger] buffer@[m]),
        decreases n - k,
    {
        if !(buffer[k] <= 57 && buffer[k] >= 48 || buffer[k] >= 65 && buffer[k] <= 70 || buffer[k]
            >= 97 && buffer[k] <= 102) {
            return Err(());
        }
        k += 1;
    }
    let mut vec: Vec<u8> = Vec::new();
    let pairs = n - n / 2;
    let mut p: usize = 0;
    while p < pairs
        invariant
            n == buffer@.len(),
            pairs == n - n / 2,
            forall|m: int| 0 <= m < n ==> is_hex_digit(#[trigger] buffer@[m]),
            p <= pairs,
            vec@.len() == p,
            forall|m: int| 0 <= m < p ==> vec@[m] == #[trigger] hex_decode(buffer@)[m],
        decreases pairs - p,
    {
        let i = 2 * p;
        let hi = hex_digit_value(buffer[i]);
        let lo = if i + 1 < n {
            hex_digit_value(buffer[i + 1])
        } else {
            0
        };
        vec.push(hi * 16 + lo);
        p += 1;
    }
    assert(vec@ =~= hex_decode(buffer@));
    Ok(vec)
}

proof fn lemma_octal_value_bound(s: Seq<u8>)
    requires
        forall|k: int| 0 <= k < s.len() ==> is_octal_byte(#[trigger] s[k]),
    ensures
        0 <= octal_value(s),
    decreases s.len(),
{
    if s.len() > 0 {
        lemma_octal_value_bound(s.drop_last());
    }
}

/// Bytes of a literal string body with its backslash escapes resolved:
/// `\n \r \t \b \f \( \) \\`, up to three octal digits for any byte, and the
/// backslash dropped before any other byte.
pub fn parse_string(buffer: &[u8]) -> (r: Result<Vec<u8>, Error>)
    ensures
        r matches Ok(v) && v@ == unescape(buffer@),
{
    let n = buffer.len();
    let mut vec: Vec<u8> = Vec::new();
    let mut i: usize = 0;
    assert(buffer@.subrange(0, n as int) =~= buffer@);
    while i < n
        invariant
            n == buffer@.len(),
            i <= n,
            vec@ + unescape(buffer@.subrange(i as int, n as int)) == unescape(buffer@),
        decreases n - i,
    {
        let ghost rest = buffer@.subrange(i as int, n as int);
        let ghost old_vec = vec@;
        let byte = buffer[i];
        if byte != 92 {
            vec.push(byte);
            proof {
                assert(rest.drop_first() =~= buffer@.subrange(i + 1, n as int));
                assert(unescape(rest) == seq![byte] + unescape(rest.drop_first()));
                assert(vec@ + unescape(rest.drop_first()) =~= old_vec + unescape(rest));
            }
            i += 1;
        } else if i + 1 == n {
            proof {
                assert(unescape(rest) == Seq::<u8>::empty());
                assert(buffer@.subrange(n as int, n as int) =~= Seq::<u8>::empty());
                assert(unescape(Seq::<u8>::empty()) == Seq::<u8>::empty());
                assert(vec@ + unescape(Seq::<u8>::empty()) =~= old_vec + unescape(rest));
            }
            i += 1;
        } else {
            let c = buffer[i + 1];
            if 48 <= c && c <= 55 {
                let mut value: u16 = (c - 48) as u16;
                let mut j: usize = i + 2;
                proof {
                    let s1 = buffer@.subrange(i + 1, i + 2);
                    assert(s1.drop_last() =~= Seq::<u8>::empty());
                    assert(octal_value(s1.drop_last()) == 0);
                    assert(s1.last() == c);
                    assert(octal_value(s1) == c - 48);
                }
                if j < n && 48 <= buffer[j] && buffer[j] <= 55 {
                    proof {
                        let s2 = buffer@.subrange(i + 1, j + 1);
                        assert(s2.drop_last() =~= buffer@.subrange(i + 1, j as int));
                    }
                    value = value * 8 + (buffer[j] - 48) as u16;
                    j += 1;
                    assert(value == octal_value(buffer@.subrange(i + 1, j as int)));
                    if j < n && 48 <= buffer[j] && buffer[j] <= 55 {
                        proof {
                            let s3 = buffer@.subrange(i + 1, j + 1);
                            assert(s3.drop_last() =~= buffer@.subrange(i + 1, j as int));
                        }
                        value = value * 8 + (buffer[j] - 48) as u16;
                        j += 1;
                        assert(value == octal_value(buffer@.subrange(i + 1, j as int)));
                    }
                }
                assert(value == octal_value(buffer@.subrange(i + 1, j as int)));
                let x = (value % 256) as u8;
                vec.push(x);
                proof {
                    let tail = rest.subrange(1, rest.len() as int);
                    assert(tail =~= buffer@.subrange(i + 1, n as int));
                    assert(octal_run(tail) == j - (i + 1));
                    assert(rest.subrange(1, 1 + (j - (i + 1))) =~= buffer@.subrange(
                        i + 1,
                        j as int,
                    ));
                    assert(rest.subrange(1 + (j - (i + 1)), rest.len() as int) =~= buffer@.subrange(
                        j as int,
                        n as int,
                    ));
                    assert(unescape(rest) == seq![x] + unescape(buffer@.subrange(j as int, n as int)));
                    assert(vec@ + unescape(buffer@.subrange(j as int, n as int)) =~= old_vec
                        + unescape(rest));
                }
                i = j;
            } else {
                let x = escaped_byte_exec(c);
                vec.push(x);
                proof {
                    assert(buffer@.subrange(i + 2, n as int) =~= rest.subrange(2, rest.len() as int));
                    assert(unescape(rest) == seq![x] + unescape(buffer@.subrange(i + 2, n as int)));
                    assert(vec@ + unescape(buffer@.subrange(i + 2, n as int)) =~= old_vec
                        + unescape(rest));
                }
                i += 2;
            }
        }
    }
    assert(buffer@.subrange(n as int, n as int) =~= Seq::<u8>::empty());
    assert(vec@ =~= unescape(buffer@));
    Ok(vec)
}

fn escaped_byte_exec(c: u8) -> (r: u8)
    ensures
        r == escaped_byte(c),
{
    if c == 110 {
        10
    } else if c == 114 {
        13
    } else if c == 116 {
        9
    } else if c == 98 {
        8
    } else if c == 102 {
        12
    } else {
        c
    }
}

proof fn lemma_digits_value_nonneg(s: Seq<u8>)
    requires
        all_digits(s),
    ensures
        digits_value(s) >= 0,
    decreases s.len(),
{
    if s.len() > 0 {
        lemma_digits_value_nonneg(s.drop_last());
    }
}

/// Value of an optionally signed decimal integer literal that fits `isize`.
#[verifier::rlimit(40)]
pub fn parse_integer(s: &[u8]) -> (r: Option<isize>)
    ensures
        r is Some <==> (integer_literal(s@) matches Some(v) && isize::MIN <= v <= isize::MAX),
        r matches Some(v) ==> integer_literal(s@) == Some(v as int),
{
    let n = s.len();
    if n == 0 {
        return None;
    }
    let signed = s[0] == 43 || s[0] == 45;
    let negative = s[0] == 45;
    let start: usize = if signed {
        1
    } else {
        0
    };
    if start == n {
        return None;
    }
    let ghost d = s@.subrange(start as int, n as int);
    proof {
        if signed {
            assert(d =~= s@.drop_first());
        } else {
            assert(d =~= s@);
        }
    }
    let cap: u128 = isize::MAX as u128 + 1;
    let mut acc: u128 = 0;
    let mut overflow = false;
    let mut k: usize = start;
    while k < n
        invariant
            n == s@.len(),
            start <= k <= n,
            d == s@.subrange(start as int, n as int),
            n > 0,
            signed == (s@[0] == 43 || s@[0] == 45),
            signed ==> d == s@.drop_first(),
            !signed ==> d == s@,
            cap == isize::MAX as u128 + 1,
            all_digits(s@.subrange(start as int, k as int)),
            !overflow ==> acc == digits_value(s@.subrange(start as int, k as int)) && acc <= cap,
            overflow ==> digits_value(s@.subrange(start as int, k as int)) > cap,
        decreases n - k,
    {
        let b = s[k];
        if b < 48 || b > 57 {
            proof {
                assert(d[k - start] == b);
                assert(!all_digits(d));
                assert(integer_literal(s@) is None);
            }
            return None;
        }
        proof {
            let pre = s@.subrange(start as int, k as int);
            let next = s@.subrange(start as int, k + 1);
            assert(next.drop_last() =~= pre);
            assert(all_digits(next));
            lemma_digits_value_nonneg(pre);
        }
        if !overflow {
            let v = acc * 10 + (b - 48) as u128;
            if v > cap {
                overflow = true;
            } else {
                acc = v;
            }
        }
        k += 1;
    }
    assert(s@.subrange(start as int, n as int) =~= d);
    if overflow {
        return None;
    }
    if negative {
        let v: i128 = -(acc as i128);
        if v < isize::MIN as i128 {
            None
        } else {
            Some(v as isize)
        }
    } else {
        if acc > isize::MAX as u128 {
            None
        } else {
            Some(acc as isize)
        }
    }
}

/// Whether `s` is an optionally signed run of digits with at most one decimal
/// point and at least one digit.
pub fn is_real(s: &[u8]) -> (r: bool)
    ensures
        r == is_real_literal(s@),
{
    let n = s.len();
    let start: usize = if n > 0 && (s[0] == 43 || s[0] == 45) {
        1
    } else {
        0
    };
    let ghost body = unsigned_part(s@);
    assert(body =~= s@.subrange(start as int, n as int));
    let mut digits = false;
    let mut dots: usize = 0;
    let mut k: usize = start;
    while k < n
        invariant
            n == s@.len(),
            start <= k <= n,
            body == s@.subrange(start as int, n as int),
            body == unsigned_part(s@),
            forall|m: int| 0 <= m < k - start ==> is_digit_byte(#[trigger] body[m]) || body[m] == 46,
            digits <==> exists|m: int| 0 <= m < k - start && is_digit_byte(#[trigger] body[m]),
            dots <= 1,
            dots == 0 ==> forall|m: int| 0 <= m < k - start ==> #[trigger] body[m] != 46,
            dots == 1 ==> exists|m: int| 0 <= m < k - start && #[trigger] body[m] == 46,
            forall|a: int, c: int|
                0 <= a < c < k - start && #[trigger] body[a] == 46 ==> #[trigger] body[c] != 46,
        decreases n - k,
    {
        let b = s[k];
        assert(body[k - start] == b);
        if 48 <= b && b <= 57 {
            digits = true;
        } else if b == 46 {
            if dots == 1 {
                proof {
                    let m = choose|m: int| 0 <= m < k - start && #[trigger] body[m] == 46;
                    assert(body[m] == 46 && body[k - start] == 46);
                    assert(!is_real_literal(s@));
                }
                return false;
            }
            dots = 1;
        } else {
            proof {
                assert(!(is_digit_byte(body[k - start]) || body[k - start] == 46));
                assert(!is_real_literal(s@));
            }
            return false;
        }
        k += 1;
    }
    assert(body.len() == n - start);
    digits
}

pub open spec fn kw_obj() -> Seq<u8> {
    seq![111u8, 98, 106]
}

pub open spec fn kw_endobj() -> Seq<u8> {
    seq![101u8, 110, 100, 111, 98, 106]
}

pub open spec fn kw_stream() -> Seq<u8> {
    seq![115u8, 116, 114, 101, 97, 109]
}

pub open spec fn kw_null() -> Seq<u8> {
    seq![110u8, 117, 108, 108]
}

pub open spec fn kw_true() -> Seq<u8> {
    seq![116u8, 114, 117, 101]
}

pub open spec fn kw_false() -> Seq<u8> {
    seq![102u8, 97, 108, 115, 101]
}

/// The bytes from `i` to the end of `buffer` are a proper prefix of `kw`:
/// the window ends inside the keyword.
pub open spec fn cut_keyword(buffer: Seq<u8>, i: int, kw: Seq<u8>) -> bool {
    &&& 0 <= i <= buffer.len()
    &&& buffer.len() - i < kw.len()
    &&& forall|k: int| 0 <= k < buffer.len() - i ==> buffer[i + k] == kw[k]
}

/// Some token starts an indirect object.
pub open spec fn has_start_token(t: Seq<Token>) -> bool {
    exists|k: int| 0 <= k < t.len() && (#[trigger] t[k]).token_content is IndirectObjStart
}

/// Some token ends an indirect object.
pub open spec fn has_end_token(t: Seq<Token>) -> bool {
    exists|k: int| 0 <= k < t.len() && (#[trigger] t[k]).token_content is IndirectObjEnd
}

proof fn lemma_push_token(t: Seq<Token>, x: Token)
    ensures
        has_start_token(t.push(x)) == (has_start_token(t) || x.token_content is IndirectObjStart),
        has_end_token(t.push(x)) == (has_end_token(t) || x.token_content is IndirectObjEnd),
{
    let u = t.push(x);
    assert(u[t.len() as int] == x);
    if has_start_token(t) {
        let k = choose|k: int| 0 <= k < t.len() && (#[trigger] t[k]).token_content is IndirectObjStart;
        assert(u[k] == t[k]);
    }
    if has_end_token(t) {
        let k = choose|k: int| 0 <= k < t.len() && (#[trigger] t[k]).token_content is IndirectObjEnd;
        assert(u[k] == t[k]);
    }
    if has_start_token(u) {
        let k = choose|k: int| 0 <= k < u.len() && (#[trigger] u[k]).token_content is IndirectObjStart;
        if k < t.len() {
            assert(u[k] == t[k]);
        }
    }
    if has_end_token(u) {
        let k = choose|k: int| 0 <= k < u.len() && (#[trigger] u[k]).token_content is IndirectObjEnd;
        if k < t.len() {
            assert(u[k] == t[k]);
        }
    }
}

proof fn lemma_drop_integers(t: Seq<Token>)
    requires
        t.len() >= 2,
        t[t.len() - 1].token_content is Integer,
        t[t.len() - 2].token_content is Integer,
    ensures
        has_start_token(t.subrange(0, t.len() - 2)) == has_start_token(t),
        has_end_token(t.subrange(0, t.len() - 2)) == has_end_token(t),
{
    let u = t.subrange(0, t.len() - 2);
    if has_start_token(t) {
        let k = choose|k: int| 0 <= k < t.len() && (#[trigger] t[k]).token_content is IndirectObjStart;
        assert(u[k] == t[k]);
    }
    if has_end_token(t) {
        let k = choose|k: int| 0 <= k < t.len() && (#[trigger] t[k]).token_content is IndirectObjEnd;
        assert(u[k] == t[k]);
    }
    if has_start_token(u) {
        let k = choose|k: int| 0 <= k < u.len() && (#[trigger] u[k]).token_content is IndirectObjStart;
        assert(u[k] == t[k]);
    }
    if has_end_token(u) {
        let k = choose|k: int| 0 <= k < u.len() && (#[trigger] u[k]).token_content is IndirectObjEnd;
        assert(u[k] == t[k]);
    }
}

fn keyword_at(buffer: &[u8], i: usize, kw: &[u8]) -> (r: bool)
    ensures
        r == raw_byte::matches_at(buffer@, kw@, i as int),
{
    let n = buffer.len();
    let m = kw.len();
    if m > n || i > n - m {
        return false;
    }
    let mut k: usize = 0;
    while k < m
        invariant
            n == buffer@.len(),
            m == kw@.len(),
            i + m <= n,
            k <= m,
            forall|j: int| 0 <= j < k ==> buffer@[i + j] == kw@[j],
        decreases m - k,
    {
        if buffer[i + k] != kw[k] {
            return false;
        }
        k += 1;
    }
    true
}

fn keyword_cut_at(buffer: &[u8], i: usize, kw: &[u8]) -> (r: bool)
    requires
        i <= buffer@.len(),
    ensures
        r == cut_keyword(buffer@, i as int, kw@),
{
    let n = buffer.len();
    if n - i >= kw.len() {
        return false;
    }
    let mut k: usize = 0;
    while k < n - i
        invariant
            n == buffer@.len(),
            i <= n,
            n - i < kw@.len(),
            k <= n - i,
            forall|j: int| 0 <= j < k ==> buffer@[i + j] == kw@[j],
        decreases n - i - k,
    {
        if buffer[i + k] != kw[k] {
            return false;
        }
        k += 1;
    }
    true
}

fn is_regular(b: u8) -> (r: bool)
    ensures
        r == is_regular_byte(b),
{
    !(b == 0 || b == 9 || b == 12 || b == 32 || b == 10 || b == 13 || b == 40 || b == 41 || b
        == 60 || b == 62 || b == 91 || b == 93 || b == 123 || b == 125 || b == 47 || b == 37)
}

fn is_number(b: u8) -> (r: bool)
    ensures
        r == is_number_byte(b),
{
    (48 <= b && b <= 57) || b == 43 || b == 45 || b == 46
}

fn is_hex(b: u8) -> (r: bool)
    ensures
        r == is_hex_digit(b),
{
    (48 <= b && b <= 57) || (65 <= b && b <= 70) || (97 <= b && b <= 102)
}

/// End of the run of number bytes that starts at `i`.
fn number_run_end(buffer: &[u8], i: usize) -> (e: usize)
    requires
        i <= buffer@.len(),
    ensures
        i <= e <= buffer@.len(),
        forall|k: int| i <= k < e ==> is_number_byte(#[trigger] buffer@[k]),
        e == buffer@.len() || !is_number_byte(buffer@[e as int]),
        e == run_end(buffer@, i as int, 0),
{
    let mut e = i;
    while e < buffer.len() && is_number(buffer[e])
        invariant
            i <= e <= buffer@.len(),
            forall|k: int| i <= k < e ==> is_number_byte(#[trigger] buffer@[k]),
        decreases buffer@.len() - e,
    {
        e += 1;
    }
    proof {
        lemma_run_end(buffer@, i as int, e as int, 0);
    }
    e
}

/// End of the run of regular bytes that starts at `i`.
fn regular_run_end(buffer: &[u8], i: usize) -> (e: usize)
    requires
        i <= buffer@.len(),
    ensures
        i <= e <= buffer@.len(),
        forall|k: int| i <= k < e ==> is_regular_byte(#[trigger] buffer@[k]),
        e == buffer@.len() || !is_regular_byte(buffer@[e as int]),
        e == run_end(buffer@, i as int, 1),
{
    let mut e = i;
    while e < buffer.len() && is_regular(buffer[e])
        invariant
            i <= e <= buffer@.len(),
            forall|k: int| i <= k < e ==> is_regular_byte(#[trigger] buffer@[k]),
        decreases buffer@.len() - e,
    {
        e += 1;
    }
    proof {
        lemma_run_end(buffer@, i as int, e as int, 1);
    }
    e
}

/// End of the run of hex digits that starts at `i`.
fn hex_run_end(buffer: &[u8], i: usize) -> (e: usize)
    requires
        i <= buffer@.len(),
    ensures
        i <= e <= buffer@.len(),
        forall|k: int| i <= k < e ==> is_hex_digit(#[trigger] buffer@[k]),
        e == buffer@.len() || !is_hex_digit(buffer@[e as int]),
        e == run_end(buffer@, i as int, 2),
{
    let mut e = i;
    while e < buffer.len() && is_hex(buffer[e])
        invariant
            i <= e <= buffer@.len(),
            forall|k: int| i <= k < e ==> is_hex_digit(#[trigger] buffer@[k]),
        decreases buffer@.len() - e,
    {
        e += 1;
    }
    proof {
        lemma_run_end(buffer@, i as int, e as int, 2);
    }
    e
}

/// Index of the `)` that closes the literal string opened at `open`: the
/// first one that is neither escaped nor balanced by an earlier unescaped `(`.
fn literal_string_end(buffer: &[u8], open: usize) -> (r: Option<usize>)
    requires
        open < buffer@.len(),
    ensures
        r matches Some(c) ==> open < c < buffer@.len() && buffer@[c as int] == 41,
        r matches Some(c) ==> string_close(buffer@, open + 1, 0, false) == Some(c as int),
        r is None ==> string_close(buffer@, open + 1, 0, false) is None,
{
    let n = buffer.len();
    let mut j = open + 1;
    let mut prev_backslash = false;
    let mut depth: usize = 0;
    while j < n
        invariant
            n == buffer@.len(),
            open < j <= n,
            depth <= j - open,
            string_close(buffer@, j as int, depth as int, prev_backslash) == string_close(
                buffer@,
                open + 1,
                0,
                false,
            ),
        decreases n - j,
    {
        let c = buffer[j];
        if !prev_backslash && depth == 0 && c == 41 {
            return Some(j);
        }
        if !prev_backslash && c == 40 {
            depth += 1;
        }
        if !prev_backslash && c == 41 && depth != 0 {
            depth -= 1;
        }
        prev_backslash = !prev_backslash && c == 92;
        j += 1;
    }
    None
}

/// `buf[i..e]` is a whole run of number bytes.
pub open spec fn number_run(buf: Seq<u8>, i: int, e: int) -> bool {
    &&& 0 <= i < e <= buf.len()
    &&& forall|k: int| i <= k < e ==> is_number_byte(#[trigger] buf[k])
    &&& (e == buf.len() || !is_number_byte(buf[e]))
}

/// `buf[i..e]` is `/` and a whole run of regular bytes.
pub open spec fn name_run(buf: Seq<u8>, i: int, e: int) -> bool {
    &&& 0 <= i < e <= buf.len()
    &&& buf[i] == 47
    &&& forall|k: int| i < k < e ==> is_regular_byte(#[trigger] buf[k])
    &&& (e == buf.len() || !is_regular_byte(buf[e]))
}

/// An integer literal of value `v` starts at `i`.
pub open spec fn integer_at(buf: Seq<u8>, i: int, v: int) -> bool {
    exists|e: int| number_run(buf, i, e) && integer_literal(#[trigger] buf.subrange(i, e)) == Some(v)
}

/// The keyword that ends before `e` is not followed by a regular byte.
pub open spec fn keyword_ends(buf: Seq<u8>, e: int) -> bool {
    e >= buf.len() || !is_regular_byte(buf[e])
}

/// What the bytes at `i` of a window starting at file offset `base` must be
/// for a token with content `c` to begin there.
pub open spec fn content_at(buf: Seq<u8>, base: int, i: int, c: TokenContent) -> bool {
    match c {
        TokenContent::Integer(v) => integer_at(buf, i, v as int),
        TokenContent::Real(v) => exists|e: int|
            number_run(buf, i, e) && v@ == #[trigger] buf.subrange(i, e) && is_real_literal(v@),
        TokenContent::Name(s) => exists|e: int|
            name_run(buf, i, e) && is_printable_ascii(#[trigger] buf.subrange(i + 1, e)) && s@
                == decode_utf8(buf.subrange(i + 1, e)),
        TokenContent::HexStr(v) => exists|e: int|
            0 <= i < e < buf.len() && buf[i] == 60 && buf[e] == 62 && (forall|k: int|
                i < k < e ==> is_hex_digit(#[trigger] buf[k])) && v@ == hex_decode(
                #[trigger] buf.subrange(i + 1, e),
            ),
        TokenContent::String(v) => exists|e: int|
            0 <= i < e < buf.len() && buf[i] == 40 && buf[e] == 41 && v@ == unescape(
                #[trigger] buf.subrange(i + 1, e),
            ),
        TokenContent::DictStart => 0 <= i && i + 1 < buf.len() && buf[i] == 60 && buf[i + 1] == 60,
        TokenContent::DictEnd => 0 <= i && i + 1 < buf.len() && buf[i] == 62 && buf[i + 1] == 62,
        TokenContent::ArrayStart => 0 <= i < buf.len() && buf[i] == 91,
        TokenContent::ArrayEnd => 0 <= i < buf.len() && buf[i] == 93,
        TokenContent::Null => raw_byte::matches_at(buf, kw_null(), i) && keyword_ends(buf, i + 4),
        TokenContent::Boolean(b) => if b {
            raw_byte::matches_at(buf, kw_true(), i) && keyword_ends(buf, i + 4)
        } else {
            raw_byte::matches_at(buf, kw_false(), i) && keyword_ends(buf, i + 5)
        },
        TokenContent::IndirectRef(n, _) => integer_at(buf, i, n as int),
        TokenContent::IndirectObjStart(n, _) => integer_at(buf, i, n as int),
        TokenContent::IndirectObjEnd => (raw_byte::matches_at(buf, kw_endobj(), i) && keyword_ends(
            buf,
            i + 6,
        )) || raw_byte::matches_at(buf, kw_stream(), i),
        TokenContent::StreamObjStart(o) => raw_byte::matches_at(buf, kw_stream(), i) && (
        (i + 6 < buf.len() && buf[i + 6] == 10 && o == base + i + 7) || (i + 7 < buf.len() && buf[i
            + 6] == 13 && buf[i + 7] == 10 && o == base + i + 8)),
        TokenContent::Eol => false,
    }
}

/// The token begins inside the window and stands for the bytes there.
pub open spec fn token_sound(buf: Seq<u8>, base: u64, t: Token) -> bool {
    &&& base <= t.byte_offset < base + buf.len()
    &&& content_at(buf, base as int, t.byte_offset - base, t.token_content)
}

/// Every token stands for the bytes at its offset.
pub open spec fn all_sound(buf: Seq<u8>, base: u64, t: Seq<Token>) -> bool {
    forall|k: int| 0 <= k < t.len() ==> token_sound(buf, base, #[trigger] t[k])
}

/// Tokens come in file order.
pub open spec fn in_file_order(t: Seq<Token>) -> bool {
    forall|a: int, b: int| 0 <= a < b < t.len() ==> (#[trigger] t[a]).byte_offset <= (#[trigger] t[b]).byte_offset
}

/// Every token begins before file offset `limit`.
pub open spec fn all_before(t: Seq<Token>, limit: int) -> bool {
    forall|k: int| 0 <= k < t.len() ==> (#[trigger] t[k]).byte_offset < limit
}

proof fn lemma_push_ordered(t: Seq<Token>, x: Token, limit: int)
    requires
        in_file_order(t),
        all_before(t, limit),
        limit <= x.byte_offset,
    ensures
        in_file_order(t.push(x)),
        all_before(t.push(x), x.byte_offset + 1),
{
    let u = t.push(x);
    assert forall|a: int, b: int| 0 <= a < b < u.len() implies (#[trigger] u[a]).byte_offset <= (
    #[trigger] u[b]).byte_offset by {
        assert(u[a] == t[a]);
        if b < t.len() {
            assert(u[b] == t[b]);
        }
    }
    assert forall|k: int| 0 <= k < u.len() implies (#[trigger] u[k]).byte_offset < x.byte_offset + 1 by {
        if k < t.len() {
            assert(u[k] == t[k]);
        }
    }
}

proof fn lemma_push_sound(buf: Seq<u8>, base: u64, t: Seq<Token>, x: Token)
    requires
        all_sound(buf, base, t),
        token_sound(buf, base, x),
    ensures
        all_sound(buf, base, t.push(x)),
{
    assert forall|k: int| 0 <= k < t.push(x).len() implies token_sound(buf, base, #[trigger] t.push(x)[k]) by {
        if k < t.len() {
            assert(t.push(x)[k] == t[k]);
        }
    }
}

/// A token's content as a mathematical value.
pub enum TokenModel {
    Eol,
    Boolean(bool),
    Integer(int),
    Real(Seq<u8>),
    HexStr(Seq<u8>),
    String(Seq<u8>),
    Name(Seq<char>),
    DictStart,
    DictEnd,
    ArrayStart,
    ArrayEnd,
    Null,
    IndirectRef(int, int),
    IndirectObjStart(int, int),
    IndirectObjEnd,
    StreamObjStart(int),
}

pub open spec fn content_view(c: TokenContent) -> TokenModel {
    match c {
        TokenContent::Eol => TokenModel::Eol,
        TokenContent::Boolean(b) => TokenModel::Boolean(b),
        TokenContent::Integer(v) => TokenModel::Integer(v as int),
        TokenContent::Real(v) => TokenModel::Real(v@),
        TokenContent::HexStr(v) => TokenModel::HexStr(v@),
        TokenContent::String(v) => TokenModel::String(v@),
        TokenContent::Name(s) => TokenModel::Name(s@),
        TokenContent::DictStart => TokenModel::DictStart,
        TokenContent::DictEnd => TokenModel::DictEnd,
        TokenContent::ArrayStart => TokenModel::ArrayStart,
        TokenContent::ArrayEnd => TokenModel::ArrayEnd,
        TokenContent::Null => TokenModel::Null,
        TokenContent::IndirectRef(n, g) => TokenModel::IndirectRef(n as int, g as int),
        TokenContent::IndirectObjStart(n, g) => TokenModel::IndirectObjStart(n as int, g as int),
        TokenContent::IndirectObjEnd => TokenModel::IndirectObjEnd,
        TokenContent::StreamObjStart(o) => TokenModel::StreamObjStart(o as int),
    }
}

/// A token as its content and file offset.
pub open spec fn token_view(t: Token) -> (TokenModel, int) {
    (content_view(t.token_content), t.byte_offset as int)
}

pub open spec fn tokens_view(s: Seq<Token>) -> Seq<(TokenModel, int)> {
    s.map_values(|t: Token| token_view(t))
}

/// Bytes of a run class: number bytes, regular bytes or hex digits.
pub open spec fn in_class(b: u8, class: int) -> bool {
    if class == 0 {
        is_number_byte(b)
    } else if class == 1 {
        is_regular_byte(b)
    } else {
        is_hex_digit(b)
    }
}

/// End of the run of bytes of `class` that starts at `j`.
pub open spec fn run_end(buf: Seq<u8>, j: int, class: int) -> int
    decreases buf.len() - j,
{
    if 0 <= j < buf.len() && in_class(buf[j], class) {
        run_end(buf, j + 1, class)
    } else {
        j
    }
}

proof fn lemma_run_end(buf: Seq<u8>, j: int, e: int, class: int)
    requires
        0 <= j <= e <= buf.len(),
        forall|k: int| j <= k < e ==> in_class(#[trigger] buf[k], class),
        e == buf.len() || !in_class(buf[e], class),
    ensures
        run_end(buf, j, class) == e,
    decreases e - j,
{
    if j < e {
        lemma_run_end(buf, j + 1, e, class);
    }
}

/// Index of the `)` that closes a literal string, scanning from `j` at
/// parenthesis depth `depth`, `prev` telling whether the byte before `j` was
/// an unescaped backslash.
pub open spec fn string_close(buf: Seq<u8>, j: int, depth: int, prev: bool) -> Option<int>
    decreases buf.len() - j,
{
    if j < 0 || j >= buf.len() {
        None
    } else {
        let c = buf[j];
        if !prev && depth == 0 && c == 41 {
            Some(j)
        } else {
            let d1 = if !prev && c == 40 {
                depth + 1
            } else {
                depth
            };
            let d2 = if !prev && c == 41 && d1 != 0 {
                d1 - 1
            } else {
                d1
            };
            string_close(buf, j + 1, d2, !prev && c == 92)
        }
    }
}

/// What reading one token at `i` does.
pub enum LexStep {
    /// Go on at `j` with these tokens.
    Next(int, Seq<(TokenModel, int)>),
    /// Tokenizing ends with these tokens.
    Done(Seq<(TokenModel, int)>),
    /// Tokenizing fails with this kind, at the token's offset.
    Fail(ErrorKind),
}

/// The two newest tokens are a positive and a non-negative integer.
pub open spec fn ends_with_number_pair(t: Seq<(TokenModel, int)>) -> bool {
    t.len() >= 2 && match (t[t.len() - 2].0, t[t.len() - 1].0) {
        (TokenModel::Integer(o), TokenModel::Integer(g)) => o > 0 && g >= 0,
        _ => false,
    }
}

/// `R` or `obj`: the two newest tokens, integers, become one reference or
/// object start at the first one's offset.
pub open spec fn merge_step(t: Seq<(TokenModel, int)>, next: int, is_ref: bool) -> LexStep {
    if ends_with_number_pair(t) {
        let o = t[t.len() - 2].0->Integer_0;
        let g = t[t.len() - 1].0->Integer_0;
        let merged = if is_ref {
            TokenModel::IndirectRef(o, g)
        } else {
            TokenModel::IndirectObjStart(o, g)
        };
        LexStep::Next(next, t.subrange(0, t.len() - 2).push((merged, t[t.len() - 2].1)))
    } else {
        LexStep::Fail(ErrorKind::InvalidIndirectRef)
    }
}

/// A keyword that must be followed by white space, a delimiter or the end.
pub open spec fn keyword_step(
    buf: Seq<u8>,
    i: int,
    len: int,
    t: Seq<(TokenModel, int)>,
    tok: (TokenModel, int),
) -> LexStep {
    if keyword_ends(buf, i + len) {
        LexStep::Next(i + len, t.push(tok))
    } else {
        LexStep::Fail(ErrorKind::UndefinedKeyword)
    }
}

/// `stream` at `i`: then LF or CR LF, after which the raw bytes begin.
pub open spec fn stream_step(buf: Seq<u8>, base: int, i: int, t: Seq<(TokenModel, int)>) -> LexStep {
    let k = i + 6;
    let at = base + i;
    if k >= buf.len() {
        LexStep::Fail(ErrorKind::ConfirmStream)
    } else if buf[k] == 10 {
        LexStep::Done(
            t.push((TokenModel::IndirectObjEnd, at)).push((TokenModel::StreamObjStart(base + k + 1), at)),
        )
    } else if buf[k] == 13 {
        if k + 1 >= buf.len() {
            LexStep::Fail(ErrorKind::ConfirmStream)
        } else if buf[k + 1] == 10 {
            LexStep::Done(
                t.push((TokenModel::IndirectObjEnd, at)).push(
                    (TokenModel::StreamObjStart(base + k + 2), at),
                ),
            )
        } else {
            LexStep::Fail(ErrorKind::UnexpectedByte)
        }
    } else {
        LexStep::Fail(ErrorKind::UnexpectedByte)
    }
}

/// A number at `i`: an integer that fits `isize`, else a real, else an error.
pub open spec fn number_step(buf: Seq<u8>, base: int, i: int, t: Seq<(TokenModel, int)>) -> LexStep {
    let e = run_end(buf, i, 0);
    let run = buf.subrange(i, e);
    match integer_literal(run) {
        Some(v) if isize::MIN <= v <= isize::MAX => LexStep::Next(e, t.push((TokenModel::Integer(v), base + i))),
        _ => if is_real_literal(run) {
            LexStep::Next(e, t.push((TokenModel::Real(run), base + i)))
        } else if e == buf.len() {
            LexStep::Fail(ErrorKind::FinishInObject)
        } else {
            LexStep::Fail(ErrorKind::ParseNumber)
        },
    }
}

/// `<` or `>` at `i`: a dictionary bracket or a hex string.
pub open spec fn angle_step(buf: Seq<u8>, base: int, i: int, t: Seq<(TokenModel, int)>) -> LexStep {
    let at = base + i;
    if i + 1 >= buf.len() {
        LexStep::Fail(ErrorKind::FinishInObject)
    } else if buf[i] == 62 {
        if buf[i + 1] != 62 {
            LexStep::Fail(ErrorKind::UnexpectedByte)
        } else {
            LexStep::Next(i + 2, t.push((TokenModel::DictEnd, at)))
        }
    } else if buf[i + 1] == 60 {
        LexStep::Next(i + 2, t.push((TokenModel::DictStart, at)))
    } else {
        let e = run_end(buf, i + 1, 2);
        if e >= buf.len() {
            LexStep::Fail(ErrorKind::FinishInObject)
        } else if buf[e] != 62 {
            LexStep::Fail(ErrorKind::UnexpectedByte)
        } else {
            LexStep::Next(e + 1, t.push((TokenModel::HexStr(hex_decode(buf.subrange(i + 1, e))), at)))
        }
    }
}

/// A keyword at `i`, or a byte that starts no token.
pub open spec fn keyword_dispatch(buf: Seq<u8>, base: int, i: int, t: Seq<(TokenModel, int)>) -> LexStep {
    let at = base + i;
    if raw_byte::matches_at(buf, kw_obj(), i) {
        merge_step(t, i + 3, false)
    } else if raw_byte::matches_at(buf, kw_endobj(), i) {
        if keyword_ends(buf, i + 6) {
            LexStep::Done(t.push((TokenModel::IndirectObjEnd, at)))
        } else {
            LexStep::Fail(ErrorKind::UndefinedKeyword)
        }
    } else if raw_byte::matches_at(buf, kw_stream(), i) {
        stream_step(buf, base, i, t)
    } else if raw_byte::matches_at(buf, kw_null(), i) {
        keyword_step(buf, i, 4, t, (TokenModel::Null, at))
    } else if raw_byte::matches_at(buf, kw_true(), i) {
        keyword_step(buf, i, 4, t, (TokenModel::Boolean(true), at))
    } else if raw_byte::matches_at(buf, kw_false(), i) {
        keyword_step(buf, i, 5, t, (TokenModel::Boolean(false), at))
    } else if cut_keyword(buf, i, kw_obj()) || cut_keyword(buf, i, kw_endobj()) || cut_keyword(
        buf,
        i,
        kw_stream(),
    ) || cut_keyword(buf, i, kw_null()) || cut_keyword(buf, i, kw_true()) || cut_keyword(
        buf,
        i,
        kw_false(),
    ) {
        LexStep::Fail(ErrorKind::FinishInObject)
    } else {
        LexStep::Fail(ErrorKind::UndefinedKeyword)
    }
}

/// The token that starts at `i` (not white space, not a comment).
pub open spec fn lex_step(buf: Seq<u8>, base: int, i: int, t: Seq<(TokenModel, int)>) -> LexStep {
    let b = buf[i];
    let at = base + i;
    if is_number_byte(b) {
        number_step(buf, base, i, t)
    } else if b == 47 {
        let e = run_end(buf, i + 1, 1);
        let name = buf.subrange(i + 1, e);
        if is_printable_ascii(name) {
            LexStep::Next(e, t.push((TokenModel::Name(decode_utf8(name)), at)))
        } else {
            LexStep::Fail(ErrorKind::ParseName)
        }
    } else if b == 60 || b == 62 {
        angle_step(buf, base, i, t)
    } else if b == 40 {
        match string_close(buf, i + 1, 0, false) {
            Some(c) => LexStep::Next(c + 1, t.push((TokenModel::String(unescape(buf.subrange(i + 1, c))), at))),
            None => LexStep::Fail(ErrorKind::FinishInObject),
        }
    } else if b == 91 {
        LexStep::Next(i + 1, t.push((TokenModel::ArrayStart, at)))
    } else if b == 93 {
        LexStep::Next(i + 1, t.push((TokenModel::ArrayEnd, at)))
    } else if b == 82 {
        merge_step(t, i + 1, true)
    } else {
        keyword_dispatch(buf, base, i, t)
    }
}

/// Tokenizing from `i` with tokens `t` so far, inside a comment or not: the
/// tokens and whether it stopped after `endobj` / `stream`, or the error
/// kind and its file offset.
pub open spec fn lex_from(buf: Seq<u8>, base: int, i: int, t: Seq<(TokenModel, int)>, comment: bool) -> Result<
    (Seq<(TokenModel, int)>, bool),
    (ErrorKind, int),
>
    decreases buf.len() - i,
{
    if i < 0 || i >= buf.len() {
        Ok((t, false))
    } else {
        let b = buf[i];
        if b == 10 {
            lex_from(buf, base, i + 1, t, false)
        } else if b == 13 {
            lex_from(
                buf,
                base,
                if i + 1 < buf.len() && buf[i + 1] == 10 {
                    i + 2
                } else {
                    i + 1
                },
                t,
                false,
            )
        } else if comment || is_space_byte(b) {
            lex_from(buf, base, i + 1, t, comment)
        } else if b == 37 {
            lex_from(buf, base, i + 1, t, true)
        } else {
            match lex_step(buf, base, i, t) {
                LexStep::Next(j, t2) => if i < j <= buf.len() {
                    lex_from(buf, base, j, t2, false)
                } else {
                    Ok((t2, false))
                },
                LexStep::Done(t2) => Ok((t2, true)),
                LexStep::Fail(k) => Err((k, base + i)),
            }
        }
    }
}

/// The tokens of a window at file offset `base`; none where tokenizing fails.
pub open spec fn lexed_tokens(buf: Seq<u8>, base: int) -> Seq<(TokenModel, int)> {
    match lexes(buf, base) {
        Ok((t, _)) => t,
        Err(_) => seq![],
    }
}

/// Some token starts an indirect object.
pub open spec fn model_has_start(t: Seq<(TokenModel, int)>) -> bool {
    exists|k: int| 0 <= k < t.len() && (#[trigger] t[k]).0 is IndirectObjStart
}

pub proof fn lemma_has_start_view(s: Seq<Token>)
    ensures
        has_start_token(s) == model_has_start(tokens_view(s)),
{
    let v = tokens_view(s);
    if has_start_token(s) {
        let k = choose|k: int| 0 <= k < s.len() && (#[trigger] s[k]).token_content is IndirectObjStart;
        assert(v[k] == token_view(s[k]));
    }
    if model_has_start(v) {
        let k = choose|k: int| 0 <= k < v.len() && (#[trigger] v[k]).0 is IndirectObjStart;
        assert(v[k] == token_view(s[k]));
    }
}

/// The tokens of a window at file offset `base`, and whether tokenizing
/// stopped after `endobj` / `stream`; or the error kind and offset.
pub open spec fn lexes(buf: Seq<u8>, base: int) -> Result<(Seq<(TokenModel, int)>, bool), (ErrorKind, int)> {
    lex_from(buf, base, 0, seq![], false)
}

/// Tokenizer over one window of the file.
pub struct Lexer<'a> {
    pub buffer: &'a [u8],
    pub buffer_start_offset: u64,
    pub i: usize,
    pub token_head_i: usize,
    pub has_indirect_obj_start: bool,
    pub has_indirect_obj_end: bool,
    pub token_vec: Vec<Token>,
}

impl<'a> Lexer<'a> {
    /// Every token begins inside the window.
    pub open spec fn offsets_in_window(&self) -> bool {
        forall|k: int|
            0 <= k < self.token_vec@.len() ==> self.buffer_start_offset
                <= #[trigger] self.token_vec@[k].byte_offset < self.buffer_start_offset
                + self.buffer@.len()
    }

    /// The state `new` leaves: nothing read, no token.
    pub open spec fn is_fresh(&self) -> bool {
        &&& self.buffer@.len() > 0
        &&& self.buffer_start_offset + self.buffer@.len() <= u64::MAX
        &&& self.i == 0
        &&& self.token_head_i == 0
        &&& !self.has_indirect_obj_start
        &&& !self.has_indirect_obj_end
        &&& self.token_vec@.len() == 0
    }

    /// A tokenizer over `buffer`, which starts at file offset
    /// `buffer_start_offset`.
    pub fn new(buffer: &'a [u8], buffer_start_offset: u64) -> (r: Lexer<'a>)
        requires
            buffer@.len() > 0,
            buffer_start_offset + buffer@.len() <= u64::MAX,
        ensures
            r.buffer@ == buffer@,
            r.buffer_start_offset == buffer_start_offset,
            r.is_fresh(),
    {
        Lexer {
            buffer,
            buffer_start_offset,
            i: 0,
            token_head_i: 0,
            has_indirect_obj_start: false,
            has_indirect_obj_end: false,
            token_vec: Vec::new(),
        }
    }

    fn confirm_token(&mut self, token_content: TokenContent)
        requires
            old(self).token_head_i < old(self).buffer@.len(),
            old(self).buffer_start_offset + old(self).buffer@.len() <= u64::MAX,
        ensures
            final(self).token_vec@ == old(self).token_vec@.push(
                Token {
                    token_content,
                    byte_offset: (old(self).buffer_start_offset + old(self).token_head_i) as u64,
                },
            ),
            final(self).buffer == old(self).buffer,
            final(self).buffer_start_offset == old(self).buffer_start_offset,
            final(self).i == old(self).i,
            final(self).token_head_i == old(self).token_head_i,
            final(self).has_indirect_obj_start == old(self).has_indirect_obj_start,
            final(self).has_indirect_obj_end == old(self).has_indirect_obj_end,
    {
        let byte_offset = self.buffer_start_offset + self.token_head_i as u64;
        self.token_vec.push(Token { token_content, byte_offset });
    }

    fn construct_error(&self, kind: ErrorKind) -> (e: Error)
        requires
            self.token_head_i <= self.buffer@.len(),
            self.buffer_start_offset + self.buffer@.len() <= u64::MAX,
        ensures
            e.kind == kind,
            e.byte_offset == self.buffer_start_offset + self.token_head_i,
    {
        Error::new(kind, self.buffer_start_offset + self.token_head_i as u64)
    }

    /// The keyword that ends before `end` must be followed by the end of the
    /// window, white space or a delimiter.
    fn expect_keyword_end(&self, end: usize) -> (r: Result<(), Error>)
        requires
            self.token_head_i <= self.buffer@.len(),
            self.buffer_start_offset + self.buffer@.len() <= u64::MAX,
        ensures
            r is Ok <==> (end >= self.buffer@.len() || !is_regular_byte(self.buffer@[end as int])),
            r matches Err(e) ==> e.kind == ErrorKind::UndefinedKeyword && e.byte_offset
                == self.buffer_start_offset + self.token_head_i,
    {
        if end < self.buffer.len() && is_regular(self.buffer[end]) {
            Err(self.construct_error(ErrorKind::UndefinedKeyword))
        } else {
            Ok(())
        }
    }

    /// An `obj` keyword has been read without the matching `endobj`, or the
    /// other way round.
    pub fn has_unbalanced_indirectobj(&self) -> (r: bool)
        ensures
            r == (self.has_indirect_obj_start != self.has_indirect_obj_end),
    {
        self.has_indirect_obj_start != self.has_indirect_obj_end
    }

    /// Pops the two newest tokens, which must be a positive integer and a
    /// non-negative integer; gives both and the offset of the first.
    fn pop_number_pair(&mut self) -> (r: Option<(usize, usize, u64)>)
        ensures
            final(self).buffer == old(self).buffer,
            final(self).buffer_start_offset == old(self).buffer_start_offset,
            final(self).i == old(self).i,
            final(self).token_head_i == old(self).token_head_i,
            final(self).has_indirect_obj_start == old(self).has_indirect_obj_start,
            final(self).has_indirect_obj_end == old(self).has_indirect_obj_end,
            r matches Some((o, g, off)) ==> {
                let t = old(self).token_vec@;
                &&& t.len() >= 2
                &&& t[t.len() - 2].token_content == TokenContent::Integer(o as isize)
                &&& t[t.len() - 1].token_content == TokenContent::Integer(g as isize)
                &&& 0 < o <= isize::MAX
                &&& 0 <= g <= isize::MAX
                &&& off == t[t.len() - 2].byte_offset
                &&& final(self).token_vec@ == t.subrange(0, t.len() - 2)
            },
            r is None ==> !ends_with_number_pair(tokens_view(old(self).token_vec@)),
    {
        let ghost t = self.token_vec@;
        proof {
            if t.len() >= 2 {
                assert(tokens_view(t)[t.len() - 2] == token_view(t[t.len() - 2]));
                assert(tokens_view(t)[t.len() - 1] == token_view(t[t.len() - 1]));
            }
        }
        let gen = self.token_vec.pop();
        let obj = self.token_vec.pop();
        match (obj, gen) {
            (Some(o), Some(g)) => {
                match (o.token_content, g.token_content) {
                    (TokenContent::Integer(on), TokenContent::Integer(gn)) => {
                        if on > 0 && gn >= 0 {
                            proof {
                                assert(self.token_vec@ =~= t.subrange(0, t.len() - 2));
                            }
                            Some((on as usize, gn as usize, o.byte_offset))
                        } else {
                            None
                        }
                    },
                    _ => None,
                }
            },
            _ => None,
        }
    }

    /// Between two tokens: the invariant of the tokenizing loop.
    pub open spec fn lexing(&self) -> bool {
        &&& self.buffer@.len() > 0
        &&& self.buffer_start_offset + self.buffer@.len() <= u64::MAX
        &&& self.i <= self.buffer@.len()
        &&& self.token_head_i < self.buffer@.len()
        &&& self.offsets_in_window()
        &&& all_sound(self.buffer@, self.buffer_start_offset, self.token_vec@)
        &&& in_file_order(self.token_vec@)
        &&& all_before(self.token_vec@, self.buffer_start_offset + self.i)
        &&& self.has_indirect_obj_start == has_start_token(self.token_vec@)
        &&& !self.has_indirect_obj_end
        &&& !has_end_token(self.token_vec@)
    }

    /// After tokenizing: the flags tell which of `obj` / `endobj` were read.
    pub open spec fn finished(&self) -> bool {
        &&& self.offsets_in_window()
        &&& all_sound(self.buffer@, self.buffer_start_offset, self.token_vec@)
        &&& in_file_order(self.token_vec@)
        &&& self.has_indirect_obj_start == has_start_token(self.token_vec@)
        &&& self.has_indirect_obj_end == has_end_token(self.token_vec@)
    }

    /// One token read from `old`: `Ok(false)` to go on, `Ok(true)` when
    /// tokenizing is over.
    pub open spec fn stepped(&self, old: &Self, r: Result<bool, Error>) -> bool {
        &&& self.buffer == old.buffer
        &&& self.buffer_start_offset == old.buffer_start_offset
        &&& match r {
            Ok(false) => self.lexing() && self.i > old.i,
            Ok(true) => self.finished() && self.has_indirect_obj_end,
            Err(e) => old.buffer_start_offset <= e.byte_offset < old.buffer_start_offset
                + old.buffer@.len(),
        }
    }

    /// The step from `old` is the one `lex_step` describes.
    pub open spec fn follows(&self, old: &Self, r: Result<bool, Error>) -> bool {
        self.follows_step(
            old,
            r,
            lex_step(old.buffer@, old.buffer_start_offset as int, old.i as int, tokens_view(old.token_vec@)),
        )
    }

    /// The step from `old` is `step`.
    pub open spec fn follows_step(&self, old: &Self, r: Result<bool, Error>, step: LexStep) -> bool {
        match step {
            LexStep::Next(j, t) => r == Ok::<bool, Error>(false) && self.i == j && tokens_view(
                self.token_vec@,
            ) == t,
            LexStep::Done(t) => r == Ok::<bool, Error>(true) && tokens_view(self.token_vec@) == t,
            LexStep::Fail(k) => r matches Err(e) && e.kind == k && e.byte_offset
                == old.buffer_start_offset + old.i,
        }
    }

    /// At the start of a token.
    pub open spec fn at_token(&self) -> bool {
        self.lexing() && self.token_head_i == self.i && self.i < self.buffer@.len()
    }

    fn push_token(&mut self, token_content: TokenContent, next: usize)
        requires
            old(self).at_token(),
            old(self).i < next <= old(self).buffer@.len(),
            !(token_content is IndirectObjStart),
            !(token_content is IndirectObjEnd),
            content_at(
                old(self).buffer@,
                old(self).buffer_start_offset as int,
                old(self).i as int,
                token_content,
            ),
        ensures
            final(self).stepped(old(self), Ok(false)),
            final(self).i == next,
            tokens_view(final(self).token_vec@) == tokens_view(old(self).token_vec@).push(
                (content_view(token_content), old(self).buffer_start_offset + old(self).i),
            ),
    {
        let ghost t0 = self.token_vec@;
        self.i = next;
        self.confirm_token(token_content);
        proof {
            lemma_push_sound(self.buffer@, self.buffer_start_offset, t0, self.token_vec@.last());
            lemma_push_ordered(t0, self.token_vec@.last(), self.buffer_start_offset + old(self).i);
            lemma_push_token(t0, self.token_vec@.last());
            assert(self.token_vec@ =~= t0.push(self.token_vec@.last()));
            assert(tokens_view(self.token_vec@) =~= tokens_view(t0).push(
                token_view(self.token_vec@.last()),
            ));
        }
    }

    fn lex_number(&mut self) -> (r: Result<bool, Error>)
        requires
            old(self).at_token(),
            is_number_byte(old(self).buffer@[old(self).i as int]),
        ensures
            final(self).stepped(old(self), r),
            final(self).follows(old(self), r),
    {
        let n = self.buffer.len();
        let i = self.i;
        let end = number_run_end(self.buffer, i);
        let run = slice_subrange(self.buffer, i, end);
        match parse_integer(run) {
            Some(v) => self.push_token(TokenContent::Integer(v), end),
            None => {
                if is_real(run) {
                    self.push_token(TokenContent::Real(slice_to_vec(run)), end);
                } else if end == n {
                    return Err(self.construct_error(ErrorKind::FinishInObject));
                } else {
                    return Err(self.construct_error(ErrorKind::ParseNumber));
                }
            },
        }
        Ok(false)
    }

    fn lex_name(&mut self) -> (r: Result<bool, Error>)
        requires
            old(self).at_token(),
            old(self).buffer@[old(self).i as int] == 47,
        ensures
            final(self).stepped(old(self), r),
            final(self).follows(old(self), r),
    {
        let n = self.buffer.len();
        let i = self.i;
        let end = regular_run_end(self.buffer, i + 1);
        let name_bytes = slice_subrange(self.buffer, i + 1, end);
        match parse_name(name_bytes) {
            Ok(name) => {
                proof {
                    let buf = self.buffer@;
                    assert(name_run(buf, i as int, end as int));
                    assert(is_printable_ascii(buf.subrange(i + 1, end as int)));
                }
                self.push_token(TokenContent::Name(name), end);
                Ok(false)
            },
            Err(_) => Err(self.construct_error(ErrorKind::ParseName)),
        }
    }

    fn lex_angle(&mut self) -> (r: Result<bool, Error>)
        requires
            old(self).at_token(),
            old(self).buffer@[old(self).i as int] == 60 || old(self).buffer@[old(self).i as int]
                == 62,
        ensures
            final(self).stepped(old(self), r),
            final(self).follows(old(self), r),
    {
        let n = self.buffer.len();
        let i = self.i;
        let b = self.buffer[i];
        if i + 1 >= n {
            return Err(self.construct_error(ErrorKind::FinishInObject));
        }
        if b == 62 {
            if self.buffer[i + 1] != 62 {
                return Err(self.construct_error(ErrorKind::UnexpectedByte));
            }
            self.push_token(TokenContent::DictEnd, i + 2);
            return Ok(false);
        }
        if self.buffer[i + 1] == 60 {
            self.push_token(TokenContent::DictStart, i + 2);
            return Ok(false);
        }
        let end = hex_run_end(self.buffer, i + 1);
        if end >= n {
            return Err(self.construct_error(ErrorKind::FinishInObject));
        }
        if self.buffer[end] != 62 {
            return Err(self.construct_error(ErrorKind::UnexpectedByte));
        }
        match parse_hex_string(slice_subrange(self.buffer, i + 1, end)) {
            Ok(v) => {
                self.push_token(TokenContent::HexStr(v), end + 1);
                Ok(false)
            },
            Err(_) => Err(self.construct_error(ErrorKind::ParseHexString)),
        }
    }

    fn lex_literal_string(&mut self) -> (r: Result<bool, Error>)
        requires
            old(self).at_token(),
            old(self).buffer@[old(self).i as int] == 40,
        ensures
            final(self).stepped(old(self), r),
            final(self).follows(old(self), r),
    {
        let n = self.buffer.len();
        let i = self.i;
        match literal_string_end(self.buffer, i) {
            Some(close) => {
                match parse_string(slice_subrange(self.buffer, i + 1, close)) {
                    Ok(v) => {
                        proof {
                            let buf = self.buffer@;
                            assert(v@ == unescape(buf.subrange(i + 1, close as int)));
                            assert(string_close(buf, i + 1, 0, false) == Some(close as int));
                        }
                        self.push_token(TokenContent::String(v), close + 1);
                        Ok(false)
                    },
                    Err(_) => Err(self.construct_error(ErrorKind::UnexpectedByte)),
                }
            },
            None => Err(self.construct_error(ErrorKind::FinishInObject)),
        }
    }

    /// `R` or `obj`: the two preceding integers become one reference or
    /// object-start token.
    fn lex_reference(&mut self, is_ref: bool) -> (r: Result<bool, Error>)
        requires
            old(self).at_token(),
            !is_ref ==> raw_byte::matches_at(old(self).buffer@, kw_obj(), old(self).i as int),
        ensures
            final(self).stepped(old(self), r),
            final(self).follows_step(
                old(self),
                r,
                merge_step(
                    tokens_view(old(self).token_vec@),
                    old(self).i + if is_ref {
                        1int
                    } else {
                        3int
                    },
                    is_ref,
                ),
            ),
    {
        let n = self.buffer.len();
        let i = self.i;
        let ghost t0 = self.token_vec@;
        match self.pop_number_pair() {
            Some((obj_num, gen_num, offset)) => {
                let ghost t1 = self.token_vec@;
                proof {
                    lemma_drop_integers(t0);
                    assert(token_sound(self.buffer@, self.buffer_start_offset, t0[t0.len() - 2]));
                    assert(integer_at(
                        self.buffer@,
                        offset - self.buffer_start_offset,
                        obj_num as int,
                    ));
                    assert(all_sound(self.buffer@, self.buffer_start_offset, t1)) by {
                        assert forall|k: int| 0 <= k < t1.len() implies token_sound(
                            self.buffer@,
                            self.buffer_start_offset,
                            #[trigger] t1[k],
                        ) by {
                            assert(t1[k] == t0[k]);
                        }
                    }
                }
                if is_ref {
                    self.i = i + 1;
                    self.token_vec.push(
                        Token {
                            token_content: TokenContent::IndirectRef(obj_num, gen_num),
                            byte_offset: offset,
                        },
                    );
                } else {
                    self.i = i + 3;
                    self.token_vec.push(
                        Token {
                            token_content: TokenContent::IndirectObjStart(obj_num, gen_num),
                            byte_offset: offset,
                        },
                    );
                    self.has_indirect_obj_start = true;
                }
                proof {
                    let v0 = tokens_view(t0);
                    assert(v0[v0.len() - 2] == token_view(t0[t0.len() - 2]));
                    assert(v0[v0.len() - 1] == token_view(t0[t0.len() - 1]));
                    assert(tokens_view(t1) =~= v0.subrange(0, v0.len() - 2));
                    assert(tokens_view(self.token_vec@) =~= tokens_view(t1).push(
                        token_view(self.token_vec@.last()),
                    ));
                    lemma_push_sound(self.buffer@, self.buffer_start_offset, t1, self.token_vec@.last());
                    lemma_push_token(t1, self.token_vec@.last());
                    assert(self.token_vec@ =~= t1.push(self.token_vec@.last()));
                    assert forall|k: int| 0 <= k < t1.len() implies t1[k] == t0[k] by {}
                    assert(self.offsets_in_window());
                }
                Ok(false)
            },
            None => Err(self.construct_error(ErrorKind::InvalidIndirectRef)),
        }
    }

    fn lex_stream(&mut self) -> (r: Result<bool, Error>)
        requires
            old(self).at_token(),
            raw_byte::matches_at(old(self).buffer@, kw_stream(), old(self).i as int),
        ensures
            final(self).stepped(old(self), r),
            final(self).follows_step(
                old(self),
                r,
                stream_step(
                    old(self).buffer@,
                    old(self).buffer_start_offset as int,
                    old(self).i as int,
                    tokens_view(old(self).token_vec@),
                ),
            ),
    {
        let n = self.buffer.len();
        let i = self.i;
        let k = i + 6;
        if k >= n {
            return Err(self.construct_error(ErrorKind::ConfirmStream));
        }
        let start = if self.buffer[k] == 10 {
            k + 1
        } else if self.buffer[k] == 13 {
            if k + 1 >= n {
                return Err(self.construct_error(ErrorKind::ConfirmStream));
            }
            if self.buffer[k + 1] != 10 {
                return Err(self.construct_error(ErrorKind::UnexpectedByte));
            }
            k + 2
        } else {
            return Err(self.construct_error(ErrorKind::UnexpectedByte));
        };
        let ghost t0 = self.token_vec@;
        self.i = start;
        self.confirm_token(TokenContent::IndirectObjEnd);
        let ghost t1 = self.token_vec@;
        self.confirm_token(TokenContent::StreamObjStart(self.buffer_start_offset + start as u64));
        self.has_indirect_obj_end = true;
        proof {
            lemma_push_token(t0, t1.last());
            assert(t1 =~= t0.push(t1.last()));
            lemma_push_token(t1, self.token_vec@.last());
            assert(self.token_vec@ =~= t1.push(self.token_vec@.last()));
            assert(tokens_view(t1) =~= tokens_view(t0).push(token_view(t1.last())));
            assert(tokens_view(self.token_vec@) =~= tokens_view(t1).push(
                token_view(self.token_vec@.last()),
            ));
        }
        Ok(true)
    }

    fn lex_keyword(&mut self) -> (r: Result<bool, Error>)
        requires
            old(self).at_token(),
        ensures
            final(self).stepped(old(self), r),
            final(self).follows_step(
                old(self),
                r,
                keyword_dispatch(
                    old(self).buffer@,
                    old(self).buffer_start_offset as int,
                    old(self).i as int,
                    tokens_view(old(self).token_vec@),
                ),
            ),
    {
        let n = self.buffer.len();
        let i = self.i;
        if keyword_at(self.buffer, i, &[111u8, 98, 106]) {
            return self.lex_reference(false);
        }
        if keyword_at(self.buffer, i, &[101u8, 110, 100, 111, 98, 106]) {
            self.expect_keyword_end(i + 6)?;
            let ghost t0 = self.token_vec@;
            self.i = i + 6;
            self.confirm_token(TokenContent::IndirectObjEnd);
            self.has_indirect_obj_end = true;
            proof {
                lemma_push_token(t0, self.token_vec@.last());
                assert(self.token_vec@ =~= t0.push(self.token_vec@.last()));
                assert(tokens_view(self.token_vec@) =~= tokens_view(t0).push(
                    token_view(self.token_vec@.last()),
                ));
            }
            return Ok(true);
        }
        if keyword_at(self.buffer, i, &[115u8, 116, 114, 101, 97, 109]) {
            return self.lex_stream();
        }
        if keyword_at(self.buffer, i, &[110u8, 117, 108, 108]) {
            self.expect_keyword_end(i + 4)?;
            self.push_token(TokenContent::Null, i + 4);
            return Ok(false);
        }
        if keyword_at(self.buffer, i, &[116u8, 114, 117, 101]) {
            self.expect_keyword_end(i + 4)?;
            self.push_token(TokenContent::Boolean(true), i + 4);
            return Ok(false);
        }
        if keyword_at(self.buffer, i, &[102u8, 97, 108, 115, 101]) {
            self.expect_keyword_end(i + 5)?;
            self.push_token(TokenContent::Boolean(false), i + 5);
            return Ok(false);
        }
        if keyword_cut_at(self.buffer, i, &[111u8, 98, 106]) || keyword_cut_at(
            self.buffer,
            i,
            &[101u8, 110, 100, 111, 98, 106],
        ) || keyword_cut_at(self.buffer, i, &[115u8, 116, 114, 101, 97, 109]) || keyword_cut_at(
            self.buffer,
            i,
            &[110u8, 117, 108, 108],
        ) || keyword_cut_at(self.buffer, i, &[116u8, 114, 117, 101]) || keyword_cut_at(
            self.buffer,
            i,
            &[102u8, 97, 108, 115, 101],
        ) {
            return Err(self.construct_error(ErrorKind::FinishInObject));
        }
        Err(self.construct_error(ErrorKind::UndefinedKeyword))
    }

    /// Tokenizes the window. Stops after `endobj`, or after the line boundary
    /// that follows `stream`, where it emits the end of the object and the
    /// offset of the stream's raw bytes.
    pub fn tokenize(&mut self) -> (r: Result<(), Error>)
        requires
            old(self).is_fresh(),
        ensures
            final(self).buffer == old(self).buffer,
            final(self).buffer_start_offset == old(self).buffer_start_offset,
            r is Ok ==> final(self).finished(),
            r matches Err(e) ==> old(self).buffer_start_offset <= e.byte_offset
                < old(self).buffer_start_offset + old(self).buffer@.len(),
            (r is Ok) == (lexes(old(self).buffer@, old(self).buffer_start_offset as int) is Ok),
            r is Ok ==> lexes(old(self).buffer@, old(self).buffer_start_offset as int) == Ok::<
                (Seq<(TokenModel, int)>, bool),
                (ErrorKind, int),
            >((tokens_view(final(self).token_vec@), final(self).has_indirect_obj_end)),
            r matches Err(e) ==> lexes(old(self).buffer@, old(self).buffer_start_offset as int)
                == Err::<(Seq<(TokenModel, int)>, bool), (ErrorKind, int)>(
                (e.kind, e.byte_offset as int),
            ),
    {
        let n = self.buffer.len();
        let mut is_comment = false;
        let ghost buf = self.buffer@;
        let ghost base = self.buffer_start_offset as int;
        assert(tokens_view(self.token_vec@) =~= Seq::<(TokenModel, int)>::empty());
        while self.i < n
            invariant
                self.buffer == old(self).buffer,
                self.buffer_start_offset == old(self).buffer_start_offset,
                n == self.buffer@.len(),
                buf == self.buffer@,
                base == self.buffer_start_offset as int,
                self.lexing(),
                lex_from(buf, base, self.i as int, tokens_view(self.token_vec@), is_comment)
                    == lexes(buf, base),
            decreases n - self.i,
        {
            let i = self.i;
            let b = self.buffer[i];
            self.token_head_i = i;
            // line boundaries end comments and produce no token
            if b == 10 || b == 13 {
                if b == 13 && raw_byte::is_next_satisfy(
                    self.buffer,
                    i,
                    (|x: u8| -> (r: bool)
                        ensures
                            r == (x == 10),
                        { x == 10 }),
                ) {
                    self.i = i + 2;
                } else {
                    self.i = i + 1;
                }
                is_comment = false;
                continue;
            }
            if is_comment || b == 0 || b == 9 || b == 12 || b == 32 {
                self.i = i + 1;
                continue;
            }
            if b == 37 {
                is_comment = true;
                self.i = i + 1;
                continue;
            }
            let step = if is_number(b) {
                self.lex_number()
            } else if b == 47 {
                self.lex_name()
            } else if b == 60 || b == 62 {
                self.lex_angle()
            } else if b == 40 {
                self.lex_literal_string()
            } else if b == 91 {
                self.push_token(TokenContent::ArrayStart, i + 1);
                Ok(false)
            } else if b == 93 {
                self.push_token(TokenContent::ArrayEnd, i + 1);
                Ok(false)
            } else if b == 82 {
                self.lex_reference(true)
            } else {
                self.lex_keyword()
            };
            match step {
                Ok(false) => {},
                Ok(true) => return Ok(()),
                Err(e) => return Err(e),
            }
        }
        Ok(())
    }
}

} // verus!
