//! Recursive-descent parser: the tokens of one window into one object.
use vstd::prelude::*;

use crate::lexer;
use crate::lexer::{Token, TokenContent};
use crate::object::{
    PdfArray, PdfBoolean, PdfDict, PdfIndirectObj, PdfIndirectRef, PdfInteger, PdfName, PdfNull,
    PdfObject, PdfReal, PdfStreamObj, PdfString,
};

pub mod error;

use error::{Error, ErrorKind};

verus! {

/// An object of the file, of one of the kinds the format has.
#[derive(Debug, PartialEq)]
pub enum Object {
    Boolean(PdfBoolean),
    Integer(PdfInteger),
    Real(PdfReal),
    Name(PdfName),
    String(PdfString),
    Array(PdfArray),
    Null(PdfNull),
    IndirectRef(PdfIndirectRef),
    Dict(PdfDict),
    IndirectObj(PdfIndirectObj),
    StreamObj(PdfStreamObj),
}

impl Object {
    /// File offset of the object's first token (for a stream, of its raw
    /// bytes).
    pub open spec fn offset(&self) -> u64 {
        match self {
            Object::Boolean(o) => o.byte_offset,
            Object::Integer(o) => o.byte_offset,
            Object::Real(o) => o.byte_offset,
            Object::Name(o) => o.byte_offset,
            Object::String(o) => o.byte_offset,
            Object::Array(o) => o.byte_offset,
            Object::Null(o) => o.byte_offset,
            Object::IndirectRef(o) => o.byte_offset,
            Object::Dict(o) => o.byte_offset,
            Object::IndirectObj(o) => o.byte_offset,
            Object::StreamObj(o) => o.byte_offset,
        }
    }

    pub fn byte_offset(&self) -> (r: u64)
        ensures
            r == self.offset(),
    {
        match self {
            Object::Boolean(o) => o.byte_offset(),
            Object::Integer(o) => o.byte_offset(),
            Object::Real(o) => o.byte_offset(),
            Object::Name(o) => o.byte_offset(),
            Object::String(o) => o.byte_offset(),
            Object::Array(o) => o.byte_offset(),
            Object::Null(o) => o.byte_offset(),
            Object::IndirectRef(o) => o.byte_offset(),
            Object::Dict(o) => o.byte_offset(),
            Object::IndirectObj(o) => o.byte_offset(),
            Object::StreamObj(o) => o.byte_offset(),
        }
    }
}

/// The object a single scalar token stands for, at the token's offset.
pub open spec fn scalar_object(t: Token, o: Object) -> bool {
    match t.token_content {
        TokenContent::Boolean(b) => o == Object::Boolean(PdfBoolean { payload: b, byte_offset: t.byte_offset }),
        TokenContent::Integer(i) => o == Object::Integer(PdfInteger { payload: i, byte_offset: t.byte_offset }),
        TokenContent::Real(v) => o matches Object::Real(x) && x.payload@ == v@ && x.byte_offset == t.byte_offset,
        TokenContent::Name(s) => o matches Object::Name(x) && x.payload@ == s@ && x.byte_offset == t.byte_offset,
        TokenContent::HexStr(v) => o matches Object::String(x) && x.payload@ == v@ && x.byte_offset == t.byte_offset,
        TokenContent::String(v) => o matches Object::String(x) && x.payload@ == v@ && x.byte_offset == t.byte_offset,
        TokenContent::Null => o == Object::Null(PdfNull { byte_offset: t.byte_offset }),
        TokenContent::IndirectRef(n, g) => o == Object::IndirectRef(
            PdfIndirectRef { object_number: n, generation_number: g, byte_offset: t.byte_offset },
        ),
        _ => false,
    }
}

/// Tokens that stand for one object each.
pub open spec fn is_scalar_token(t: Token) -> bool {
    match t.token_content {
        TokenContent::Boolean(_) | TokenContent::Integer(_) | TokenContent::Real(_)
        | TokenContent::Name(_) | TokenContent::HexStr(_) | TokenContent::String(_)
        | TokenContent::Null | TokenContent::IndirectRef(_, _) => true,
        _ => false,
    }
}

/// Parser over the tokens of one window.
pub struct Parser {
    pub token_i: usize,
    pub byte_offset: u64,
    pub token_vec: Vec<Token>,
}

fn copy_bytes(v: &Vec<u8>) -> (r: Vec<u8>)
    ensures
        r@ == v@,
{
    let mut out: Vec<u8> = Vec::new();
    let mut k: usize = 0;
    while k < v.len()
        invariant
            k <= v@.len(),
            out@ == v@.subrange(0, k as int),
        decreases v@.len() - k,
    {
        out.push(v[k]);
        k += 1;
        assert(out@ =~= v@.subrange(0, k as int));
    }
    assert(out@ =~= v@);
    out
}

impl Parser {
    /// Tokenizes `buffer`, which starts at file offset `buffer_start_offset`.
    /// A window that holds `obj` without `endobj`, or the other way round,
    /// does not bound one indirect object and is refused.
    pub fn new(buffer: &[u8], buffer_start_offset: u64) -> (r: Result<Parser, Error>)
        requires
            buffer@.len() > 0,
            buffer_start_offset + buffer@.len() <= u64::MAX,
        ensures
            match r {
                Ok(p) => {
                    &&& p.token_i == 0
                    &&& p.byte_offset == buffer_start_offset
                    &&& lexer::has_start_token(p.token_vec@) == lexer::has_end_token(p.token_vec@)
                    &&& lexer::all_sound(buffer@, buffer_start_offset, p.token_vec@)
                    &&& forall|k: int|
                        0 <= k < p.token_vec@.len() ==> buffer_start_offset
                            <= #[trigger] p.token_vec@[k].byte_offset < buffer_start_offset
                            + buffer@.len()
                },
                Err(e) => e.byte_offset == buffer_start_offset && (e.kind is Lexer
                    || e.kind is IndirectObjMissMatch),
            },
            match lexer::lexes(buffer@, buffer_start_offset as int) {
                Ok((t, ended)) => if lexer::model_has_start(t) == ended {
                    r matches Ok(p) && lexer::tokens_view(p.token_vec@) == t
                } else {
                    r == Err::<Parser, Error>(
                        Error { kind: ErrorKind::IndirectObjMissMatch, byte_offset: buffer_start_offset },
                    )
                },
                Err((k, off)) => r == Err::<Parser, Error>(
                    Error {
                        kind: ErrorKind::Lexer(lexer::error::Error { kind: k, byte_offset: off as u64 }),
                        byte_offset: buffer_start_offset,
                    },
                ),
            },
    {
        let mut lexer = lexer::Lexer::new(buffer, buffer_start_offset);
        let r = lexer.tokenize();
        proof {
            lexer::lemma_has_start_view(lexer.token_vec@);
        }
        if let Err(e) = r {
            return Err(Error::new(ErrorKind::Lexer(e), buffer_start_offset));
        }
        if lexer.has_unbalanced_indirectobj() {
            return Err(Error::new(ErrorKind::IndirectObjMissMatch, buffer_start_offset));
        }
        let token_vec = lexer.token_vec;
        Ok(Parser { token_vec, byte_offset: buffer_start_offset, token_i: 0 })
    }

    /// Parses one object from the tokens.
    pub fn parse(&mut self) -> (r: Result<Object, Error>)
        requires
            old(self).token_i <= old(self).token_vec@.len(),
        ensures
            r matches Err(e) ==> !(e.kind is Lexer) && !(e.kind is IndirectObjMissMatch),
            final(self).token_vec == old(self).token_vec,
            final(self).byte_offset == old(self).byte_offset,
            final(self).token_i <= final(self).token_vec@.len(),
            parse_result(old(self).token_vec@, old(self).token_i as int, old(self).byte_offset, r),
            (r is Ok) == (parse_end(lexer::tokens_view(old(self).token_vec@), old(self).token_i as int) is Some),
            r is Ok ==> parse_end(lexer::tokens_view(old(self).token_vec@), old(self).token_i as int) == Some(
                final(self).token_i as int,
            ),
            r matches Ok(o) ==> parsed_as(
                lexer::tokens_view(old(self).token_vec@),
                old(self).token_i as int,
                o,
            ),
    {
        self.parse_object()
    }

    fn next(&mut self) -> (r: Option<&Token>)
        ensures
            final(self).token_vec == old(self).token_vec,
            final(self).byte_offset == old(self).byte_offset,
            old(self).token_i < old(self).token_vec@.len() ==> final(self).token_i == old(self).token_i + 1
                && r == Some(&old(self).token_vec@[old(self).token_i as int]),
            old(self).token_i >= old(self).token_vec@.len() ==> final(self).token_i == old(self).token_i
                && r is None,
    {
        let i = self.token_i;
        if self.token_vec.len() <= i {
            None
        } else {
            self.token_i = i + 1;
            Some(&self.token_vec[i])
        }
    }

    fn current_token(&self) -> (r: Option<&Token>)
        ensures
            self.token_i < self.token_vec@.len() ==> r == Some(&self.token_vec@[self.token_i as int]),
            self.token_i >= self.token_vec@.len() ==> r is None,
    {
        if self.token_vec.len() <= self.token_i {
            None
        } else {
            Some(&self.token_vec[self.token_i])
        }
    }

    fn parse_object(&mut self) -> (r: Result<Object, Error>)
        requires
            old(self).token_i <= old(self).token_vec@.len(),
        ensures
            r matches Err(e) ==> !(e.kind is Lexer) && !(e.kind is IndirectObjMissMatch),
            final(self).token_vec == old(self).token_vec,
            final(self).byte_offset == old(self).byte_offset,
            old(self).token_i <= final(self).token_i <= final(self).token_vec@.len(),
            parse_result(old(self).token_vec@, old(self).token_i as int, old(self).byte_offset, r),
            r is Ok ==> final(self).token_i > old(self).token_i,
            (r is Ok) == (parse_end(lexer::tokens_view(old(self).token_vec@), old(self).token_i as int) is Some),
            r is Ok ==> parse_end(lexer::tokens_view(old(self).token_vec@), old(self).token_i as int) == Some(
                final(self).token_i as int,
            ),
            r matches Ok(Object::Dict(d)) ==> forall|key: Seq<char>|
                (#[trigger] d.spec_get(key) is Some) == dict_has_key(
                    lexer::tokens_view(old(self).token_vec@),
                    old(self).token_i + 1,
                    key,
                ),
            r matches Ok(Object::Array(a)) ==> elements_within(
                old(self).token_vec@,
                old(self).token_i + 1,
                final(self).token_i as int,
                old(self).byte_offset,
                a.payload@,
            ),
            r matches Ok(Object::Dict(d)) ==> entries_within(
                old(self).token_vec@,
                old(self).token_i + 1,
                final(self).token_i as int,
                old(self).byte_offset,
                d,
            ),
            r matches Ok(o) ==> parsed_as(
                lexer::tokens_view(old(self).token_vec@),
                old(self).token_i as int,
                o,
            ),
        decreases old(self).token_vec@.len() - old(self).token_i, 0nat,
    {
        let ghost i0 = old(self).token_i as int;
        proof {
            if i0 < self.token_vec@.len() {
                assert(lexer::tokens_view(self.token_vec@)[i0] == lexer::token_view(self.token_vec@[i0]));
            }
        }
        let token_byte_offset;
        let content;
        match self.next() {
            Some(token) => {
                token_byte_offset = token.byte_offset;
                content = token.content();
            },
            None => return Err(Error::new(ErrorKind::NoToken, self.byte_offset)),
        }
        match content {
            TokenContent::Boolean(b) => Ok(Object::Boolean(PdfBoolean::new(*b, token_byte_offset))),
            TokenContent::Integer(i) => Ok(Object::Integer(PdfInteger::new(*i, token_byte_offset))),
            TokenContent::Real(v) => Ok(Object::Real(PdfReal::new(copy_bytes(v), token_byte_offset))),
            TokenContent::Name(s) => Ok(Object::Name(PdfName::new(s.clone(), token_byte_offset))),
            TokenContent::Null => Ok(Object::Null(PdfNull::new(token_byte_offset))),
            TokenContent::HexStr(v) => Ok(Object::String(PdfString::new(copy_bytes(v), token_byte_offset))),
            TokenContent::String(v) => Ok(Object::String(PdfString::new(copy_bytes(v), token_byte_offset))),
            TokenContent::IndirectRef(n, g) => {
                if *n == 0 {
                    return Err(Error::new(ErrorKind::UnexpectedToken, token_byte_offset));
                }
                Ok(Object::IndirectRef(PdfIndirectRef::new(*n, *g, token_byte_offset)))
            },
            TokenContent::ArrayStart => {
                proof {
                    assert(parse_end(lexer::tokens_view(self.token_vec@), i0) == elems_end(lexer::tokens_view(self.token_vec@), i0 + 1));
                }
                let content = self.parse_array_content()?;
                Ok(Object::Array(PdfArray::new(content, token_byte_offset)))
            },
            TokenContent::DictStart => {
                proof {
                    assert(parse_end(lexer::tokens_view(self.token_vec@), i0) == pairs_end(lexer::tokens_view(self.token_vec@), i0 + 1));
                }
                let content = self.parse_dict_content()?;
                let ghost inner = content;
                let dict = content.with_offset(token_byte_offset);
                proof {
                    assert forall|key: Seq<char>| #[trigger] dict.spec_get(key) == inner.spec_get(key) by {}
                    lemma_entries_within_grow(
                        self.token_vec@,
                        old(self).token_i + 1,
                        self.token_i as int,
                        self.token_i as int,
                        self.byte_offset,
                        inner,
                        dict,
                    );
                }
                Ok(Object::Dict(dict))
            },
            TokenContent::IndirectObjStart(_, _) => {
                let obj = self.parse_indirect_content()?;
                let ghost m = self.token_i - 1;
                proof {
                    let t = self.token_vec@;
                    assert(parse_end(lexer::tokens_view(t), i0 + 1) == Some(m));
                    assert(t[m].token_content is IndirectObjEnd);
                    assert(i0 + 1 < m < t.len());
                }
                let stream_start = match self.current_token() {
                    Some(t) => match t.content() {
                        TokenContent::StreamObjStart(offset) => Some(*offset),
                        _ => None,
                    },
                    None => None,
                };
                match stream_start {
                    Some(offset) => {
                        self.next();
                        proof {
                            let t = self.token_vec@;
                            assert(t[m + 1].token_content is StreamObjStart);
                            assert(parse_result(t, i0 + 1, self.byte_offset, Ok(obj)));
                            assert((obj is Dict) == (t[i0 + 1].token_content is DictStart));
                            if obj is Dict {
                                assert((obj->Dict_0.spec_get("Length"@) is Some) == dict_has_key(
                                    lexer::tokens_view(t),
                                    i0 + 2,
                                    "Length"@,
                                ));
                            }
                        }
                        let ghost was_dict = obj is Dict;
                        let ghost had_length = obj is Dict && obj->Dict_0.spec_get("Length"@) is Some;
                        match PdfStreamObj::new(obj, offset) {
                            Ok(stream) => {
                                proof {
                                    assert(lexer::tokens_view(self.token_vec@)[m + 1] == lexer::token_view(
                                        self.token_vec@[m + 1],
                                    ));
                                    assert(had_length);
                                    assert(parse_end(lexer::tokens_view(self.token_vec@), i0) == Some(m + 2));
                                }
                                Ok(Object::StreamObj(stream))
                            },
                            Err(_) => {
                                proof {
                                    assert(!had_length);
                                    assert(parse_end(lexer::tokens_view(self.token_vec@), i0) is None);
                                }
                                Err(Error::new(ErrorKind::InvalidStreamObj, self.byte_offset))
                            },
                        }
                    },
                    None => {
                        proof {
                            let t = self.token_vec@;
                            assert(!(m + 1 < t.len() && t[m + 1].token_content is StreamObjStart));
                            assert(parse_end(lexer::tokens_view(t), i0) == Some(m + 1));
                        }
                        Ok(Object::IndirectObj(PdfIndirectObj::new(obj, token_byte_offset)))
                    },
                }
            },
            _ => Err(Error::new(ErrorKind::UnexpectedToken, token_byte_offset)),
        }
    }

    fn parse_array_content(&mut self) -> (r: Result<Vec<Object>, Error>)
        requires
            old(self).token_i <= old(self).token_vec@.len(),
        ensures
            r matches Err(e) ==> !(e.kind is Lexer) && !(e.kind is IndirectObjMissMatch),
            final(self).token_vec == old(self).token_vec,
            final(self).byte_offset == old(self).byte_offset,
            old(self).token_i <= final(self).token_i <= final(self).token_vec@.len(),
            r is Ok ==> final(self).token_i > old(self).token_i,
            r matches Ok(v) ==> elements_within(
                old(self).token_vec@,
                old(self).token_i as int,
                final(self).token_i as int,
                old(self).byte_offset,
                v@,
            ),
            (r is Ok) == (elems_end(lexer::tokens_view(old(self).token_vec@), old(self).token_i as int) is Some),
            r is Ok ==> elems_end(lexer::tokens_view(old(self).token_vec@), old(self).token_i as int) == Some(
                final(self).token_i as int,
            ),
            r matches Ok(v) ==> elems_as(lexer::tokens_view(old(self).token_vec@), old(self).token_i as int, v@),
        decreases old(self).token_vec@.len() - old(self).token_i, 1nat,
    {
        let mut content: Vec<Object> = Vec::new();
        let ghost start = self.token_i;
        loop
            invariant
                self.token_vec == old(self).token_vec,
                self.byte_offset == old(self).byte_offset,
                start == old(self).token_i,
                start <= self.token_i <= self.token_vec@.len(),
                elements_within(self.token_vec@, start as int, self.token_i as int, self.byte_offset, content@),
                elems_end(lexer::tokens_view(self.token_vec@), start as int) == elems_end(lexer::tokens_view(self.token_vec@), self.token_i as int),
                elems_upto(lexer::tokens_view(self.token_vec@), start as int, self.token_i as int, content@),
            decreases self.token_vec@.len() - self.token_i,
        {
            let is_end = match self.current_token() {
                None => return Err(Error::new(ErrorKind::NoToken, self.byte_offset)),
                Some(token) => match token.content() {
                    TokenContent::Eol => {
                        proof {
                            assert(lexer::tokens_view(self.token_vec@)[self.token_i as int]
                                == lexer::token_view(self.token_vec@[self.token_i as int]));
                            lemma_elems_upto_eol(
                                lexer::tokens_view(self.token_vec@),
                                start as int,
                                self.token_i as int,
                                content@,
                            );
                        }
                        self.next();
                        proof {
                            lemma_elements_within_grow(
                                self.token_vec@,
                                start as int,
                                self.token_i - 1,
                                self.token_i as int,
                                self.byte_offset,
                                content@,
                            );
                        }
                        continue;
                    },
                    TokenContent::ArrayEnd => true,
                    _ => false,
                },
            };
            if is_end {
                proof {
                    assert(lexer::tokens_view(self.token_vec@)[self.token_i as int]
                        == lexer::token_view(self.token_vec@[self.token_i as int]));
                    lemma_elems_upto_end(
                        lexer::tokens_view(self.token_vec@),
                        start as int,
                        self.token_i as int,
                        content@,
                    );
                }
                self.next();
                proof {
                    lemma_elements_within_grow(
                        self.token_vec@,
                        start as int,
                        self.token_i - 1,
                        self.token_i as int,
                        self.byte_offset,
                        content@,
                    );
                }
                return Ok(content);
            }
            let ghost here = self.token_i;
            proof {
                assert(lexer::tokens_view(self.token_vec@)[here as int] == lexer::token_view(
                    self.token_vec@[here as int],
                ));
            }
            let obj = self.parse_object()?;
            let ghost before = content@;
            content.push(obj);
            proof {
                lemma_elems_upto_push(
                    lexer::tokens_view(self.token_vec@),
                    start as int,
                    here as int,
                    self.token_i as int,
                    before,
                    content@.last(),
                );
                assert(before.push(content@.last()) =~= content@);
            }
            proof {
                assert forall|k: int| 0 <= k < content@.len() implies #[trigger] parsed_within(
                    self.token_vec@,
                    start as int,
                    self.token_i as int,
                    self.byte_offset,
                    content@[k],
                ) by {
                    if k < before.len() {
                        assert(content@[k] == before[k]);
                        assert(parsed_within(self.token_vec@, start as int, here as int, self.byte_offset, before[k]));
                        let found = choose|p: int|
                            start <= p < here && #[trigger] parse_result(
                                self.token_vec@,
                                p,
                                self.byte_offset,
                                Ok(before[k]),
                            );
                        assert(parse_result(self.token_vec@, found, self.byte_offset, Ok(content@[k])));
                    } else {
                        assert(parse_result(self.token_vec@, here as int, self.byte_offset, Ok(content@[k])));
                    }
                }
            }
        }
    }

    fn parse_dict_content(&mut self) -> (r: Result<PdfDict, Error>)
        requires
            old(self).token_i <= old(self).token_vec@.len(),
        ensures
            r matches Err(e) ==> !(e.kind is Lexer) && !(e.kind is IndirectObjMissMatch),
            final(self).token_vec == old(self).token_vec,
            final(self).byte_offset == old(self).byte_offset,
            old(self).token_i <= final(self).token_i <= final(self).token_vec@.len(),
            r is Ok ==> final(self).token_i > old(self).token_i,
            r matches Ok(d) ==> d.wf(),
            r matches Ok(d) ==> entries_within(
                old(self).token_vec@,
                old(self).token_i as int,
                final(self).token_i as int,
                old(self).byte_offset,
                d,
            ),
            (r is Ok) == (pairs_end(lexer::tokens_view(old(self).token_vec@), old(self).token_i as int) is Some),
            r is Ok ==> pairs_end(lexer::tokens_view(old(self).token_vec@), old(self).token_i as int) == Some(
                final(self).token_i as int,
            ),
            r matches Ok(d) ==> forall|key: Seq<char>|
                (#[trigger] d.spec_get(key) is Some) == dict_has_key(
                    lexer::tokens_view(old(self).token_vec@),
                    old(self).token_i as int,
                    key,
                ),
            r matches Ok(d) ==> dict_contents(
                lexer::tokens_view(old(self).token_vec@),
                old(self).token_i as int,
                old(self).token_i - 1,
                d,
            ),
        decreases old(self).token_vec@.len() - old(self).token_i, 1nat,
    {
        let mut content = PdfDict { payload: Vec::new(), byte_offset: self.byte_offset };
        let ghost start = self.token_i;
        loop
            invariant
                self.token_vec == old(self).token_vec,
                self.byte_offset == old(self).byte_offset,
                start == old(self).token_i,
                start <= self.token_i <= self.token_vec@.len(),
                content.wf(),
                entries_within(self.token_vec@, start as int, self.token_i as int, self.byte_offset, content),
                pairs_end(lexer::tokens_view(self.token_vec@), start as int) == pairs_end(lexer::tokens_view(self.token_vec@), self.token_i as int),
                forall|key: Seq<char>|
                    dict_has_key(lexer::tokens_view(self.token_vec@), start as int, key) == (#[trigger] content.spec_get(
                        key,
                    ) is Some || dict_has_key(lexer::tokens_view(self.token_vec@), self.token_i as int, key)),
                dict_prefix(
                    lexer::tokens_view(self.token_vec@),
                    start as int,
                    self.token_i as int,
                    content,
                ),
            decreases self.token_vec@.len() - self.token_i,
        {
            let key = match self.current_token() {
                None => return Err(Error::new(ErrorKind::NoToken, self.byte_offset)),
                Some(token) => match token.content() {
                    TokenContent::Eol => {
                        proof {
                            let t = lexer::tokens_view(self.token_vec@);
                            let cur = self.token_i as int;
                            assert(t[cur] == lexer::token_view(self.token_vec@[cur]));
                            assert forall|k: Seq<char>| #[trigger] last_value_at(t, cur, k) == last_value_at(
                                t,
                                cur + 1,
                                k,
                            ) by {}
                        }
                        self.next();
                        proof {
                            lemma_entries_within_grow(
                                self.token_vec@,
                                start as int,
                                self.token_i - 1,
                                self.token_i as int,
                                self.byte_offset,
                                content,
                                content,
                            );
                        }
                        continue;
                    },
                    TokenContent::DictEnd => {
                        proof {
                            let t = lexer::tokens_view(self.token_vec@);
                            let cur = self.token_i as int;
                            assert(t[cur] == lexer::token_view(self.token_vec@[cur]));
                            assert forall|k: Seq<char>| #[trigger] last_value_at(t, cur, k) is None by {}
                        }
                        self.next();
                        proof {
                            lemma_entries_within_grow(
                                self.token_vec@,
                                start as int,
                                self.token_i - 1,
                                self.token_i as int,
                                self.byte_offset,
                                content,
                                content,
                            );
                        }
                        return Ok(content);
                    },
                    TokenContent::Name(s) => s.clone(),
                    _ => return Err(Error::new(ErrorKind::UnexpectedToken, token.byte_offset)),
                },
            };
            let ghost key_at = self.token_i;
            let ghost key_view = key@;
            proof {
                let t = lexer::tokens_view(self.token_vec@);
                assert(t[key_at as int] == lexer::token_view(self.token_vec@[key_at as int]));
            }
            self.next();
            let ghost here = self.token_i;
            let value = self.parse_object()?;
            let ghost v = value;
            let ghost before = content;
            content.insert(key, value);
            proof {
                let t = lexer::tokens_view(self.token_vec@);
                let cur = key_at as int;
                let k_end = self.token_i as int;
                assert forall|k: Seq<char>|
                    #![trigger last_value_at(t, start as int, k)]
                    prefix_holds(t, start as int, k_end, content, k) by {
                    assert(prefix_holds(t, start as int, cur, before, k));
                    assert(last_value_at(t, cur, k) == match last_value_at(t, k_end, k) {
                        Some(p) => Some(p),
                        None => if key_view == k {
                            Some(cur + 1)
                        } else {
                            None
                        },
                    });
                }
            }
            proof {
                assert forall|k: Seq<char>| #[trigger] content.spec_get(k) is Some implies exists|p: int|
                    start < p < self.token_i && (self.token_vec@[p - 1].token_content matches TokenContent::Name(n)
                        && n@ == k) && #[trigger] parse_result(
                        self.token_vec@,
                        p,
                        self.byte_offset,
                        Ok(content.spec_get(k)->Some_0),
                    ) by {
                    let w = content.spec_get(k)->Some_0;
                    if k == key_view {
                        assert(parse_result(self.token_vec@, here as int, self.byte_offset, Ok(w)));
                    } else {
                        assert(before.spec_get(k) == content.spec_get(k));
                        let found = choose|p: int|
                            start < p < here && (self.token_vec@[p - 1].token_content matches TokenContent::Name(n)
                                && n@ == k) && #[trigger] parse_result(self.token_vec@, p, self.byte_offset, Ok(w));
                        assert(parse_result(self.token_vec@, found, self.byte_offset, Ok(w)));
                    }
                }
            }
        }
    }

    fn parse_indirect_content(&mut self) -> (r: Result<Object, Error>)
        requires
            old(self).token_i <= old(self).token_vec@.len(),
        ensures
            r matches Err(e) ==> !(e.kind is Lexer) && !(e.kind is IndirectObjMissMatch),
            final(self).token_vec == old(self).token_vec,
            final(self).byte_offset == old(self).byte_offset,
            old(self).token_i <= final(self).token_i <= final(self).token_vec@.len(),
            r is Ok ==> final(self).token_i > old(self).token_i,
            r matches Ok(o) ==> parse_result(
                old(self).token_vec@,
                old(self).token_i as int,
                old(self).byte_offset,
                Ok(o),
            ),
            (r is Ok) == (parse_end(lexer::tokens_view(old(self).token_vec@), old(self).token_i as int) matches Some(m) && m
                < old(self).token_vec@.len() && old(self).token_vec@[m].token_content is IndirectObjEnd),
            r is Ok ==> parse_end(lexer::tokens_view(old(self).token_vec@), old(self).token_i as int) == Some(
                final(self).token_i - 1,
            ),
            r is Ok ==> final(self).token_i >= old(self).token_i + 2,
            r matches Ok(Object::Dict(d)) ==> forall|key: Seq<char>|
                (#[trigger] d.spec_get(key) is Some) == dict_has_key(
                    lexer::tokens_view(old(self).token_vec@),
                    old(self).token_i + 1,
                    key,
                ),
            r matches Ok(o) ==> parsed_as(
                lexer::tokens_view(old(self).token_vec@),
                old(self).token_i as int,
                o,
            ),
        decreases old(self).token_vec@.len() - old(self).token_i, 1nat,
    {
        let obj = self.parse_object()?;
        match self.next() {
            Some(token) => match token.content() {
                TokenContent::IndirectObjEnd => Ok(obj),
                _ => Err(Error::new(ErrorKind::UnexpectedToken, token.byte_offset)),
            },
            None => Err(Error::new(ErrorKind::NoToken, self.byte_offset)),
        }
    }
}

/// Each of `elems` is what parsing from some token at `i` or later, before
/// `j`, gives.
pub open spec fn elements_within(tokens: Seq<Token>, i: int, j: int, base: u64, elems: Seq<Object>) -> bool {
    forall|k: int| 0 <= k < elems.len() ==> #[trigger] parsed_within(tokens, i, j, base, elems[k])
}

/// `o` is what parsing from some token at `i` or later, before `j`, gives.
pub open spec fn parsed_within(tokens: Seq<Token>, i: int, j: int, base: u64, o: Object) -> bool {
    exists|p: int| i <= p < j && #[trigger] parse_result(tokens, p, base, Ok(o))
}

/// Each value of `d` is what parsing from some token at `i` or later, before
/// `j`, gives, and the token before it is the value's key.
pub open spec fn entries_within(tokens: Seq<Token>, i: int, j: int, base: u64, d: PdfDict) -> bool {
    forall|key: Seq<char>|
        #[trigger] d.spec_get(key) matches Some(v) ==> exists|p: int|
            i < p < j && (tokens[p - 1].token_content matches TokenContent::Name(n) && n@ == key)
                && #[trigger] parse_result(tokens, p, base, Ok(v))
}

proof fn lemma_elements_within_grow(tokens: Seq<Token>, i: int, j: int, j2: int, base: u64, es: Seq<Object>)
    requires
        elements_within(tokens, i, j, base, es),
        j <= j2,
    ensures
        elements_within(tokens, i, j2, base, es),
{
    assert forall|k: int| 0 <= k < es.len() implies #[trigger] parsed_within(tokens, i, j2, base, es[k]) by {
        assert(parsed_within(tokens, i, j, base, es[k]));
        let found = choose|p: int| i <= p < j && #[trigger] parse_result(tokens, p, base, Ok(es[k]));
        assert(parse_result(tokens, found, base, Ok(es[k])));
    }
}

proof fn lemma_entries_within_grow(tokens: Seq<Token>, i: int, j: int, j2: int, base: u64, d: PdfDict, d2: PdfDict)
    requires
        entries_within(tokens, i, j, base, d),
        j <= j2,
        d2.payload@ == d.payload@,
    ensures
        entries_within(tokens, i, j2, base, d2),
{
    assert forall|key: Seq<char>| #[trigger] d2.spec_get(key) is Some implies exists|p: int|
        i < p < j2 && (tokens[p - 1].token_content matches TokenContent::Name(n) && n@ == key)
            && #[trigger] parse_result(tokens, p, base, Ok(d2.spec_get(key)->Some_0)) by {
        assert(d.spec_get(key) == d2.spec_get(key));
        let w = d.spec_get(key)->Some_0;
        let found = choose|p: int|
            i < p < j && (tokens[p - 1].token_content matches TokenContent::Name(n) && n@ == key)
                && #[trigger] parse_result(tokens, p, base, Ok(w));
        assert(parse_result(tokens, found, base, Ok(w)));
    }
}

/// Tokens that stand for one object each.
pub open spec fn is_scalar_model(c: lexer::TokenModel) -> bool {
    match c {
        lexer::TokenModel::Boolean(_) | lexer::TokenModel::Integer(_) | lexer::TokenModel::Real(_)
        | lexer::TokenModel::Name(_) | lexer::TokenModel::HexStr(_) | lexer::TokenModel::String(_)
        | lexer::TokenModel::Null | lexer::TokenModel::IndirectRef(_, _) => true,
        _ => false,
    }
}

/// Where parsing the object that starts at token `i` ends, if it succeeds:
/// a scalar token (a reference only with a non-zero object number); an
/// array or dictionary up to its closing token; `obj`, one object and
/// `endobj`, and then a stream start only after a dictionary with `Length`.
pub open spec fn parse_end(t: Seq<(lexer::TokenModel, int)>, i: int) -> Option<int>
    decreases t.len() - i, 0nat,
{
    if i < 0 || i >= t.len() {
        None
    } else {
        match t[i].0 {
            lexer::TokenModel::ArrayStart => elems_end(t, i + 1),
            lexer::TokenModel::DictStart => pairs_end(t, i + 1),
            lexer::TokenModel::IndirectObjStart(_, _) => match parse_end(t, i + 1) {
                Some(m) => if i + 1 < m < t.len() && t[m].0 is IndirectObjEnd {
                    if m + 1 < t.len() && t[m + 1].0 is StreamObjStart {
                        if t[i + 1].0 is DictStart && dict_has_key(t, i + 2, "Length"@) {
                            Some(m + 2)
                        } else {
                            None
                        }
                    } else {
                        Some(m + 1)
                    }
                } else {
                    None
                },
                None => None,
            },
            lexer::TokenModel::IndirectRef(n, _) => if n != 0 {
                Some(i + 1)
            } else {
                None
            },
            _ => if is_scalar_model(t[i].0) {
                Some(i + 1)
            } else {
                None
            },
        }
    }
}

/// Where the elements that start at token `j` end, after their `]`.
pub open spec fn elems_end(t: Seq<(lexer::TokenModel, int)>, j: int) -> Option<int>
    decreases t.len() - j, 1nat,
{
    if j < 0 || j >= t.len() {
        None
    } else {
        match t[j].0 {
            lexer::TokenModel::Eol => elems_end(t, j + 1),
            lexer::TokenModel::ArrayEnd => Some(j + 1),
            _ => match parse_end(t, j) {
                Some(k) => if j < k <= t.len() {
                    elems_end(t, k)
                } else {
                    None
                },
                None => None,
            },
        }
    }
}

/// Where the key / value pairs that start at token `j` end, after `>>`.
pub open spec fn pairs_end(t: Seq<(lexer::TokenModel, int)>, j: int) -> Option<int>
    decreases t.len() - j, 1nat,
{
    if j < 0 || j >= t.len() {
        None
    } else {
        match t[j].0 {
            lexer::TokenModel::Eol => pairs_end(t, j + 1),
            lexer::TokenModel::DictEnd => Some(j + 1),
            lexer::TokenModel::Name(_) => match parse_end(t, j + 1) {
                Some(k) => if j + 1 < k <= t.len() {
                    pairs_end(t, k)
                } else {
                    None
                },
                None => None,
            },
            _ => None,
        }
    }
}

/// Some pair from token `j` on has the key `key`.
pub open spec fn dict_has_key(t: Seq<(lexer::TokenModel, int)>, j: int, key: Seq<char>) -> bool
    decreases t.len() - j, 1nat,
{
    if j < 0 || j >= t.len() {
        false
    } else {
        match t[j].0 {
            lexer::TokenModel::Eol => dict_has_key(t, j + 1, key),
            lexer::TokenModel::Name(n) => n == key || match parse_end(t, j + 1) {
                Some(k) => if j + 1 < k <= t.len() {
                    dict_has_key(t, k, key)
                } else {
                    false
                },
                None => false,
            },
            _ => false,
        }
    }
}

/// The object a scalar token (content and file offset) stands for.
pub open spec fn scalar_as(tm: (lexer::TokenModel, int), o: Object) -> bool {
    match tm.0 {
        lexer::TokenModel::Boolean(b) => o matches Object::Boolean(x) && x.payload == b && x.byte_offset
            == tm.1,
        lexer::TokenModel::Integer(v) => o matches Object::Integer(x) && x.payload == v && x.byte_offset
            == tm.1,
        lexer::TokenModel::Real(v) => o matches Object::Real(x) && x.payload@ == v && x.byte_offset
            == tm.1,
        lexer::TokenModel::Name(n) => o matches Object::Name(x) && x.payload@ == n && x.byte_offset
            == tm.1,
        lexer::TokenModel::HexStr(v) => o matches Object::String(x) && x.payload@ == v
            && x.byte_offset == tm.1,
        lexer::TokenModel::String(v) => o matches Object::String(x) && x.payload@ == v
            && x.byte_offset == tm.1,
        lexer::TokenModel::Null => o matches Object::Null(x) && x.byte_offset == tm.1,
        lexer::TokenModel::IndirectRef(n, g) => o matches Object::IndirectRef(x) && x.object_number
            == n && x.generation_number == g && x.byte_offset == tm.1,
        _ => false,
    }
}

/// `o` is the object that parsing from token `i` gives: a scalar exactly,
/// an array with exactly its elements, a dictionary at its offset, an
/// indirect object with exactly its content.
pub open spec fn parsed_as(t: Seq<(lexer::TokenModel, int)>, i: int, o: Object) -> bool
    decreases t.len() - i, 0nat,
{
    if i < 0 || i >= t.len() {
        false
    } else {
        match t[i].0 {
            lexer::TokenModel::ArrayStart => o matches Object::Array(a) && a.byte_offset == t[i].1
                && elems_as(t, i + 1, a.payload@),
            lexer::TokenModel::DictStart => o matches Object::Dict(d) && d.byte_offset == t[i].1
                && forall|key: Seq<char>|
                #![trigger d.spec_get(key)]
                match last_value_at(t, i + 1, key) {
                    Some(p) => if i < p < t.len() {
                        d.spec_get(key) matches Some(v) && parsed_as(t, p, v)
                    } else {
                        false
                    },
                    None => d.spec_get(key) is None,
                },
            lexer::TokenModel::IndirectObjStart(_, _) => match o {
                Object::IndirectObj(x) => x.byte_offset == t[i].1 && parsed_as(t, i + 1, *x.payload),
                Object::StreamObj(st) => parsed_as(t, i + 1, Object::Dict(st.dict)) && match parse_end(
                    t,
                    i + 1,
                ) {
                    Some(m) => 0 <= m + 1 < t.len() && t[m + 1].0 == lexer::TokenModel::StreamObjStart(
                        st.byte_offset as int,
                    ),
                    None => false,
                },
                _ => false,
            },
            _ => scalar_as(t[i], o),
        }
    }
}

/// Token of the value of the last pair with key `key`, from token `j` on:
/// of two pairs with one key, the later one counts.
pub open spec fn last_value_at(t: Seq<(lexer::TokenModel, int)>, j: int, key: Seq<char>) -> Option<int>
    decreases t.len() - j,
{
    if j < 0 || j >= t.len() {
        None
    } else {
        match t[j].0 {
            lexer::TokenModel::Eol => last_value_at(t, j + 1, key),
            lexer::TokenModel::Name(n) => match parse_end(t, j + 1) {
                Some(k) => if j + 1 < k <= t.len() {
                    match last_value_at(t, k, key) {
                        Some(p) => Some(p),
                        None => if n == key {
                            Some(j + 1)
                        } else {
                            None
                        },
                    }
                } else {
                    None
                },
                None => None,
            },
            _ => None,
        }
    }
}

/// For key `k`: the pairs from token `start` to `cur` gave `d` its value,
/// unless a later pair (from `cur` on) sets `k` again.
pub open spec fn prefix_holds(
    t: Seq<(lexer::TokenModel, int)>,
    start: int,
    cur: int,
    d: PdfDict,
    k: Seq<char>,
) -> bool {
    match last_value_at(t, cur, k) {
        Some(p) => last_value_at(t, start, k) == Some(p),
        None => match last_value_at(t, start, k) {
            Some(p) => start < p < cur && (d.spec_get(k) matches Some(v) && parsed_as(t, p, v)),
            None => d.spec_get(k) is None,
        },
    }
}

/// `d` holds exactly what the pairs from token `start` to `cur` gave.
pub open spec fn dict_prefix(t: Seq<(lexer::TokenModel, int)>, start: int, cur: int, d: PdfDict) -> bool {
    forall|k: Seq<char>| #![trigger last_value_at(t, start, k)] prefix_holds(t, start, cur, d, k)
}

/// `d` holds, for each key, the object of the last pair with that key from
/// token `start` on, each past token `lower`.
pub open spec fn dict_contents(t: Seq<(lexer::TokenModel, int)>, start: int, lower: int, d: PdfDict) -> bool {
    forall|key: Seq<char>|
        #![trigger d.spec_get(key)]
        match last_value_at(t, start, key) {
            Some(p) => lower < p < t.len() && (d.spec_get(key) matches Some(v) && parsed_as(t, p, v)),
            None => d.spec_get(key) is None,
        }
}

/// `es` are exactly the elements from token `j` up to the closing `]`.
pub open spec fn elems_as(t: Seq<(lexer::TokenModel, int)>, j: int, es: Seq<Object>) -> bool
    decreases t.len() - j, 1nat,
{
    if j < 0 || j >= t.len() {
        false
    } else {
        match t[j].0 {
            lexer::TokenModel::Eol => elems_as(t, j + 1, es),
            lexer::TokenModel::ArrayEnd => es.len() == 0,
            _ => es.len() > 0 && parsed_as(t, j, es[0]) && match parse_end(t, j) {
                Some(k) => if j < k <= t.len() {
                    elems_as(t, k, es.drop_first())
                } else {
                    false
                },
                None => false,
            },
        }
    }
}

/// `es` are exactly the elements from token `j` up to token `cur`.
pub open spec fn elems_upto(t: Seq<(lexer::TokenModel, int)>, j: int, cur: int, es: Seq<Object>) -> bool
    decreases cur - j,
{
    if j < 0 || j > cur || cur > t.len() {
        false
    } else if j == cur {
        es.len() == 0
    } else if t[j].0 is Eol {
        elems_upto(t, j + 1, cur, es)
    } else {
        es.len() > 0 && parsed_as(t, j, es[0]) && match parse_end(t, j) {
            Some(k) => if j < k <= cur {
                elems_upto(t, k, cur, es.drop_first())
            } else {
                false
            },
            None => false,
        }
    }
}

proof fn lemma_elems_upto_push(
    t: Seq<(lexer::TokenModel, int)>,
    j: int,
    cur: int,
    k: int,
    es: Seq<Object>,
    e: Object,
)
    requires
        elems_upto(t, j, cur, es),
        parsed_as(t, cur, e),
        parse_end(t, cur) == Some(k),
        cur < k <= t.len(),
        !(t[cur].0 is Eol),
    ensures
        elems_upto(t, j, k, es.push(e)),
    decreases cur - j,
{
    if j == cur {
        assert(es.push(e).drop_first() =~= Seq::<Object>::empty());
        assert(es.push(e)[0] == e);
        assert(elems_upto(t, k, k, Seq::<Object>::empty()));
        assert(elems_upto(t, j, k, es.push(e)));
    } else if t[j].0 is Eol {
        lemma_elems_upto_push(t, j + 1, cur, k, es, e);
    } else {
        let k1 = parse_end(t, j)->Some_0;
        lemma_elems_upto_push(t, k1, cur, k, es.drop_first(), e);
        assert(es.push(e).drop_first() =~= es.drop_first().push(e));
        assert(es.push(e)[0] == es[0]);
        assert(elems_upto(t, j, k, es.push(e)));
    }
}

proof fn lemma_elems_upto_eol(t: Seq<(lexer::TokenModel, int)>, j: int, cur: int, es: Seq<Object>)
    requires
        elems_upto(t, j, cur, es),
        cur < t.len(),
        t[cur].0 is Eol,
    ensures
        elems_upto(t, j, cur + 1, es),
    decreases cur - j,
{
    if j == cur {
        assert(elems_upto(t, cur + 1, cur + 1, es));
    } else if t[j].0 is Eol {
        lemma_elems_upto_eol(t, j + 1, cur, es);
    } else {
        let k1 = parse_end(t, j)->Some_0;
        lemma_elems_upto_eol(t, k1, cur, es.drop_first());
        assert(elems_upto(t, j, cur + 1, es));
    }
}

proof fn lemma_elems_upto_end(t: Seq<(lexer::TokenModel, int)>, j: int, cur: int, es: Seq<Object>)
    requires
        elems_upto(t, j, cur, es),
        cur < t.len(),
        t[cur].0 is ArrayEnd,
    ensures
        elems_as(t, j, es),
    decreases cur - j,
{
    if j == cur {
    } else if t[j].0 is Eol {
        lemma_elems_upto_end(t, j + 1, cur, es);
    } else {
        let k1 = parse_end(t, j)->Some_0;
        lemma_elems_upto_end(t, k1, cur, es.drop_first());
    }
}

/// A window at file offset `base` tokenizes, has `obj` and `endobj`
/// balanced, and its tokens start with a whole object.
pub open spec fn window_parses(buf: Seq<u8>, base: int) -> bool {
    buf.len() > 0 && match lexer::lexes(buf, base) {
        Ok((t, ended)) => lexer::model_has_start(t) == ended && parse_end(t, 0) is Some,
        Err(_) => false,
    }
}

/// A window at file offset `base` ends before the object does: tokenizing
/// stops inside a token, or `obj` and `endobj` are not balanced.
pub open spec fn window_cut_short(buf: Seq<u8>, base: int) -> bool {
    buf.len() > 0 && match lexer::lexes(buf, base) {
        Ok((t, ended)) => lexer::model_has_start(t) != ended,
        Err((k, _)) => k.spec_is_truncation(),
    }
}

/// The integer a window at file offset `base` holds first, where the window
/// tokenizes with `obj` and `endobj` balanced and its first token is an
/// integer: what parsing the window to an integer gives.
pub open spec fn first_integer(buf: Seq<u8>, base: int) -> Option<int> {
    match lexer::lexes(buf, base) {
        Ok((t, ended)) => if lexer::model_has_start(t) == ended && t.len() > 0 && t[0].0 is Integer {
            Some(t[0].0->Integer_0)
        } else {
            None
        },
        Err(_) => None,
    }
}

/// `o` is what parsing the tokens of `buf` (a window at file offset `base`)
/// gives.
pub open spec fn parses_to(buf: Seq<u8>, base: u64, o: Object) -> bool {
    exists|tokens: Seq<Token>|
        lexer::all_sound(buf, base, tokens) && lexer::lexes(buf, base as int) is Ok
            && lexer::tokens_view(tokens) == lexer::lexed_tokens(buf, base as int) && #[trigger] parse_result(tokens, 0, base, Ok(o))
            && parsed_as(lexer::lexed_tokens(buf, base as int), 0, o)
}

/// What parsing from token `i` gives: a scalar token gives its object; an
/// opening token gives an object of the matching kind at its offset; any other
/// token, or none, is an error.
pub open spec fn parse_result(tokens: Seq<Token>, i: int, base: u64, r: Result<Object, Error>) -> bool
    decreases tokens.len() - i,
{
    if i < 0 {
        false
    } else if i >= tokens.len() {
        r == Err::<Object, Error>(Error { kind: ErrorKind::NoToken, byte_offset: base })
    } else {
        let t = tokens[i];
        match t.token_content {
            TokenContent::ArrayStart => r matches Ok(o) ==> o matches Object::Array(a)
                && a.byte_offset == t.byte_offset,
            TokenContent::DictStart => r matches Ok(o) ==> o matches Object::Dict(d) && d.wf()
                && d.byte_offset == t.byte_offset,
            TokenContent::IndirectObjStart(_, _) => r matches Ok(o) ==> (o matches Object::IndirectObj(x)
                && x.byte_offset == t.byte_offset && parse_result(
                tokens,
                i + 1,
                base,
                Ok(*x.payload),
            )) || o is StreamObj,
            TokenContent::IndirectRef(n, g) => if n == 0 {
                r == Err::<Object, Error>(Error { kind: ErrorKind::UnexpectedToken, byte_offset: t.byte_offset })
            } else {
                r matches Ok(o) && scalar_object(t, o)
            },
            _ => if is_scalar_token(t) {
                r matches Ok(o) && scalar_object(t, o)
            } else {
                r == Err::<Object, Error>(Error { kind: ErrorKind::UnexpectedToken, byte_offset: t.byte_offset })
            },
        }
    }
}

} // verus!
