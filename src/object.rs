//! The typed object model: one type per kind of object, narrowing from
//! `Object`, and the checks the readers make on dictionaries and integers.
use vstd::prelude::*;

use crate::cross_reference;
use crate::lexer;
use crate::parser;
use crate::parser::Object;
use crate::util::{read_partially, window};
use vstd::slice::slice_to_vec;

verus! {

/// The kinds of object, as named in type errors.
#[derive(Debug, Clone, Copy, PartialEq, Eq)]
pub enum ObjectType {
    Boolean,
    Integer,
    Real,
    Name,
    String,
    Array,
    Null,
    IndirectRef,
    Dict,
    IndirectObj,
    StreamObj,
}

/// Errors of the object model and of object resolution.
#[derive(Debug)]
pub enum Error {
    ObjectTypeMissMatch { required_type: ObjectType, byte_offset: u64 },
    DictKeyNotFound(&'static str),
    DictTypeMissMatch(String, String),
    ValueRestriction { byte_offset: u64 },
    InvalidStreamLength,
    /// A read returned fewer bytes than the object needs.
    ShortRead { byte_offset: u64 },
    Parser(crate::parser::error::Error),
    XRef(Box<crate::cross_reference::Error>),
}

/// Behaviour common to the object types.
pub trait PdfObject: Sized {
    spec fn spec_byte_offset(&self) -> u64;

    spec fn spec_required_type() -> ObjectType;

    /// File offset of the object's first token.
    fn byte_offset(&self) -> (r: u64)
        ensures
            r == self.spec_byte_offset(),
    ;

    /// The error for an object that is not of this type.
    fn type_missmatch_error(byte_offset: u64) -> (e: Error)
        ensures
            e == (Error::ObjectTypeMissMatch {
                required_type: Self::spec_required_type(),
                byte_offset,
            }),
    ;
}

#[derive(Debug, Clone, PartialEq, Eq)]
pub struct PdfBoolean {
    pub payload: bool,
    pub byte_offset: u64,
}

impl PdfBoolean {
    pub fn new(b: bool, byte_offset: u64) -> (r: Self)
        ensures
            r.payload == b,
            r.byte_offset == byte_offset,
    {
        Self { payload: b, byte_offset }
    }

    pub fn unpack(&self) -> (r: bool)
        ensures
            r == self.payload,
    {
        self.payload
    }
}

impl PdfObject for PdfBoolean {
    open spec fn spec_byte_offset(&self) -> u64 {
        self.byte_offset
    }

    open spec fn spec_required_type() -> ObjectType {
        ObjectType::Boolean
    }

    fn byte_offset(&self) -> (r: u64) {
        self.byte_offset
    }

    fn type_missmatch_error(byte_offset: u64) -> (e: Error) {
        Error::ObjectTypeMissMatch { required_type: ObjectType::Boolean, byte_offset }
    }
}

#[derive(Debug, Clone, PartialEq, Eq)]
pub struct PdfInteger {
    pub payload: isize,
    pub byte_offset: u64,
}

impl PdfInteger {
    pub fn new(i: isize, byte_offset: u64) -> (r: Self)
        ensures
            r.payload == i,
            r.byte_offset == byte_offset,
    {
        Self { payload: i, byte_offset }
    }

    /// The integer that `obj` is, or a type error at its offset.
    pub fn ensure(obj: &Object) -> (r: Result<&Self, Error>)
        ensures
            match *obj {
                Object::Integer(i) => r == Ok::<&Self, Error>(&i),
                _ => r matches Err(e) && e == (Error::ObjectTypeMissMatch {
                    required_type: ObjectType::Integer,
                    byte_offset: obj.offset(),
                }),
            },
    {
        match obj {
            Object::Integer(integer) => Ok(integer),
            _ => Err(PdfInteger::type_missmatch_error(obj.byte_offset())),
        }
    }

    pub fn unpack(&self) -> (r: isize)
        ensures
            r == self.payload,
    {
        self.payload
    }

    /// The integer must be positive.
    pub fn assert_natural(&self) -> (r: Result<(), Error>)
        ensures
            r is Ok <==> self.payload > 0,
            r matches Err(e) ==> e == (Error::ValueRestriction { byte_offset: self.byte_offset }),
    {
        if self.payload > 0 {
            Ok(())
        } else {
            Err(Error::ValueRestriction { byte_offset: self.byte_offset })
        }
    }

    /// The integer must not be negative.
    pub fn assert_not_negative(&self) -> (r: Result<(), Error>)
        ensures
            r is Ok <==> self.payload >= 0,
            r matches Err(e) ==> e == (Error::ValueRestriction { byte_offset: self.byte_offset }),
    {
        if self.payload >= 0 {
            Ok(())
        } else {
            Err(Error::ValueRestriction { byte_offset: self.byte_offset })
        }
    }
}

impl PdfObject for PdfInteger {
    open spec fn spec_byte_offset(&self) -> u64 {
        self.byte_offset
    }

    open spec fn spec_required_type() -> ObjectType {
        ObjectType::Integer
    }

    fn byte_offset(&self) -> (r: u64) {
        self.byte_offset
    }

    fn type_missmatch_error(byte_offset: u64) -> (e: Error) {
        Error::ObjectTypeMissMatch { required_type: ObjectType::Integer, byte_offset }
    }
}

/// A real number, kept as the literal bytes it was written with.
#[derive(Debug, Clone, PartialEq)]
pub struct PdfReal {
    pub payload: Vec<u8>,
    pub byte_offset: u64,
}

impl PdfReal {
    pub fn new(literal: Vec<u8>, byte_offset: u64) -> (r: Self)
        ensures
            r.payload == literal,
            r.byte_offset == byte_offset,
    {
        Self { payload: literal, byte_offset }
    }

    /// The literal bytes of the number.
    pub fn unpack(&self) -> (r: &Vec<u8>)
        ensures
            r == &self.payload,
    {
        &self.payload
    }
}

impl PdfObject for PdfReal {
    open spec fn spec_byte_offset(&self) -> u64 {
        self.byte_offset
    }

    open spec fn spec_required_type() -> ObjectType {
        ObjectType::Real
    }

    fn byte_offset(&self) -> (r: u64) {
        self.byte_offset
    }

    fn type_missmatch_error(byte_offset: u64) -> (e: Error) {
        Error::ObjectTypeMissMatch { required_type: ObjectType::Real, byte_offset }
    }
}

#[derive(Debug, Clone, PartialEq)]
pub struct PdfName {
    pub payload: String,
    pub byte_offset: u64,
}

impl PdfName {
    pub fn new(s: String, byte_offset: u64) -> (r: Self)
        ensures
            r.payload == s,
            r.byte_offset == byte_offset,
    {
        Self { payload: s, byte_offset }
    }

    /// The name that `obj` is, or a type error at its offset.
    pub fn ensure(obj: &Object) -> (r: Result<&Self, Error>)
        ensures
            match *obj {
                Object::Name(n) => r == Ok::<&Self, Error>(&n),
                _ => r matches Err(e) && e == (Error::ObjectTypeMissMatch {
                    required_type: ObjectType::Name,
                    byte_offset: obj.offset(),
                }),
            },
    {
        match obj {
            Object::Name(name) => Ok(name),
            _ => Err(PdfName::type_missmatch_error(obj.byte_offset())),
        }
    }

    pub fn as_str(&self) -> (r: &str)
        ensures
            r@ == self.payload@,
    {
        self.payload.as_str()
    }

    /// Whether the name is `s`.
    pub fn is(&self, s: &str) -> (r: bool)
        ensures
            r == (self.payload@ == s@),
    {
        let other = s.to_owned();
        self.payload == other
    }
}

impl PdfObject for PdfName {
    open spec fn spec_byte_offset(&self) -> u64 {
        self.byte_offset
    }

    open spec fn spec_required_type() -> ObjectType {
        ObjectType::Name
    }

    fn byte_offset(&self) -> (r: u64) {
        self.byte_offset
    }

    fn type_missmatch_error(byte_offset: u64) -> (e: Error) {
        Error::ObjectTypeMissMatch { required_type: ObjectType::Name, byte_offset }
    }
}

/// A byte string.
#[derive(Debug, Clone, PartialEq)]
pub struct PdfString {
    pub payload: Vec<u8>,
    pub byte_offset: u64,
}

impl PdfString {
    pub fn new(s: Vec<u8>, byte_offset: u64) -> (r: Self)
        ensures
            r.payload == s,
            r.byte_offset == byte_offset,
    {
        Self { payload: s, byte_offset }
    }

    pub fn as_bytes(&self) -> (r: &Vec<u8>)
        ensures
            r == &self.payload,
    {
        &self.payload
    }
}

impl PdfObject for PdfString {
    open spec fn spec_byte_offset(&self) -> u64 {
        self.byte_offset
    }

    open spec fn spec_required_type() -> ObjectType {
        ObjectType::String
    }

    fn byte_offset(&self) -> (r: u64) {
        self.byte_offset
    }

    fn type_missmatch_error(byte_offset: u64) -> (e: Error) {
        Error::ObjectTypeMissMatch { required_type: ObjectType::String, byte_offset }
    }
}

#[derive(Debug, PartialEq)]
pub struct PdfArray {
    pub payload: Vec<Object>,
    pub byte_offset: u64,
}

impl PdfArray {
    pub fn new(arr: Vec<Object>, byte_offset: u64) -> (r: Self)
        ensures
            r.payload == arr,
            r.byte_offset == byte_offset,
    {
        Self { payload: arr, byte_offset }
    }

    /// The array that `obj` is, or a type error at its offset.
    pub fn ensure(obj: &Object) -> (r: Result<&Self, Error>)
        ensures
            match *obj {
                Object::Array(a) => r == Ok::<&Self, Error>(&a),
                _ => r matches Err(e) && e == (Error::ObjectTypeMissMatch {
                    required_type: ObjectType::Array,
                    byte_offset: obj.offset(),
                }),
            },
    {
        match obj {
            Object::Array(array) => Ok(array),
            _ => Err(PdfArray::type_missmatch_error(obj.byte_offset())),
        }
    }

    /// The elements, in order.
    pub fn elements(&self) -> (r: &Vec<Object>)
        ensures
            r == &self.payload,
    {
        &self.payload
    }
}

impl PdfObject for PdfArray {
    open spec fn spec_byte_offset(&self) -> u64 {
        self.byte_offset
    }

    open spec fn spec_required_type() -> ObjectType {
        ObjectType::Array
    }

    fn byte_offset(&self) -> (r: u64) {
        self.byte_offset
    }

    fn type_missmatch_error(byte_offset: u64) -> (e: Error) {
        Error::ObjectTypeMissMatch { required_type: ObjectType::Array, byte_offset }
    }
}

#[derive(Debug, Clone, PartialEq, Eq)]
pub struct PdfNull {
    pub byte_offset: u64,
}

impl PdfNull {
    pub fn new(byte_offset: u64) -> (r: Self)
        ensures
            r.byte_offset == byte_offset,
    {
        Self { byte_offset }
    }
}

impl PdfObject for PdfNull {
    open spec fn spec_byte_offset(&self) -> u64 {
        self.byte_offset
    }

    open spec fn spec_required_type() -> ObjectType {
        ObjectType::Null
    }

    fn byte_offset(&self) -> (r: u64) {
        self.byte_offset
    }

    fn type_missmatch_error(byte_offset: u64) -> (e: Error) {
        Error::ObjectTypeMissMatch { required_type: ObjectType::Null, byte_offset }
    }
}

/// A reference `N G R` to an indirect object.
#[derive(Debug, Clone, Copy, PartialEq, Eq)]
pub struct PdfIndirectRef {
    pub object_number: usize,
    pub generation_number: usize,
    pub byte_offset: u64,
}

impl PdfIndirectRef {
    /// Object numbers start at 1.
    pub fn new(object_number: usize, generation_number: usize, byte_offset: u64) -> (r: Self)
        requires
            object_number > 0,
        ensures
            r.object_number == object_number,
            r.generation_number == generation_number,
            r.byte_offset == byte_offset,
    {
        Self { object_number, generation_number, byte_offset }
    }

    /// The reference that `obj` is, or a type error at its offset.
    pub fn ensure(obj: &Object) -> (r: Result<&Self, Error>)
        ensures
            match *obj {
                Object::IndirectRef(x) => r == Ok::<&Self, Error>(&x),
                _ => r matches Err(e) && e == (Error::ObjectTypeMissMatch {
                    required_type: ObjectType::IndirectRef,
                    byte_offset: obj.offset(),
                }),
            },
    {
        match obj {
            Object::IndirectRef(indirect_ref) => Ok(indirect_ref),
            _ => Err(PdfIndirectRef::type_missmatch_error(obj.byte_offset())),
        }
    }

    /// Object number and generation number.
    pub fn unpack(&self) -> (r: (usize, usize))
        ensures
            r == (self.object_number, self.generation_number),
    {
        (self.object_number, self.generation_number)
    }

    /// Resolves the reference: looks up the object's offset in `xref`, then
    /// parses the object there.
    pub fn get_indirect_obj(&self, source: &[u8], xref: &cross_reference::XRef) -> (r: Result<Object, Error>)
        requires
            xref.wf(),
        ensures
            xref.spec_contains(self.object_number as int) ==> {
                let at = xref.spec_entry_offset(self.object_number as int);
                let entry = window(source@, at, 18);
                entry.len() == 18 ==> match cross_reference::entry_value(entry, at) {
                    Some((offset, generation, in_use)) => if !in_use {
                        r matches Err(Error::XRef(b)) && *b is NotSupporttedEntryType
                    } else if generation != self.generation_number {
                        r matches Err(Error::XRef(b)) && *b is GenerationNumberMisMatch
                    } else {
                        (r is Ok) == resolves_within(source@, offset, WINDOW_STEP as int)
                    },
                    None => r is Err,
                }
            },
            r matches Ok(o) ==> resolves_to(source@, *xref, *self, o),
            !xref.spec_contains(self.object_number as int) ==> (r matches Err(Error::XRef(b))
                && *b == cross_reference::Error::NotContain(self.object_number)),
    {
        let offset = match xref.get_byte_offset(source, self) {
            Ok(o) => o,
            Err(e) => return Err(Error::XRef(Box::new(e))),
        };
        match resolve_at(source, offset) {
            Ok(o) => Ok(o),
            Err(e) => Err(Error::Parser(e)),
        }
    }
}

/// Size of the first window read for an object, and of each growth.
pub const WINDOW_STEP: u64 = 200;

/// What to do after parsing one window.
#[derive(Debug)]
pub enum ResolveStep {
    /// The window held the whole object.
    Done(Object),
    /// Read again with this larger window.
    Grow(u64),
    /// Give up with this error.
    Fail(parser::error::Error),
}

/// Decision after parsing a window of `got` bytes that was asked for with
/// `buf_size`: an object is done; an error that says the window ended too
/// early asks for a window larger by `WINDOW_STEP` unless the source already
/// ended inside this one; any other error is given back as it is.
pub fn next_step(outcome: Result<Object, parser::error::Error>, got: usize, buf_size: u64) -> (r: ResolveStep)
    requires
        buf_size + WINDOW_STEP <= u64::MAX,
    ensures
        match outcome {
            Ok(o) => r == ResolveStep::Done(o),
            Err(e) => if e.spec_is_recoverable() && got == buf_size {
                r == ResolveStep::Grow((buf_size + WINDOW_STEP) as u64)
            } else {
                r == ResolveStep::Fail(e)
            },
        },
{
    match outcome {
        Ok(o) => ResolveStep::Done(o),
        Err(e) => {
            if e.is_recoverable() && got as u64 == buf_size {
                ResolveStep::Grow(buf_size + WINDOW_STEP)
            } else {
                ResolveStep::Fail(e)
            }
        },
    }
}

/// Tokenizes and parses one window that starts at file offset `offset`; an
/// empty window has no token.
pub fn parse_window(buffer: &[u8], offset: u64) -> (r: Result<Object, parser::error::Error>)
    requires
        offset + buffer@.len() <= u64::MAX,
    ensures
        r matches Ok(o) ==> parser::parses_to(buffer@, offset, o),
        buffer@.len() == 0 ==> r == Err::<Object, parser::error::Error>(
            parser::error::Error { kind: parser::error::ErrorKind::NoToken, byte_offset: offset },
        ),
        match parser::first_integer(buffer@, offset as int) {
            Some(v) => r matches Ok(Object::Integer(i)) && i.payload == v,
            None => !(r matches Ok(Object::Integer(_))),
        },
        (r is Ok) == parser::window_parses(buffer@, offset as int),
        r matches Err(e) ==> e.spec_is_recoverable() == parser::window_cut_short(buffer@, offset as int),
        lexer::lexes(buffer@, offset as int) matches Err((k, at)) ==> buffer@.len() > 0 ==> r
            == Err::<Object, parser::error::Error>(
            parser::error::Error {
                kind: parser::error::ErrorKind::Lexer(lexer::error::Error { kind: k, byte_offset: at as u64 }),
                byte_offset: offset,
            },
        ),
{
    if buffer.len() == 0 {
        proof {
            assert(lexer::lexes(buffer@, offset as int) == Ok::<
                (Seq<(lexer::TokenModel, int)>, bool),
                (lexer::error::ErrorKind, int),
            >((Seq::empty(), false)));
        }
        return Err(parser::error::Error::new(parser::error::ErrorKind::NoToken, offset));
    }
    let mut p = parser::Parser::new(buffer, offset)?;
    proof {
        if p.token_vec@.len() > 0 {
            assert(lexer::tokens_view(p.token_vec@)[0] == lexer::token_view(p.token_vec@[0]));
        }
    }
    let r = p.parse();
    proof {
        if r is Ok {
            assert(parser::parse_result(p.token_vec@, 0, offset, r));
        }
    }
    r
}

/// The entry of `x` in `xref` gives an offset, and `o` is what a window of
/// `source` at that offset parses to.
pub open spec fn resolves_to(source: Seq<u8>, xref: cross_reference::XRef, x: PdfIndirectRef, o: Object) -> bool {
    exists|offset: u64, size: int|
        xref.entry_says(source, x.object_number as int, x.generation_number as int, offset as int)
            && parser::parses_to(#[trigger] window(source, offset as int, size), offset, o)
}

/// The tokens are `obj` and then the integer `v`.
pub open spec fn integer_content(t: Seq<(lexer::TokenModel, int)>, v: int) -> bool {
    t.len() > 1 && t[0].0 is IndirectObjStart && t[1].0 == lexer::TokenModel::Integer(v)
}

/// Following `x` through `xref` leads to an indirect object whose content,
/// the token after `obj`, is the integer `v`.
pub open spec fn integer_object_at(source: Seq<u8>, xref: cross_reference::XRef, x: PdfIndirectRef, v: int) -> bool {
    exists|offset: u64, size: int|
        xref.entry_says(source, x.object_number as int, x.generation_number as int, offset as int)
            && lexer::lexes(window(source, offset as int, size), offset as int) is Ok && integer_content(
            #[trigger] lexer::lexed_tokens(window(source, offset as int, size), offset as int),
            v,
        )
}

/// What parses to an integer object starts with an integer literal of its
/// value.
pub proof fn lemma_parsed_integer(buf: Seq<u8>, base: u64, o: Object)
    requires
        parser::parses_to(buf, base, o),
        o is Integer,
    ensures
        exists|k: int| lexer::integer_at(buf, k, o->Integer_0.payload as int),
{
    let tokens = choose|tokens: Seq<lexer::Token>|
        lexer::all_sound(buf, base, tokens) && lexer::lexes(buf, base as int) is Ok
            && lexer::tokens_view(tokens) == lexer::lexed_tokens(buf, base as int) && #[trigger] parser::parse_result(tokens, 0, base, Ok(o));
    assert(tokens.len() > 0);
    let t = tokens[0];
    assert(t.token_content is Integer);
    assert(lexer::token_sound(buf, base, t));
    assert(lexer::integer_at(buf, t.byte_offset - base, o->Integer_0.payload as int));
}

proof fn lemma_integer_object(source: Seq<u8>, xref: cross_reference::XRef, x: PdfIndirectRef, o: Object, v: int)
    requires
        resolves_to(source, xref, x, o),
        o matches Object::IndirectObj(io) && *io.payload matches Object::Integer(i) && i.payload == v,
    ensures
        integer_object_at(source, xref, x, v),
{
    let (offset, size) = choose|offset: u64, size: int|
        xref.entry_says(source, x.object_number as int, x.generation_number as int, offset as int)
            && parser::parses_to(#[trigger] window(source, offset as int, size), offset, o);
    let buf = window(source, offset as int, size);
    let tokens = choose|tokens: Seq<lexer::Token>|
        lexer::all_sound(buf, offset, tokens) && lexer::lexes(buf, offset as int) is Ok
            && lexer::tokens_view(tokens) == lexer::lexed_tokens(buf, offset as int) && #[trigger] parser::parse_result(tokens, 0, offset, Ok(o));
    let io = o->IndirectObj_0;
    assert(tokens.len() > 0);
    assert(tokens[0].token_content is IndirectObjStart);
    assert(parser::parse_result(tokens, 1, offset, Ok(*io.payload)));
    assert(tokens.len() > 1);
    let t = tokens[1];
    assert(t.token_content is Integer);
    assert(lexer::tokens_view(tokens)[0] == lexer::token_view(tokens[0]));
    assert(lexer::tokens_view(tokens)[1] == lexer::token_view(t));
}

/// Resolving at `offset` with a window of `size` bytes ends with an object:
/// this window parses, or it ends inside the object while the source goes
/// on past it, and the window larger by `WINDOW_STEP` resolves.
pub open spec fn resolves_within(source: Seq<u8>, offset: int, size: int) -> bool
    decreases source.len() + WINDOW_STEP - size,
{
    let w = window(source, offset, size);
    if parser::window_parses(w, offset) {
        true
    } else if size > u64::MAX - WINDOW_STEP {
        false
    } else if parser::window_cut_short(w, offset) && w.len() == size && 0 < size <= source.len() {
        resolves_within(source, offset, size + WINDOW_STEP)
    } else {
        false
    }
}

/// Parses the object at file offset `offset` of `source`: a window of
/// `WINDOW_STEP` bytes first, larger by `WINDOW_STEP` each time it ends inside
/// the object, until the object is whole, an error is not of that kind, or
/// the window already held the rest of the source.
pub fn resolve_at(source: &[u8], offset: u64) -> (r: Result<Object, parser::error::Error>)
    ensures
        (r is Ok) == resolves_within(source@, offset as int, WINDOW_STEP as int),
        r matches Ok(o) ==> exists|size: int|
            parser::parses_to(#[trigger] window(source@, offset as int, size), offset, o),
        offset >= source@.len() ==> r == Err::<Object, parser::error::Error>(
            parser::error::Error { kind: parser::error::ErrorKind::NoToken, byte_offset: offset },
        ),
{
    let n = source.len();
    let mut buf_size: u64 = WINDOW_STEP;
    loop
        invariant
            n == source@.len(),
            WINDOW_STEP <= buf_size <= n + WINDOW_STEP,
            resolves_within(source@, offset as int, buf_size as int) == resolves_within(
                source@,
                offset as int,
                WINDOW_STEP as int,
            ),
        decreases n + WINDOW_STEP - buf_size,
    {
        let buffer = read_partially(source, offset, buf_size);
        assert(buffer@.len() <= n);
        let outcome = parse_window(buffer, offset);
        assert(buffer@ == window(source@, offset as int, buf_size as int));
        if buf_size > u64::MAX - WINDOW_STEP {
            // no larger window can be asked for
            return outcome;
        }
        match next_step(outcome, buffer.len(), buf_size) {
            ResolveStep::Done(o) => return Ok(o),
            ResolveStep::Grow(size) => buf_size = size,
            ResolveStep::Fail(e) => return Err(e),
        }
    }
}

impl PdfObject for PdfIndirectRef {
    open spec fn spec_byte_offset(&self) -> u64 {
        self.byte_offset
    }

    open spec fn spec_required_type() -> ObjectType {
        ObjectType::IndirectRef
    }

    fn byte_offset(&self) -> (r: u64) {
        self.byte_offset
    }

    fn type_missmatch_error(byte_offset: u64) -> (e: Error) {
        Error::ObjectTypeMissMatch { required_type: ObjectType::IndirectRef, byte_offset }
    }
}

/// Value of `key` in a list of entries where a later entry overrides an
/// earlier one with the same key.
pub open spec fn lookup(entries: Seq<(String, Object)>, key: Seq<char>) -> Option<Object>
    decreases entries.len(),
{
    if entries.len() == 0 {
        None
    } else if entries.last().0@ == key {
        Some(entries.last().1)
    } else {
        lookup(entries.drop_last(), key)
    }
}

/// No two entries share a key.
pub open spec fn keys_unique(entries: Seq<(String, Object)>) -> bool {
    forall|a: int, b: int|
        0 <= a < b < entries.len() ==> (#[trigger] entries[a]).0@ != (#[trigger] entries[b]).0@
}

proof fn lemma_lookup_absent(entries: Seq<(String, Object)>, key: Seq<char>)
    requires
        forall|a: int| 0 <= a < entries.len() ==> (#[trigger] entries[a]).0@ != key,
    ensures
        lookup(entries, key) is None,
    decreases entries.len(),
{
    if entries.len() > 0 {
        lemma_lookup_absent(entries.drop_last(), key);
    }
}

proof fn lemma_lookup_at(entries: Seq<(String, Object)>, j: int)
    requires
        keys_unique(entries),
        0 <= j < entries.len(),
    ensures
        lookup(entries, entries[j].0@) == Some(entries[j].1),
    decreases entries.len(),
{
    if j < entries.len() - 1 {
        assert(entries.last() == entries[entries.len() - 1]);
        lemma_lookup_at(entries.drop_last(), j);
    }
}

proof fn lemma_lookup_update(entries: Seq<(String, Object)>, j: int, e: (String, Object), key: Seq<char>)
    requires
        keys_unique(entries),
        0 <= j < entries.len(),
        entries[j].0@ == e.0@,
    ensures
        lookup(entries.update(j, e), key) == if key == e.0@ {
            Some(e.1)
        } else {
            lookup(entries, key)
        },
    decreases entries.len(),
{
    let u = entries.update(j, e);
    if j == entries.len() - 1 {
        assert(u.drop_last() =~= entries.drop_last());
    } else {
        assert(u.drop_last() =~= entries.drop_last().update(j, e));
        assert(u.last() == entries.last());
        assert(entries.last() == entries[entries.len() - 1]);
        lemma_lookup_update(entries.drop_last(), j, e, key);
    }
}

/// A dictionary: names to objects, each key at most once.
#[derive(Debug, PartialEq)]
pub struct PdfDict {
    pub payload: Vec<(String, Object)>,
    pub byte_offset: u64,
}

impl PdfDict {
    pub open spec fn wf(&self) -> bool {
        keys_unique(self.payload@)
    }

    /// Value of `key`, if the dictionary has it.
    pub open spec fn spec_get(&self, key: Seq<char>) -> Option<Object> {
        lookup(self.payload@, key)
    }

    /// A dictionary holding `entries`, inserted in order: of two entries with
    /// one key, the later one stays.
    pub fn new(entries: Vec<(String, Object)>, byte_offset: u64) -> (r: Self)
        ensures
            r.wf(),
            r.byte_offset == byte_offset,
            forall|key: Seq<char>| r.spec_get(key) == lookup(entries@, key),
    {
        let mut dict = PdfDict { payload: Vec::new(), byte_offset };
        let mut entries = entries;
        let ghost all = entries@;
        let ghost n = all.len();
        while entries.len() > 0
            invariant
                dict.wf(),
                dict.byte_offset == byte_offset,
                n == all.len(),
                entries@.len() <= n,
                entries@ == all.subrange(n - entries@.len(), n as int),
                forall|key: Seq<char>|
                    dict.spec_get(key) == lookup(all.subrange(0, n - entries@.len()), key),
            decreases entries@.len(),
        {
            let ghost k = n - entries@.len();
            let e = entries.remove(0);
            proof {
                assert(all[k] == e);
                assert(entries@ =~= all.subrange(k + 1, n as int));
                assert(all.subrange(0, k + 1).drop_last() =~= all.subrange(0, k));
                assert(all.subrange(0, k + 1).last() == e);
            }
            dict.insert(e.0, e.1);
        }
        assert(all.subrange(0, n as int) =~= all);
        dict
    }

    /// The same entries at another offset.
    pub fn with_offset(self, byte_offset: u64) -> (r: Self)
        ensures
            r.payload == self.payload,
            r.byte_offset == byte_offset,
    {
        PdfDict { payload: self.payload, byte_offset }
    }

    /// Sets `key` to `value`, replacing an earlier value of the key.
    pub fn insert(&mut self, key: String, value: Object)
        requires
            old(self).wf(),
        ensures
            final(self).wf(),
            final(self).byte_offset == old(self).byte_offset,
            forall|k: Seq<char>|
                final(self).spec_get(k) == if k == key@ {
                    Some(value)
                } else {
                    old(self).spec_get(k)
                },
    {
        let n = self.payload.len();
        let mut j: usize = 0;
        while j < n
            invariant
                self.payload == old(self).payload,
                self.byte_offset == old(self).byte_offset,
                keys_unique(self.payload@),
                n == self.payload@.len(),
                j <= n,
                forall|a: int| 0 <= a < j ==> (#[trigger] self.payload@[a]).0@ != key@,
            decreases n - j,
        {
            if self.payload[j].0 == key {
                let ghost old_payload = self.payload@;
                let ghost e = (key, value);
                self.payload[j] = (key, value);
                proof {
                    assert(self.payload@ == old_payload.update(j as int, e));
                    assert forall|k: Seq<char>| #[trigger] lookup(self.payload@, k) == if k == e.0@ {
                        Some(e.1)
                    } else {
                        lookup(old_payload, k)
                    } by {
                        lemma_lookup_update(old_payload, j as int, e, k);
                    }
                    assert(keys_unique(self.payload@));
                }
                return;
            }
            j += 1;
        }
        let ghost old_payload = self.payload@;
        self.payload.push((key, value));
        proof {
            assert(self.payload@.drop_last() =~= old_payload);
            assert(keys_unique(self.payload@));
        }
    }

    /// Value of `key`, if the dictionary has it.
    pub fn get(&self, key: &str) -> (r: Option<&Object>)
        ensures
            match self.spec_get(key@) {
                Some(v) => r == Some(&v),
                None => r is None,
            },
    {
        let key_string = key.to_owned();
        let mut j = self.payload.len();
        assert(self.payload@.subrange(0, j as int) =~= self.payload@);
        while j > 0
            invariant
                j <= self.payload@.len(),
                key_string@ == key@,
                lookup(self.payload@.subrange(0, j as int), key@) == lookup(self.payload@, key@),
            decreases j,
        {
            let ghost pre = self.payload@.subrange(0, j as int);
            if self.payload[j - 1].0 == key_string {
                assert(pre.last() == self.payload@[j - 1]);
                assert(pre.last().0@ == key@);
                assert(lookup(pre, key@) == Some(pre.last().1));
                return Some(&self.payload[j - 1].1);
            }
            assert(pre.drop_last() =~= self.payload@.subrange(0, j - 1));
            j -= 1;
        }
        None
    }

    /// The entries, each key once.
    pub fn iter(&self) -> (r: &Vec<(String, Object)>)
        ensures
            r == &self.payload,
    {
        &self.payload
    }

    /// Every key of `keys` must be present.
    pub fn assert_with_key(&self, keys: Vec<&'static str>) -> (r: Result<(), Error>)
        ensures
            r is Ok <==> forall|k: int| 0 <= k < keys@.len() ==> self.spec_get(keys@[k]@) is Some,
            r matches Err(e) ==> exists|k: int|
                0 <= k < keys@.len() && self.spec_get(keys@[k]@) is None && e
                    == Error::DictKeyNotFound(keys@[k]) && forall|m: int|
                    0 <= m < k ==> self.spec_get(#[trigger] keys@[m]@) is Some,
    {
        let mut k: usize = 0;
        while k < keys.len()
            invariant
                k <= keys@.len(),
                forall|m: int| 0 <= m < k ==> self.spec_get(keys@[m]@) is Some,
            decreases keys@.len() - k,
        {
            let key = keys[k];
            if self.get(key).is_none() {
                return Err(Error::DictKeyNotFound(key));
            }
            k += 1;
        }
        Ok(())
    }

    /// The dictionary that `obj` is, which must hold every key of `keys`.
    pub fn ensure_with_key<'a>(obj: &'a Object, keys: Vec<&'static str>) -> (r: Result<
        &'a Self,
        Error,
    >)
        ensures
            match *obj {
                Object::Dict(d) => match r {
                    Ok(x) => *x == d && forall|k: int|
                        0 <= k < keys@.len() ==> d.spec_get(keys@[k]@) is Some,
                    Err(e) => exists|k: int|
                        0 <= k < keys@.len() && d.spec_get(keys@[k]@) is None && e
                            == Error::DictKeyNotFound(keys@[k]) && forall|m: int|
                            0 <= m < k ==> d.spec_get(#[trigger] keys@[m]@) is Some,
                },
                _ => r matches Err(e) && e == (Error::ObjectTypeMissMatch {
                    required_type: ObjectType::Dict,
                    byte_offset: obj.offset(),
                }),
            },
    {
        let dict = match obj {
            Object::Dict(obj) => obj,
            _ => return Err(PdfDict::type_missmatch_error(obj.byte_offset())),
        };
        dict.assert_with_key(keys)?;
        Ok(dict)
    }

    /// The dictionary's `Type` must be the name `expected_type`.
    pub fn ensure_type(&self, expected_type: &'static str) -> (r: Result<(), Error>)
        requires
            self.spec_get("Type"@) is Some,
        ensures
            match self.spec_get("Type"@) {
                Some(Object::Name(n)) => match r {
                    Ok(_) => n.payload@ == expected_type@,
                    Err(e) => n.payload@ != expected_type@ && (e matches Error::DictTypeMissMatch(
                        a,
                        b,
                    ) && a@ == expected_type@ && b@ == n.payload@),
                },
                Some(o) => r matches Err(e) && e == (Error::ObjectTypeMissMatch {
                    required_type: ObjectType::Name,
                    byte_offset: o.offset(),
                }),
                None => false,
            },
    {
        let type_obj = self.get("Type").unwrap();
        let actual_type = PdfName::ensure(type_obj)?;
        if actual_type.is(expected_type) {
            Ok(())
        } else {
            Err(Error::DictTypeMissMatch(expected_type.to_owned(), actual_type.payload.clone()))
        }
    }
}

impl PdfObject for PdfDict {
    open spec fn spec_byte_offset(&self) -> u64 {
        self.byte_offset
    }

    open spec fn spec_required_type() -> ObjectType {
        ObjectType::Dict
    }

    fn byte_offset(&self) -> (r: u64) {
        self.byte_offset
    }

    fn type_missmatch_error(byte_offset: u64) -> (e: Error) {
        Error::ObjectTypeMissMatch { required_type: ObjectType::Dict, byte_offset }
    }
}

/// An indirect object `N G obj ... endobj`.
#[derive(Debug, PartialEq)]
pub struct PdfIndirectObj {
    pub payload: Box<Object>,
    pub byte_offset: u64,
}

impl PdfIndirectObj {
    pub fn new(obj: Object, byte_offset: u64) -> (r: Self)
        ensures
            *r.payload == obj,
            r.byte_offset == byte_offset,
    {
        Self { payload: Box::new(obj), byte_offset }
    }

    /// The indirect object that `obj` is, or a type error at its offset.
    pub fn ensure(obj: &Object) -> (r: Result<&Self, Error>)
        ensures
            match *obj {
                Object::IndirectObj(x) => r == Ok::<&Self, Error>(&x),
                _ => r matches Err(e) && e == (Error::ObjectTypeMissMatch {
                    required_type: ObjectType::IndirectObj,
                    byte_offset: obj.offset(),
                }),
            },
    {
        match obj {
            Object::IndirectObj(obj) => Ok(obj),
            _ => Err(PdfIndirectObj::type_missmatch_error(obj.byte_offset())),
        }
    }

    /// The object the indirect object holds.
    pub fn get_object(&self) -> (r: &Object)
        ensures
            *r == *self.payload,
    {
        &*self.payload
    }
}

impl PdfObject for PdfIndirectObj {
    open spec fn spec_byte_offset(&self) -> u64 {
        self.byte_offset
    }

    open spec fn spec_required_type() -> ObjectType {
        ObjectType::IndirectObj
    }

    fn byte_offset(&self) -> (r: u64) {
        self.byte_offset
    }

    fn type_missmatch_error(byte_offset: u64) -> (e: Error) {
        Error::ObjectTypeMissMatch { required_type: ObjectType::IndirectObj, byte_offset }
    }
}

/// A stream: its dictionary and the file offset where its raw bytes begin.
#[derive(Debug, PartialEq)]
pub struct PdfStreamObj {
    pub dict: PdfDict,
    pub byte_offset: u64,
}

impl PdfStreamObj {
    /// A stream from the object before `stream`, which must be a dictionary
    /// with a `Length`.
    pub fn new(obj: Object, byte_offset: u64) -> (r: Result<Self, Error>)
        ensures
            match obj {
                Object::Dict(d) => match r {
                    Ok(s) => s.dict == d && s.byte_offset == byte_offset && d.spec_get("Length"@) is Some,
                    Err(e) => d.spec_get("Length"@) is None && e == Error::DictKeyNotFound(
                        "Length",
                    ),
                },
                _ => r matches Err(e) && e == (Error::ObjectTypeMissMatch {
                    required_type: ObjectType::Dict,
                    byte_offset: obj.offset(),
                }),
            },
    {
        match obj {
            Object::Dict(dict) => {
                if dict.get("Length").is_none() {
                    return Err(Error::DictKeyNotFound("Length"));
                }
                Ok(Self { dict, byte_offset })
            },
            _ => Err(PdfDict::type_missmatch_error(obj.byte_offset())),
        }
    }

    /// The raw bytes of the stream: `Length` bytes from the stream's offset;
    /// a `Length` that is a reference is resolved first and must give an
    /// integer. A source that ends before the last byte is an error.
    pub fn get_stream(&self, source: &[u8], xref: &cross_reference::XRef) -> (r: Result<Vec<u8>, Error>)
        requires
            xref.wf(),
        ensures
            r matches Ok(b) ==> b@ == source@.subrange(
                self.byte_offset as int,
                self.byte_offset + b@.len(),
            ),
            self.dict.spec_get("Length"@) matches Some(Object::Integer(i)) ==> match r {
                Ok(b) => b@.len() == i.payload,
                Err(e) => (i.payload < 0 && e == Error::InvalidStreamLength) || (i.payload >= 0
                    && self.byte_offset + i.payload > source@.len() && e == (Error::ShortRead {
                    byte_offset: self.byte_offset,
                })),
            },
            self.dict.spec_get("Length"@) matches Some(Object::IndirectRef(x)) ==> (r matches Ok(b)
                ==> integer_object_at(source@, *xref, x, b@.len() as int)),
    {
        let length = self.get_length_recursive(source, xref)?;
        read_stream(source, self.byte_offset, length)
    }

    /// The value of `Length`: an integer, or a reference to an indirect object
    /// that holds one; it must not be negative.
    fn get_length_recursive(&self, source: &[u8], xref: &cross_reference::XRef) -> (r: Result<usize, Error>)
        requires
            xref.wf(),
        ensures
            self.dict.spec_get("Length"@) matches Some(Object::Integer(i)) ==> match r {
                Ok(v) => v == i.payload,
                Err(e) => i.payload < 0 && e == Error::InvalidStreamLength,
            },
            self.dict.spec_get("Length"@) matches Some(Object::IndirectRef(x)) ==> (r matches Ok(v)
                ==> integer_object_at(source@, *xref, x, v as int)),
    {
        let length = match self.dict.get("Length") {
            Some(Object::Integer(integer)) => integer.unpack(),
            Some(Object::IndirectRef(indirect_ref)) => {
                let resolved = indirect_ref.get_indirect_obj(source, xref)?;
                let indirect_obj = PdfIndirectObj::ensure(&resolved)?;
                let value = PdfInteger::ensure(indirect_obj.get_object())?.unpack();
                proof {
                    lemma_integer_object(source@, *xref, *indirect_ref, resolved, value as int);
                }
                value
            },
            Some(o) => return Err(PdfInteger::type_missmatch_error(o.byte_offset())),
            None => return Err(Error::DictKeyNotFound("Length")),
        };
        if length < 0 {
            return Err(Error::InvalidStreamLength);
        }
        Ok(length as usize)
    }

    /// The stream that `obj` is, or a type error at its offset.
    pub fn ensure_stream(obj: &Object) -> (r: Result<&Self, Error>)
        ensures
            match *obj {
                Object::StreamObj(x) => r == Ok::<&Self, Error>(&x),
                _ => r matches Err(e) && e == (Error::ObjectTypeMissMatch {
                    required_type: ObjectType::StreamObj,
                    byte_offset: obj.offset(),
                }),
            },
    {
        match obj {
            Object::StreamObj(stream_obj) => Ok(stream_obj),
            _ => Err(PdfStreamObj::type_missmatch_error(obj.byte_offset())),
        }
    }
}

/// The `length` bytes of `source` from `byte_offset` on; a source that ends
/// first is an error.
pub fn read_stream(source: &[u8], byte_offset: u64, length: usize) -> (r: Result<Vec<u8>, Error>)
    ensures
        byte_offset + length <= source@.len() ==> (r matches Ok(b) && b@ == source@.subrange(
            byte_offset as int,
            byte_offset + length,
        )),
        byte_offset + length > source@.len() ==> (r matches Err(e) && e == (Error::ShortRead {
            byte_offset,
        })),
{
    if (byte_offset as u128) + (length as u128) > (source.len() as u128) {
        return Err(Error::ShortRead { byte_offset });
    }
    let bytes = read_partially(source, byte_offset, length as u64);
    if bytes.len() != length {
        return Err(Error::ShortRead { byte_offset });
    }
    Ok(slice_to_vec(bytes))
}

impl PdfObject for PdfStreamObj {
    open spec fn spec_byte_offset(&self) -> u64 {
        self.byte_offset
    }

    open spec fn spec_required_type() -> ObjectType {
        ObjectType::StreamObj
    }

    fn byte_offset(&self) -> (r: u64) {
        self.byte_offset
    }

    fn type_missmatch_error(byte_offset: u64) -> (e: Error) {
        Error::ObjectTypeMissMatch { required_type: ObjectType::StreamObj, byte_offset }
    }
}

} // verus!
