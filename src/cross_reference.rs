//! The cross-reference table: object number to the file offset of the object.
use vstd::prelude::*;
use vstd::slice::slice_subrange;

use crate::lexer;
use crate::object;
use crate::object::{PdfIndirectRef, PdfInteger};
use crate::parser;
use crate::raw_byte;
use crate::util::{read_partially, window};

verus! {

/// Errors of the cross-reference table.
#[derive(Debug)]
pub enum Error {
    XrefNotFound,
    NotContain(usize),
    GenerationNumberMisMatch,
    SubsectionNotFound,
    NotSupporttedEntryType,
    /// The type byte of an entry is neither `n` nor `f`.
    InvalidEntryType(u8),
    /// The source ends inside the table.
    ShortRead { byte_offset: u64 },
    Parser(parser::error::Error),
    Object(object::Error),
}

/// The first ten bytes of an entry hold the integer `offset`, bytes 11 to
/// 15 the integer `generation`.
pub open spec fn entry_fields(entry: Seq<u8>, offset: int, generation: int) -> bool {
    &&& exists|k: int| lexer::integer_at(entry.subrange(0, 10), k, offset)
    &&& exists|k: int| lexer::integer_at(entry.subrange(11, 16), k, generation)
}

/// What an entry read at file offset `at` says: its offset field and its
/// generation field, each a non-negative integer parsed alone, and whether
/// its type byte is `n` (in use) rather than `f` (free); none for any other
/// type byte or a field that is no such integer.
pub open spec fn entry_value(entry: Seq<u8>, at: int) -> Option<(int, int, bool)> {
    match (
        parser::first_integer(entry.subrange(0, 10), at),
        parser::first_integer(entry.subrange(11, 16), at + 11),
    ) {
        (Some(n), Some(g)) => if n >= 0 && g >= 0 && (entry[17] == 110 || entry[17] == 102) {
            Some((n, g, entry[17] == 110))
        } else {
            None
        },
        _ => None,
    }
}

/// `xref`.
pub open spec fn xref_keyword() -> Seq<u8> {
    seq![120u8, 114, 101, 102]
}

/// What follows the line break after the first `xref` of `w`.
pub open spec fn after_xref_line(w: Seq<u8>) -> Option<Seq<u8>> {
    if raw_byte::occurs(w, xref_keyword()) {
        let i = choose|i: int| raw_byte::is_first_match(w, xref_keyword(), i);
        let a = w.subrange(i + 4, w.len() as int);
        if raw_byte::has_eol(a) {
            let e = choose|e: int| raw_byte::is_first_eol(a, e);
            Some(a.subrange(e + raw_byte::eol_width(a, e), a.len() as int))
        } else {
            None
        }
    } else {
        None
    }
}

/// The two numbers of the line that starts `b` (at file offset `at`): the
/// text before its first space and the text after it, each an integer
/// parsed alone, the first not negative and the second positive.
pub open spec fn subsection_numbers(b: Seq<u8>, at: int) -> Option<(int, int)> {
    if raw_byte::has_eol(b) {
        let e = choose|e: int| raw_byte::is_first_eol(b, e);
        let line = b.subrange(0, e);
        if raw_byte::occurs(line, seq![32u8]) {
            let sp = choose|sp: int| raw_byte::is_first_match(line, seq![32u8], sp);
            match (
                parser::first_integer(line.subrange(0, sp), at),
                parser::first_integer(line.subrange(sp + 1, line.len() as int), at + sp + 1),
            ) {
                (Some(f), Some(c)) => if f >= 0 && c > 0 {
                    Some((f, c))
                } else {
                    None
                },
                _ => None,
            }
        } else {
            None
        }
    } else {
        None
    }
}

/// The subsection a table header window `w` at file offset `off` gives:
/// its first object number, its entry count and the offset of its first
/// entry, right after the subsection line.
pub open spec fn xref_header(w: Seq<u8>, off: int) -> Option<(int, int, int)> {
    match after_xref_line(w) {
        Some(b) => match subsection_numbers(b, off + w.len() - b.len()) {
            Some((f, c)) => {
                let e = choose|e: int| raw_byte::is_first_eol(b, e);
                let actual = off + w.len() - (b.len() - (e + raw_byte::eol_width(b, e)));
                if f + c <= usize::MAX && actual + c * 20 <= u64::MAX {
                    Some((f, c, actual))
                } else {
                    None
                }
            },
            None => None,
        },
        None => None,
    }
}

/// One subsection of the table: entries for objects `from` to
/// `from + entry_num - 1`, the first at `actual_start_offset`, each 20 bytes.
#[derive(Debug, Clone, Copy, PartialEq, Eq)]
pub struct XRef {
    pub actual_start_offset: u64,
    pub from: usize,
    pub entry_num: usize,
}

/// Width of one entry in bytes.
pub const ENTRY_SIZE: u64 = 20;

/// Bytes of an entry that are read: offset, space, generation, space, type.
pub const ENTRY_READ_SIZE: u64 = 18;

/// Bytes that hold the `xref` line and the subsection line.
pub const HEADER_READ_SIZE: u64 = 30;

impl XRef {
    /// Every entry's offset fits in `u64`.
    pub open spec fn wf(&self) -> bool {
        &&& self.from + self.entry_num <= usize::MAX
        &&& self.actual_start_offset + self.entry_num * 20 <= u64::MAX
    }

    /// The subsection has an entry for `obj_num`.
    pub open spec fn spec_contains(&self, obj_num: int) -> bool {
        self.from <= obj_num < self.from + self.entry_num
    }

    /// The entry of object `obj_num` is in use, has generation `generation`
    /// and gives `offset` as the object's file offset.
    pub open spec fn entry_says(&self, source: Seq<u8>, obj_num: int, generation: int, offset: int) -> bool {
        let at = self.spec_entry_offset(obj_num);
        let entry = window(source, at, 18);
        &&& self.spec_contains(obj_num)
        &&& entry.len() == 18
        &&& entry_value(entry, at) == Some((offset, generation, true))
    }

    /// File offset of the entry for `obj_num`.
    pub open spec fn spec_entry_offset(&self, obj_num: int) -> int {
        self.actual_start_offset + (obj_num - self.from) * 20
    }

    /// Reads the table header at `xref_start_offset`: the `xref` line, then
    /// the subsection line `from entry_num`; entries start after that line.
    pub fn new(source: &[u8], xref_start_offset: u64) -> (r: Result<Self, Error>)
        ensures
            r matches Ok(x) ==> x.wf() && x.entry_num > 0 && xref_start_offset
                <= x.actual_start_offset <= xref_start_offset + HEADER_READ_SIZE,
            match xref_header(window(source@, xref_start_offset as int, 30), xref_start_offset as int) {
                Some((f, c, a)) => r matches Ok(x) && x.from == f && x.entry_num == c
                    && x.actual_start_offset == a,
                None => r is Err,
            },
    {
        let buffer = read_partially(source, xref_start_offset, HEADER_READ_SIZE);
        let n = buffer.len();
        let rest = Self::extract_after_xref_line(buffer)?;
        let xref_line_length = n - rest.len();
        let (from, entry_num) = Self::parse_subsection_line(
            rest,
            xref_start_offset + xref_line_length as u64,
        )?;
        let line_rest = rest;
        let rest = match raw_byte::extract_after_eol(rest) {
            Some(b) => b,
            None => return Err(Error::SubsectionNotFound),
        };
        proof {
            let e = choose|e: int|
                raw_byte::is_first_eol(line_rest@, e) && rest@ == line_rest@.subrange(
                    e + raw_byte::eol_width(line_rest@, e),
                    line_rest@.len() as int,
                );
            let e2 = choose|e: int| raw_byte::is_first_eol(line_rest@, e);
            raw_byte::lemma_first_eol_unique(line_rest@, e, e2);
        }
        let actual_start_offset = xref_start_offset + (n - rest.len()) as u64;
        if (from as u128) + (entry_num as u128) > usize::MAX as u128 || (actual_start_offset as u128)
            + (entry_num as u128) * 20 > u64::MAX as u128 {
            return Err(Error::SubsectionNotFound);
        }
        Ok(XRef { actual_start_offset, from, entry_num })
    }

    /// What follows the line of the `xref` keyword.
    fn extract_after_xref_line(buffer: &[u8]) -> (r: Result<&[u8], Error>)
        ensures
            r matches Ok(b) ==> b@.len() <= buffer@.len() && b@ == buffer@.subrange(
                buffer@.len() - b@.len(),
                buffer@.len() as int,
            ),
            match after_xref_line(buffer@) {
                Some(b) => r matches Ok(x) && x@ == b,
                None => r is Err,
            },
    {
        let keyword: &[u8] = &[120u8, 114, 101, 102];
        assert(keyword@ =~= xref_keyword());
        let after = match raw_byte::extract_after(buffer, keyword) {
            Some(b) => b,
            None => return Err(Error::XrefNotFound),
        };
        proof {
            let i = choose|i: int|
                raw_byte::is_first_match(buffer@, xref_keyword(), i) && after@ == buffer@.subrange(
                    i + 4,
                    buffer@.len() as int,
                );
            let i2 = choose|i: int| raw_byte::is_first_match(buffer@, xref_keyword(), i);
            raw_byte::lemma_first_match_unique(buffer@, xref_keyword(), i, i2);
        }
        match raw_byte::extract_after_eol(after) {
            Some(b) => {
                proof {
                    let e = choose|e: int|
                        raw_byte::is_first_eol(after@, e) && b@ == after@.subrange(
                            e + raw_byte::eol_width(after@, e),
                            after@.len() as int,
                        );
                    let e2 = choose|e: int| raw_byte::is_first_eol(after@, e);
                    raw_byte::lemma_first_eol_unique(after@, e, e2);
                }
                assert(b@ =~= buffer@.subrange(buffer@.len() - b@.len(), buffer@.len() as int));
                Ok(b)
            },
            None => Err(Error::XrefNotFound),
        }
    }

    /// The two numbers of the subsection line: first object number and count.
    fn parse_subsection_line(buffer: &[u8], byte_offset: u64) -> (r: Result<(usize, usize), Error>)
        requires
            byte_offset + buffer@.len() <= u64::MAX,
        ensures
            r matches Ok((from, num)) ==> from <= isize::MAX && 0 < num <= isize::MAX,
            match subsection_numbers(buffer@, byte_offset as int) {
                Some((f, c)) => r matches Ok((a, b)) && a == f && b == c,
                None => r is Err,
            },
    {
        let subsection_line = match raw_byte::cut_after_eol(buffer) {
            Some(buf) => buf,
            None => return Err(Error::SubsectionNotFound),
        };
        proof {
            let e = choose|e: int| raw_byte::is_first_eol(buffer@, e) && subsection_line@ == buffer@.subrange(0, e);
            let e2 = choose|e: int| raw_byte::is_first_eol(buffer@, e);
            raw_byte::lemma_first_eol_unique(buffer@, e, e2);
        }
        let from = Self::parse_subsection_from(subsection_line, byte_offset)?;
        let object_num = Self::parse_subsection_object_num(subsection_line, byte_offset)?;
        Ok((from, object_num))
    }

    /// A non-negative integer parsed from `buffer` alone.
    fn parse_integer_field(buffer: &[u8], byte_offset: u64) -> (r: Result<isize, Error>)
        requires
            byte_offset + buffer@.len() <= u64::MAX,
        ensures
            r matches Ok(v) ==> v >= 0 && exists|k: int| lexer::integer_at(buffer@, k, v as int),
            match parser::first_integer(buffer@, byte_offset as int) {
                Some(v) => if v >= 0 {
                    r matches Ok(x) && x == v
                } else {
                    r is Err
                },
                None => r is Err,
            },
    {
        if buffer.len() == 0 {
            proof {
                assert(lexer::lexes(buffer@, byte_offset as int) == Ok::<
                    (Seq<(lexer::TokenModel, int)>, bool),
                    (lexer::error::ErrorKind, int),
                >((Seq::empty(), false)));
            }
            return Err(Error::SubsectionNotFound);
        }
        let mut p = match parser::Parser::new(buffer, byte_offset) {
            Ok(p) => p,
            Err(e) => return Err(Error::Parser(e)),
        };
        proof {
            if p.token_vec@.len() > 0 {
                assert(lexer::tokens_view(p.token_vec@)[0] == lexer::token_view(p.token_vec@[0]));
            }
        }
        let obj = match p.parse() {
            Ok(o) => o,
            Err(e) => return Err(Error::Parser(e)),
        };
        let integer = match PdfInteger::ensure(&obj) {
            Ok(i) => i,
            Err(e) => return Err(Error::Object(e)),
        };
        if let Err(e) = integer.assert_not_negative() {
            return Err(Error::Object(e));
        }
        proof {
            let t = p.token_vec@[0];
            assert(lexer::token_sound(buffer@, byte_offset, t));
            assert(lexer::integer_at(buffer@, t.byte_offset - byte_offset, integer.payload as int));
        }
        Ok(integer.unpack())
    }

    /// The first object number: the line up to its first space.
    fn parse_subsection_from(subsection_line: &[u8], subsection_start_byte_offset: u64) -> (r: Result<usize, Error>)
        requires
            subsection_start_byte_offset + subsection_line@.len() <= u64::MAX,
        ensures
            r matches Ok(v) ==> v <= isize::MAX,
            if raw_byte::occurs(subsection_line@, seq![32u8]) {
                let sp = choose|sp: int| raw_byte::is_first_match(subsection_line@, seq![32u8], sp);
                match parser::first_integer(
                    subsection_line@.subrange(0, sp),
                    subsection_start_byte_offset as int,
                ) {
                    Some(v) => if v >= 0 {
                        r matches Ok(x) && x == v
                    } else {
                        r is Err
                    },
                    None => r is Err,
                }
            } else {
                r is Err
            },
    {
        let space: &[u8] = &[32u8];
        assert(space@ =~= seq![32u8]);
        let from_buffer = match raw_byte::cut_from(subsection_line, space) {
            Some(buf) => buf,
            None => return Err(Error::SubsectionNotFound),
        };
        proof {
            let i = choose|i: int|
                raw_byte::is_first_match(subsection_line@, seq![32u8], i) && from_buffer@
                    == subsection_line@.subrange(0, i);
            let i2 = choose|i: int| raw_byte::is_first_match(subsection_line@, seq![32u8], i);
            raw_byte::lemma_first_match_unique(subsection_line@, seq![32u8], i, i2);
        }
        let v = Self::parse_integer_field(from_buffer, subsection_start_byte_offset)?;
        Ok(v as usize)
    }

    /// The count of entries: the line after its first space; must be positive.
    fn parse_subsection_object_num(subsection_line: &[u8], subsection_start_byte_offset: u64) -> (r: Result<usize, Error>)
        requires
            subsection_start_byte_offset + subsection_line@.len() <= u64::MAX,
        ensures
            r matches Ok(v) ==> 0 < v <= isize::MAX,
            if raw_byte::occurs(subsection_line@, seq![32u8]) {
                let sp = choose|sp: int| raw_byte::is_first_match(subsection_line@, seq![32u8], sp);
                match parser::first_integer(
                    subsection_line@.subrange(sp + 1, subsection_line@.len() as int),
                    subsection_start_byte_offset + sp + 1,
                ) {
                    Some(v) => if v > 0 {
                        r matches Ok(x) && x == v
                    } else {
                        r is Err
                    },
                    None => r is Err,
                }
            } else {
                r is Err
            },
    {
        let space: &[u8] = &[32u8];
        assert(space@ =~= seq![32u8]);
        let object_num_buffer = match raw_byte::extract_after(subsection_line, space) {
            Some(buf) => buf,
            None => return Err(Error::SubsectionNotFound),
        };
        proof {
            let i = choose|i: int|
                raw_byte::is_first_match(subsection_line@, seq![32u8], i) && object_num_buffer@
                    == subsection_line@.subrange(i + 1, subsection_line@.len() as int);
            let i2 = choose|i: int| raw_byte::is_first_match(subsection_line@, seq![32u8], i);
            raw_byte::lemma_first_match_unique(subsection_line@, seq![32u8], i, i2);
        }
        let object_num_byte_offset = subsection_start_byte_offset + (subsection_line.len()
            - object_num_buffer.len()) as u64;
        let v = Self::parse_integer_field(object_num_buffer, object_num_byte_offset)?;
        if v == 0 {
            return Err(Error::SubsectionNotFound);
        }
        Ok(v as usize)
    }

    /// File offset of the object `indirect_ref` names, read from its entry.
    /// The object number must lie in the subsection, the entry must be in use
    /// (`n`) and its generation must be the reference's.
    pub fn get_byte_offset(&self, source: &[u8], indirect_ref: &PdfIndirectRef) -> (r: Result<u64, Error>)
        requires
            self.wf(),
        ensures
            !self.spec_contains(indirect_ref.object_number as int) ==> (r matches Err(e)
                && e == Error::NotContain(indirect_ref.object_number)),
            self.spec_contains(indirect_ref.object_number as int) && source@.len()
                < self.spec_entry_offset(indirect_ref.object_number as int) + 18 ==> r is Err,
            r matches Ok(v) ==> self.entry_says(
                source@,
                indirect_ref.object_number as int,
                indirect_ref.generation_number as int,
                v as int,
            ),
            self.spec_contains(indirect_ref.object_number as int) ==> {
                let at = self.spec_entry_offset(indirect_ref.object_number as int);
                let entry = window(source@, at, 18);
                if entry.len() < 18 {
                    r matches Err(Error::ShortRead { .. })
                } else {
                    match entry_value(entry, at) {
                        None => r is Err,
                        Some((offset, generation, in_use)) => if !in_use {
                            r matches Err(Error::NotSupporttedEntryType)
                        } else if generation != indirect_ref.generation_number {
                            r matches Err(Error::GenerationNumberMisMatch)
                        } else {
                            r matches Ok(v) && v == offset
                        },
                    }
                }
            },
    {
        let (obj_num, gen_num) = indirect_ref.unpack();
        if !self.contains(obj_num) {
            return Err(Error::NotContain(obj_num));
        }
        let entry_byte_offset = self.entry_start_byte_offset(obj_num);
        let entry_buffer = read_partially(source, entry_byte_offset, ENTRY_READ_SIZE);
        if entry_buffer.len() != 18 {
            return Err(Error::ShortRead { byte_offset: entry_byte_offset });
        }
        let (offset, gen, is_n) = Self::parse_entry(entry_buffer, entry_byte_offset)?;
        if !is_n {
            return Err(Error::NotSupporttedEntryType);
        }
        if gen != gen_num {
            return Err(Error::GenerationNumberMisMatch);
        }
        Ok(offset)
    }

    /// Whether the subsection has an entry for `obj_num`.
    pub fn contains(&self, obj_num: usize) -> (r: bool)
        requires
            self.wf(),
        ensures
            r == self.spec_contains(obj_num as int),
    {
        self.from <= obj_num && obj_num < self.from + self.entry_num
    }

    /// File offset of the entry for `obj_num`.
    pub fn entry_start_byte_offset(&self, obj_num: usize) -> (r: u64)
        requires
            self.wf(),
            self.spec_contains(obj_num as int),
        ensures
            r == self.spec_entry_offset(obj_num as int),
    {
        assert((obj_num - self.from) * 20 <= self.entry_num * 20) by (nonlinear_arith)
            requires
                obj_num - self.from <= self.entry_num,
        ;
        self.actual_start_offset + ((obj_num - self.from) as u64) * ENTRY_SIZE
    }

    /// The fields of one entry: offset (10 digits), generation (5 digits) and
    /// whether the type byte is `n` (in use) rather than `f` (free).
    fn parse_entry(buffer: &[u8], entry_start_byte_offset: u64) -> (r: Result<(u64, usize, bool), Error>)
        requires
            buffer@.len() == 18,
            entry_start_byte_offset + 18 <= u64::MAX,
        ensures
            r matches Ok((n, g, is_n)) ==> (is_n <==> buffer@[17] == 110) && (buffer@[17] == 110
                || buffer@[17] == 102) && entry_fields(buffer@, n as int, g as int),
            buffer@[17] != 110 && buffer@[17] != 102 ==> r is Err,
            match entry_value(buffer@, entry_start_byte_offset as int) {
                Some((n, g, is_n)) => r matches Ok((a, b, c)) && a == n && b == g && c == is_n,
                None => r is Err,
            },
    {
        let n_buf = slice_subrange(buffer, 0, 10);
        let g_buf = slice_subrange(buffer, 11, 16);
        let t_byte = buffer[17];
        let n = Self::parse_integer_field(n_buf, entry_start_byte_offset)?;
        let g = Self::parse_integer_field(g_buf, entry_start_byte_offset + 11)?;
        let is_n = if t_byte == 110 {
            true
        } else if t_byte == 102 {
            false
        } else {
            return Err(Error::InvalidEntryType(t_byte));
        };
        Ok((n as u64, g as usize, is_n))
    }
}

/// The entry for an object number of the subsection lies
/// `(obj_num - from) * 20` bytes after the first entry.
pub proof fn lemma_entry_location(x: XRef, obj_num: int)
    requires
        x.wf(),
        x.from <= obj_num < x.from + x.entry_num,
    ensures
        x.spec_contains(obj_num),
        x.spec_entry_offset(obj_num) == x.actual_start_offset + (obj_num - x.from) * 20,
        x.spec_entry_offset(obj_num) + 20 <= u64::MAX,
{
    assert((obj_num - x.from + 1) * 20 <= x.entry_num * 20) by (nonlinear_arith)
        requires
            obj_num - x.from + 1 <= x.entry_num,
    ;
}

} // verus!
