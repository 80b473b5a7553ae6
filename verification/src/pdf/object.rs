//! Indirect objects and the streams that belong to them.

use vstd::prelude::*;

use crate::pdf::error::{yields, Failure, PdfError};
use crate::pdf::lexer;
use crate::pdf::lexer::{is_keyword, Lexeme, Place, Token, Tokenizer};
use crate::pdf::number;
use crate::pdf::number::{bounded_pdf_integer, PdfNumber};
use crate::pdf::value;
use crate::pdf::value::{
    dictionary, is_name, lookup, parse_value, Datum, PdfRef, PdfValue,
};
use crate::table;
use crate::table::Table;

verus! {

/// The most bytes that a stream may hold, encoded or decoded.
pub const MAX_STREAM_BYTES: usize = 67_108_864;

/// The most rows of an `xref` subsection in which a stream length is sought.
pub const MAX_SUBSECTION_ROWS: usize = 1_000_000;

/// An object with the bytes of its stream, if it has one.
#[derive(Debug)]
pub struct PdfObject {
    pub value: PdfValue,
    pub stream: Option<Vec<u8>>,
}

/// What contracts say of a `PdfObject`.
pub struct Thing {
    pub value: Datum,
    pub stream: Option<Seq<u8>>,
}

impl View for PdfObject {
    type V = Thing;

    open spec fn view(&self) -> Thing {
        Thing {
            value: self.value@,
            stream: match self.stream {
                Some(bytes) => Some(bytes@),
                None => None,
            },
        }
    }
}

/// Where the cross-reference data of an object says that it is.
#[derive(Debug, Clone, Copy, PartialEq, Eq, Structural)]
pub enum XrefEntry {
    Free,
    Direct { offset: usize, generation: u16 },
    Compressed { stream_number: u32, index: usize },
}

impl View for XrefEntry {
    type V = XrefEntry;

    open spec fn view(&self) -> XrefEntry {
        *self
    }
}

/// Objects by number.
pub type Objects = Table<u32, PdfObject>;

/// Cross-reference entries by object number.
pub type Entries = Table<u32, XrefEntry>;

/// Every object's value is well formed.
pub open spec fn objects_wf(objects: Objects) -> bool {
    objects.wf() && forall|i: int|
        0 <= i < objects.rows@.len() ==> value::value_wf((#[trigger] objects.rows@[i]).1.value)
}

/// The object of that number.
pub open spec fn object_in(objects: Seq<(u32, Thing)>, number: u32) -> Option<Thing> {
    table::find::<u32, Thing>(objects, number)
}

/// The entry of that object number.
pub open spec fn entry_of(entries: Seq<(u32, XrefEntry)>, number: u32) -> Option<XrefEntry> {
    table::find::<u32, XrefEntry>(entries, number)
}

/// The object of that number.
pub fn get_object<'a>(objects: &'a Objects, number: u32) -> (r: Option<&'a PdfObject>)
    requires
        objects_wf(*objects),
    ensures
        match r {
            Some(object) => object_in(objects@, number) == Some(object@) && value::value_wf(
                object.value,
            ),
            None => object_in(objects@, number) is None,
        },
{
    objects.get(&number)
}

/// A stream length: a whole number within the limit.
pub open spec fn length_of(number: PdfNumber) -> Result<usize, Failure> {
    match number.whole_spec() {
        Some(length) => if length > MAX_STREAM_BYTES {
            Err(Failure::StreamLimitExceeded)
        } else {
            Ok(length as usize)
        },
        None => Err(Failure::CorruptedPdf),
    }
}

/// A stream length from the number that a file gives for it.
pub fn bounded_stream_length(length: PdfNumber) -> (r: Result<usize, PdfError>)
    ensures
        yields(r, length_of(length)),
{
    match length.whole_part() {
        Some(length) => {
            if length > MAX_STREAM_BYTES as u64 {
                Err(PdfError::StreamLimitExceeded)
            } else {
                Ok(length as usize)
            }
        },
        None => Err(PdfError::CorruptedPdf),
    }
}

pub open spec fn start_of(b: Seq<u8>) -> Place {
    Place { pos: 0, ahead: None }
}

/// The first five tokens from `place` on, and the place behind them.
pub open spec fn five(b: Seq<u8>, place: Place) -> (
    Option<Lexeme>,
    Option<Lexeme>,
    Option<Lexeme>,
    Option<Lexeme>,
    Option<Lexeme>,
) {
    let (t1, p1) = lexer::step(b, place);
    let (t2, p2) = lexer::step(b, p1);
    let (t3, p3) = lexer::step(b, p2);
    let (t4, p4) = lexer::step(b, p3);
    let (t5, p5) = lexer::step(b, p4);
    (t1, t2, t3, t4, t5)
}

/// The number that the object at `offset` is, which must be the one that the
/// reference names.
pub open spec fn length_object(b: Seq<u8>, offset: int, reference: PdfRef) -> Result<
    usize,
    Failure,
> {
    if offset > b.len() {
        Err(Failure::CorruptedPdf)
    } else {
        let s = b.subrange(offset, b.len() as int);
        match five(s, start_of(s)) {
            (
                Some(Lexeme::Number(object)),
                Some(Lexeme::Number(generation)),
                Some(Lexeme::Keyword(obj)),
                Some(Lexeme::Number(length)),
                Some(Lexeme::Keyword(endobj)),
            ) => if object.bounded_spec(u32::MAX as int) == Some(reference.object as usize)
                && generation.bounded_spec(u16::MAX as int) == Some(reference.generation as usize)
                && obj == "obj"@ && endobj == "endobj"@ {
                length_of(length)
            } else {
                Err(Failure::CorruptedPdf)
            },
            _ => Err(Failure::CorruptedPdf),
        }
    }
}

/// Reads the number that the object at `offset` is.
pub fn read_length_object(bytes: &[u8], offset: usize, reference: PdfRef) -> (r: Result<
    usize,
    PdfError,
>)
    ensures
        yields(r, length_object(bytes@, offset as int, reference)),
{
    if offset > bytes.len() {
        return Err(PdfError::CorruptedPdf);
    }
    let mut object = Tokenizer::new(vstd::slice::slice_subrange(bytes, offset, bytes.len()));
    let first = object.next();
    let second = object.next();
    let third = object.next();
    let fourth = object.next();
    let fifth = object.next();
    if let (Some(Token::Number(number)), Some(Token::Number(generation))) = (first, second) {
        if bounded_pdf_integer(number, u32::MAX as usize) != Some(reference.object as usize)
            || bounded_pdf_integer(generation, u16::MAX as usize) != Some(
            reference.generation as usize,
        ) || !is_keyword(&third, "obj") {
            return Err(PdfError::CorruptedPdf);
        }
        if let Some(Token::Number(length)) = fourth {
            if !is_keyword(&fifth, "endobj") {
                return Err(PdfError::CorruptedPdf);
            }
            return bounded_stream_length(length);
        }
    }
    Err(PdfError::CorruptedPdf)
}

/// The length that the cross-reference entries lead to.
pub open spec fn indexed_length(
    b: Seq<u8>,
    reference: PdfRef,
    entries: Seq<(u32, XrefEntry)>,
) -> Result<usize, Failure> {
    match entry_of(entries, reference.object) {
        Some(XrefEntry::Direct { offset, generation }) => if generation == reference.generation {
            length_object(b, offset as int, reference)
        } else {
            Err(Failure::CorruptedPdf)
        },
        Some(XrefEntry::Compressed { .. }) => Err(Failure::UnsupportedStreamLength),
        _ => Err(Failure::CorruptedPdf),
    }
}

fn indexed_stream_length(bytes: &[u8], reference: PdfRef, entries: &Entries) -> (r: Result<
    usize,
    PdfError,
>)
    requires
        entries.wf(),
    ensures
        yields(r, indexed_length(bytes@, reference, entries@)),
{
    match entries.get(&reference.object) {
        Some(XrefEntry::Direct { offset, generation }) => {
            if *generation == reference.generation {
                read_length_object(bytes, *offset, reference)
            } else {
                Err(PdfError::CorruptedPdf)
            }
        },
        Some(XrefEntry::Compressed { .. }) => Err(PdfError::UnsupportedStreamLength),
        _ => Err(PdfError::CorruptedPdf),
    }
}

/// What the subsections of a table from `place` on lead to.
pub open spec fn length_in_sections(
    b: Seq<u8>,
    t: Seq<u8>,
    place: Place,
    reference: PdfRef,
) -> Result<usize, Failure>
    decreases lexer::left(t, place), 0int,
{
    let (first, p1) = lexer::step(t, place);
    let (count, p2) = lexer::step(t, p1);
    match first {
        Some(Lexeme::Keyword(word)) => if word == "trailer"@ {
            Err(Failure::UnsupportedStreamLength)
        } else {
            Err(Failure::CorruptedPdf)
        },
        Some(Lexeme::Number(first)) => match (first.bounded_spec(u32::MAX as int), count) {
            (Some(first), Some(Lexeme::Number(count))) => match count.bounded_spec(
                MAX_SUBSECTION_ROWS as int,
            ) {
                Some(count) => if value::shrinks(t, place, p2) {
                    length_in_rows(b, t, p2, reference, first as int, count as int)
                } else {
                    Err(Failure::CorruptedPdf)
                },
                None => Err(Failure::CorruptedPdf),
            },
            _ => Err(Failure::CorruptedPdf),
        },
        _ => Err(Failure::CorruptedPdf),
    }
}

/// What the rows of a subsection lead to: `count` of them are left, and the
/// next one is for object `number`.
pub open spec fn length_in_rows(
    b: Seq<u8>,
    t: Seq<u8>,
    place: Place,
    reference: PdfRef,
    number: int,
    count: int,
) -> Result<usize, Failure>
    decreases lexer::left(t, place), 1int,
{
    if count <= 0 {
        length_in_sections(b, t, place, reference)
    } else {
        let (offset, p1) = lexer::step(t, place);
        let (generation, p2) = lexer::step(t, p1);
        let (status, p3) = lexer::step(t, p2);
        match (offset, generation, status) {
            (
                Some(Lexeme::Number(offset)),
                Some(Lexeme::Number(generation)),
                Some(Lexeme::Keyword(status)),
            ) => match (
                offset.bounded_spec(b.len() as int),
                generation.bounded_spec(u16::MAX as int),
            ) {
                (Some(offset), Some(generation)) => if status != "n"@ && status != "f"@ {
                    Err(Failure::CorruptedPdf)
                } else if number == reference.object && generation == reference.generation {
                    if status == "f"@ {
                        Err(Failure::CorruptedPdf)
                    } else {
                        length_object(b, offset as int, reference)
                    }
                } else if value::shrinks(t, place, p3) {
                    length_in_rows(b, t, p3, reference, number + 1, count - 1)
                } else {
                    Err(Failure::CorruptedPdf)
                },
                _ => Err(Failure::CorruptedPdf),
            },
            _ => Err(Failure::CorruptedPdf),
        }
    }
}

/// The length that the table at `xref_offset` leads to.
pub open spec fn referenced_length(
    b: Seq<u8>,
    reference: PdfRef,
    xref_offset: Option<usize>,
) -> Result<usize, Failure> {
    match xref_offset {
        None => Err(Failure::UnsupportedStreamLength),
        Some(offset) => if offset > b.len() {
            Err(Failure::CorruptedPdf)
        } else {
            let t = b.subrange(offset as int, b.len() as int);
            let (word, after) = lexer::step(t, start_of(t));
            if word == Some(Lexeme::Keyword("xref"@)) {
                length_in_sections(b, t, after, reference)
            } else {
                Err(Failure::CorruptedPdf)
            }
        },
    }
}

fn referenced_stream_length(bytes: &[u8], reference: PdfRef, xref_offset: Option<usize>) -> (r:
    Result<usize, PdfError>)
    ensures
        yields(r, referenced_length(bytes@, reference, xref_offset)),
{
    let offset: usize = match xref_offset {
        None => {
            return Err(PdfError::UnsupportedStreamLength);
        },
        Some(offset) => offset,
    };
    if offset > bytes.len() {
        return Err(PdfError::CorruptedPdf);
    }
    let mut table = Tokenizer::new(vstd::slice::slice_subrange(bytes, offset, bytes.len()));
    let ghost t = table.bytes@;
    let word = table.next();
    if !is_keyword(&word, "xref") {
        return Err(PdfError::CorruptedPdf);
    }
    let ghost goal = length_in_sections(bytes@, t, table.place(), reference);
    let mut number: u64 = 0;
    let mut count: usize = 0;
    loop
        invariant
            table.wf(),
            table.bytes@ == t,
            number + count <= u32::MAX + MAX_SUBSECTION_ROWS,
            goal == referenced_length(bytes@, reference, xref_offset),
            length_in_rows(
                bytes@,
                t,
                table.place(),
                reference,
                number as int,
                count as int,
            ) == goal,
        decreases lexer::left(t, table.place()),
    {
        let ghost before = table.place();
        if count == 0 {
            assert(goal == length_in_sections(bytes@, t, before, reference));
            let first = table.next();
            if is_keyword(&first, "trailer") {
                return Err(PdfError::UnsupportedStreamLength);
            }
            let second = table.next();
            if let (Some(Token::Number(first)), Some(Token::Number(rows))) = (first, second) {
                if let (Some(first), Some(rows)) = (
                    bounded_pdf_integer(first, u32::MAX as usize),
                    bounded_pdf_integer(rows, MAX_SUBSECTION_ROWS),
                ) {
                    number = first as u64;
                    count = rows;
                    continue;
                }
            }
            return Err(PdfError::CorruptedPdf);
        }
        let first = table.next();
        let second = table.next();
        let third = table.next();
        if let (
            Some(Token::Number(offset)),
            Some(Token::Number(generation)),
            Some(Token::Keyword(_)),
        ) = (&first, &second, &third) {
            if let (Some(offset), Some(generation)) = (
                bounded_pdf_integer(*offset, bytes.len()),
                bounded_pdf_integer(*generation, u16::MAX as usize),
            ) {
                let free: bool = is_keyword(&third, "f");
                if !is_keyword(&third, "n") && !free {
                    return Err(PdfError::CorruptedPdf);
                }
                if number == reference.object as u64 && generation
                    == reference.generation as usize {
                    if free {
                        return Err(PdfError::CorruptedPdf);
                    }
                    return read_length_object(bytes, offset, reference);
                }
                number += 1;
                count -= 1;
                continue;
            }
        }
        return Err(PdfError::CorruptedPdf);
    }
}

/// Where the bytes of a stream begin whose keyword ends at `pos`.
pub open spec fn stream_start(b: Seq<u8>, pos: int) -> int {
    if lexer::at(b, pos) == Some(13u8) {
        if lexer::at(b, pos + 1) == Some(10u8) {
            pos + 2
        } else {
            pos + 1
        }
    } else if lexer::at(b, pos) == Some(10u8) {
        pos + 1
    } else {
        pos
    }
}

/// The length of the stream of an object with that value.
pub open spec fn stream_length(
    b: Seq<u8>,
    value: Datum,
    xref_offset: Option<usize>,
    entries: Option<Seq<(u32, XrefEntry)>>,
) -> Result<usize, Failure> {
    match value::dict_in(Some(value)) {
        None => Err(Failure::CorruptedPdf),
        Some(dict) => match value::entry(dict, "Length"@) {
            Some(Datum::Ref(reference)) => match entries {
                Some(entries) => indexed_length(b, reference, entries),
                None => referenced_length(b, reference, xref_offset),
            },
            Some(Datum::Number(number)) => length_of(number),
            _ => Err(Failure::CorruptedPdf),
        },
    }
}

/// The bytes of the stream whose keyword ends at `pos`, and the place behind
/// the keyword that closes it.
pub open spec fn stream_at(
    b: Seq<u8>,
    pos: int,
    value: Datum,
    xref_offset: Option<usize>,
    entries: Option<Seq<(u32, XrefEntry)>>,
) -> Result<(Seq<u8>, Place), Failure> {
    let start = stream_start(b, pos);
    match stream_length(b, value, xref_offset, entries) {
        Err(failure) => Err(failure),
        Ok(length) => if start + length > b.len() {
            Err(Failure::CorruptedPdf)
        } else {
            let (word, after) = lexer::step(b, Place { pos: start + length, ahead: None });
            if word == Some(Lexeme::Keyword("endstream"@)) {
                Ok((b.subrange(start, start + length), after))
            } else {
                Err(Failure::CorruptedPdf)
            }
        },
    }
}

pub open spec fn entries_view(entries: Option<&Entries>) -> Option<Seq<(u32, XrefEntry)>> {
    match entries {
        Some(entries) => Some(entries@),
        None => None,
    }
}

/// Reads the stream whose keyword was the last token taken.
pub fn read_stream(
    tokenizer: &mut Tokenizer<'_>,
    value: &PdfValue,
    xref_offset: Option<usize>,
    entries: Option<&Entries>,
) -> (r: Result<Vec<u8>, PdfError>)
    requires
        old(tokenizer).wf(),
        value::value_wf(*value),
        entries is Some ==> entries->0.wf(),
    ensures
        final(tokenizer).wf(),
        final(tokenizer).bytes@ == old(tokenizer).bytes@,
        match stream_at(
            old(tokenizer).bytes@,
            old(tokenizer).position as int,
            value@,
            xref_offset,
            entries_view(entries),
        ) {
            Ok((stream, place)) => r is Ok && r->Ok_0@ == stream && final(tokenizer).place()
                == place && final(tokenizer).position > old(tokenizer).position,
            Err(failure) => r is Err && r->Err_0@ == failure,
        },
{
    let bytes = tokenizer.bytes;
    let mut start: usize = tokenizer.raw_position();
    if start < bytes.len() && bytes[start] == 13 {
        start += 1;
        if start < bytes.len() && bytes[start] == 10 {
            start += 1;
        }
    } else if start < bytes.len() && bytes[start] == 10 {
        start += 1;
    }
    let length = match dictionary(value) {
        None => {
            return Err(PdfError::CorruptedPdf);
        },
        Some(dict) => match lookup(dict, "Length") {
            Some(PdfValue::Ref(reference)) => match entries {
                Some(entries) => indexed_stream_length(bytes, *reference, entries),
                None => referenced_stream_length(bytes, *reference, xref_offset),
            },
            Some(PdfValue::Number(length)) => bounded_stream_length(*length),
            _ => Err(PdfError::CorruptedPdf),
        },
    };
    match length {
        Err(error) => Err(error),
        Ok(length) => {
            if length > bytes.len() - start {
                return Err(PdfError::CorruptedPdf);
            }
            let stream = vstd::slice::slice_to_vec(
                vstd::slice::slice_subrange(bytes, start, start + length),
            );
            tokenizer.set_position(start + length);
            let word = tokenizer.next();
            if !is_keyword(&word, "endstream") {
                return Err(PdfError::CorruptedPdf);
            }
            Ok(stream)
        },
    }
}

/// The stream that follows a value, if the next token is its keyword, and the
/// place behind it.
pub open spec fn stream_after(
    b: Seq<u8>,
    place: Place,
    value: Datum,
    xref_offset: Option<usize>,
    entries: Option<Seq<(u32, XrefEntry)>>,
) -> Result<(Option<Seq<u8>>, Place), Failure> {
    let ahead = lexer::look(b, place);
    if ahead.ahead == Some(Lexeme::Keyword("stream"@)) {
        match stream_at(b, ahead.pos, value, xref_offset, entries) {
            Err(failure) => Err(failure),
            Ok((stream, after)) => Ok((Some(stream), after)),
        }
    } else {
        Ok((None, ahead))
    }
}

pub open spec fn stream_view(stream: Option<Vec<u8>>) -> Option<Seq<u8>> {
    match stream {
        Some(bytes) => Some(bytes@),
        None => None,
    }
}

/// Reads the stream that follows a value, if there is one.
pub fn read_optional_stream(
    tokenizer: &mut Tokenizer<'_>,
    value: &PdfValue,
    xref_offset: Option<usize>,
    entries: Option<&Entries>,
) -> (r: Result<Option<Vec<u8>>, PdfError>)
    requires
        old(tokenizer).wf(),
        value::value_wf(*value),
        entries is Some ==> entries->0.wf(),
    ensures
        final(tokenizer).wf(),
        final(tokenizer).bytes@ == old(tokenizer).bytes@,
        match stream_after(
            old(tokenizer).bytes@,
            old(tokenizer).place(),
            value@,
            xref_offset,
            entries_view(entries),
        ) {
            Ok((stream, place)) => r is Ok && stream_view(r->Ok_0) == stream
                && final(tokenizer).place() == place && final(tokenizer).position
                >= old(tokenizer).position,
            Err(failure) => r is Err && r->Err_0@ == failure,
        },
{
    proof {
        lexer::lemma_token_at(tokenizer.bytes@, tokenizer.position as int);
    }
    let ahead = tokenizer.peek();
    if is_keyword(&ahead, "stream") {
        tokenizer.next();
        match read_stream(tokenizer, value, xref_offset, entries) {
            Err(error) => Err(error),
            Ok(stream) => Ok(Some(stream)),
        }
    } else {
        Ok(None)
    }
}

pub open spec fn is_ascii_digit_at(b: Seq<u8>, offset: int) -> bool {
    offset < b.len() && number::is_digit(b[offset])
}

/// A value has the type that is asked for, if one is.
pub open spec fn has_type(value: Datum, expected: Option<Seq<char>>) -> bool {
    match expected {
        None => true,
        Some(expected) => match value::dict_in(Some(value)) {
            None => false,
            Some(dict) => value::name_in(value::entry(dict, "Type"@)) == Some(expected),
        },
    }
}

/// The object that stands at `offset`.
pub open spec fn object_at(
    b: Seq<u8>,
    offset: int,
    entries: Option<Seq<(u32, XrefEntry)>>,
    expected_type: Option<Seq<char>>,
) -> Result<(PdfRef, Thing), Failure> {
    if !is_ascii_digit_at(b, offset) {
        Err(Failure::CorruptedPdf)
    } else {
        let (t1, p1) = lexer::step(b, Place { pos: offset, ahead: None });
        let (t2, p2) = lexer::step(b, p1);
        let (t3, p3) = lexer::step(b, p2);
        match (t1, t2) {
            (Some(Lexeme::Number(object)), Some(Lexeme::Number(generation))) => match (
                object.bounded_spec(u32::MAX as int),
                generation.bounded_spec(u16::MAX as int),
                value::value_at(b, p3, 0),
            ) {
                (Some(object), Some(generation), Some((value, p4))) => if t3 != Some(
                    Lexeme::Keyword("obj"@),
                ) {
                    Err(Failure::CorruptedPdf)
                } else if !has_type(value, expected_type) {
                    Err(Failure::UnsupportedStructure)
                } else {
                    match stream_after(b, p4, value, None, entries) {
                        Err(failure) => Err(failure),
                        Ok((stream, p5)) => if lexer::step(b, p5).0 == Some(
                            Lexeme::Keyword("endobj"@),
                        ) {
                            Ok(
                                (
                                    PdfRef {
                                        object: object as u32,
                                        generation: generation as u16,
                                    },
                                    Thing { value, stream },
                                ),
                            )
                        } else {
                            Err(Failure::CorruptedPdf)
                        },
                    }
                },
                _ => Err(Failure::CorruptedPdf),
            },
            _ => Err(Failure::CorruptedPdf),
        }
    }
}

/// Reads the object that stands at `offset`.
pub fn read_object_at(
    bytes: &[u8],
    offset: usize,
    entries: Option<&Entries>,
    expected_type: Option<&str>,
) -> (r: Result<(PdfRef, PdfObject), PdfError>)
    requires
        entries is Some ==> entries->0.wf(),
    ensures
        match object_at(
            bytes@,
            offset as int,
            entries_view(entries),
            match expected_type {
                Some(name) => Some(name@),
                None => None,
            },
        ) {
            Ok((reference, object)) => r is Ok && r->Ok_0.0 == reference && r->Ok_0.1@ == object
                && value::value_wf(r->Ok_0.1.value),
            Err(failure) => r is Err && r->Err_0@ == failure,
        },
{
    if offset >= bytes.len() || bytes[offset] < 48 || bytes[offset] > 57 {
        return Err(PdfError::CorruptedPdf);
    }
    let mut tokens = Tokenizer::new(bytes);
    tokens.set_position(offset);
    let first = tokens.next();
    let second = tokens.next();
    let (number, generation) = match (first, second) {
        (Some(Token::Number(number)), Some(Token::Number(generation))) => (number, generation),
        _ => {
            return Err(PdfError::CorruptedPdf);
        },
    };
    let reference = match (
        bounded_pdf_integer(number, u32::MAX as usize),
        bounded_pdf_integer(generation, u16::MAX as usize),
    ) {
        (Some(object), Some(generation)) => PdfRef {
            object: object as u32,
            generation: generation as u16,
        },
        _ => {
            return Err(PdfError::CorruptedPdf);
        },
    };
    let third = tokens.next();
    if !is_keyword(&third, "obj") {
        return Err(PdfError::CorruptedPdf);
    }
    let value = match parse_value(&mut tokens) {
        Ok(value) => value,
        Err(error) => {
            return Err(error);
        },
    };
    if let Some(expected) = expected_type {
        let named: bool = match dictionary(&value) {
            Some(dict) => is_name(lookup(dict, "Type"), expected),
            None => false,
        };
        if !named {
            return Err(PdfError::UnsupportedStructure);
        }
    }
    let stream = match read_optional_stream(&mut tokens, &value, None, entries) {
        Ok(stream) => stream,
        Err(error) => {
            return Err(error);
        },
    };
    let last = tokens.next();
    if !is_keyword(&last, "endobj") {
        return Err(PdfError::CorruptedPdf);
    }
    Ok((reference, PdfObject { value, stream }))
}

} // verus!
