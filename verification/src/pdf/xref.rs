//! Cross-reference tables and streams.

use vstd::prelude::*;
use vstd::utf8::*;

use crate::bytes;
use crate::pdf::error::{yields, Failure, PdfError};
use crate::pdf::lexer;
use crate::pdf::lexer::{is_ascii_space, is_keyword, Lexeme, Place, Token, Tokenizer};
use crate::pdf::number;
use crate::pdf::number::bounded_pdf_integer;
use crate::pdf::object;
use crate::pdf::object::{Entries, XrefEntry};
use crate::pdf::value;
use crate::pdf::value::{
    has_entry, lookup, number_from_value, parse_value, reference_value, required_pdf_integer,
    Datum, Dictionary, PdfRef, PdfValue,
};
use crate::table;
use crate::table::Table;

verus! {

/// The most cross-reference entries that a file may have.
pub const MAX_XREF_ENTRIES: usize = 100_000;

/// The most revisions that a file may have.
pub const MAX_XREF_REVISIONS: usize = 32;

/// The most objects that one object stream may hold.
pub const MAX_OBJECT_STREAM_OBJECTS: usize = 10_000;

/// Where a file's cross-reference data is, and in which form.
#[derive(Debug, Clone, Copy, PartialEq, Eq, Structural)]
pub enum XrefLocation {
    Missing,
    Table(usize),
    Stream(usize),
}

impl View for XrefLocation {
    type V = XrefLocation;

    open spec fn view(&self) -> XrefLocation {
        *self
    }
}

/// `n` without the white space before it.
pub open spec fn trimmed(b: Seq<u8>, n: int) -> int
    decreases n,
{
    if 0 < n <= b.len() && lexer::is_space(b[n - 1]) {
        trimmed(b, n - 1)
    } else {
        n
    }
}

/// Where the digits begin that end at `n`.
pub open spec fn digits_start(b: Seq<u8>, n: int) -> int
    decreases n,
{
    if 0 < n <= b.len() && number::is_digit(b[n - 1]) {
        digits_start(b, n - 1)
    } else {
        n
    }
}

/// The target of `startxref` is a table: `xref` and then white space or the end.
pub open spec fn is_table_at(b: Seq<u8>, offset: int) -> bool {
    let word = encode_utf8("xref"@);
    bytes::occurs(b, offset, word) && (offset + word.len() == b.len() || lexer::is_space(
        b[offset + word.len()],
    ))
}

/// Where the file says that its cross-reference data is: the number between
/// the last `startxref` and the last `%%EOF`.
pub open spec fn location(b: Seq<u8>) -> Result<XrefLocation, Failure> {
    let eof = encode_utf8("%%EOF"@);
    let marker = encode_utf8("startxref"@);
    match bytes::last_at(b, b.len() - eof.len(), eof) {
        None => Ok(XrefLocation::Missing),
        Some(end) => {
            let last = trimmed(b, end);
            let first = digits_start(b, last);
            let before = trimmed(b, first) - marker.len();
            if !bytes::occurs(b, before, marker) || first == last || (before > 0
                && !lexer::is_space(b[before - 1])) {
                Ok(XrefLocation::Missing)
            } else {
                let offset = number::capped_value(b, first, last, usize::MAX + 1);
                if offset > b.len() {
                    Err(Failure::CorruptedPdf)
                } else if is_table_at(b, offset) {
                    Ok(XrefLocation::Table(offset as usize))
                } else {
                    Ok(XrefLocation::Stream(offset as usize))
                }
            }
        },
    }
}

fn trim_space(b: &[u8], n: usize) -> (r: usize)
    requires
        n <= b@.len(),
    ensures
        r == trimmed(b@, n as int),
        r <= n,
{
    let mut i: usize = n;
    while i > 0 && is_ascii_space(b[i - 1])
        invariant
            i <= n <= b@.len(),
            trimmed(b@, i as int) == trimmed(b@, n as int),
        decreases i,
    {
        i -= 1;
    }
    i
}

fn trim_digits(b: &[u8], n: usize) -> (r: usize)
    requires
        n <= b@.len(),
    ensures
        r == digits_start(b@, n as int),
        r <= n,
        forall|k: int| r <= k < n ==> number::is_digit(#[trigger] b@[k]),
{
    let mut i: usize = n;
    while i > 0 && b[i - 1] >= 48 && b[i - 1] <= 57
        invariant
            i <= n <= b@.len(),
            digits_start(b@, i as int) == digits_start(b@, n as int),
            forall|k: int| i <= k < n ==> number::is_digit(#[trigger] b@[k]),
        decreases i,
    {
        i -= 1;
    }
    i
}

fn digits_to_usize(b: &[u8], from: usize, to: usize) -> (r: Option<usize>)
    requires
        from <= to <= b@.len(),
        forall|k: int| from <= k < to ==> number::is_digit(#[trigger] b@[k]),
    ensures
        match r {
            Some(value) => number::capped_value(b@, from as int, to as int, usize::MAX + 1)
                == value,
            None => number::capped_value(b@, from as int, to as int, usize::MAX + 1) > usize::MAX,
        },
{
    let cap: u128 = usize::MAX as u128 + 1;
    let mut value: u128 = 0;
    let mut i: usize = from;
    while i < to
        invariant
            from <= i <= to <= b@.len(),
            cap == usize::MAX + 1,
            value <= cap,
            value == number::capped_value(b@, from as int, i as int, usize::MAX + 1),
            forall|k: int| from <= k < to ==> number::is_digit(#[trigger] b@[k]),
        decreases to - i,
    {
        assert(number::is_digit(b@[i as int]));
        value = value * 10 + (b[i] - 48) as u128;
        if value > cap {
            value = cap;
        }
        i += 1;
    }
    if value >= cap {
        None
    } else {
        Some(value as usize)
    }
}

/// Finds out where the file's cross-reference data is.
pub fn verify_xref_structure(bytes: &[u8]) -> (r: Result<XrefLocation, PdfError>)
    ensures
        yields(r, location(bytes@)),
        r matches Ok(XrefLocation::Table(offset)) ==> offset <= bytes@.len(),
        r matches Ok(XrefLocation::Stream(offset)) ==> offset <= bytes@.len(),
{
    let end: usize = match bytes::find_last(bytes, "%%EOF".as_bytes()) {
        None => {
            return Ok(XrefLocation::Missing);
        },
        Some(end) => end,
    };
    let last: usize = trim_space(bytes, end);
    let first: usize = trim_digits(bytes, last);
    let marker = "startxref".as_bytes();
    let marker_end: usize = trim_space(bytes, first);
    if marker_end < marker.len() {
        return Ok(XrefLocation::Missing);
    }
    let before: usize = marker_end - marker.len();
    if !bytes::occurs_at(bytes, before, marker) || first == last || (before > 0 && !is_ascii_space(
        bytes[before - 1],
    )) {
        return Ok(XrefLocation::Missing);
    }
    match digits_to_usize(bytes, first, last) {
        None => Err(PdfError::CorruptedPdf),
        Some(offset) => {
            if offset > bytes.len() {
                return Err(PdfError::CorruptedPdf);
            }
            let word = "xref".as_bytes();
            if bytes::occurs_at(bytes, offset, word) && (bytes.len() - offset == word.len()
                || is_ascii_space(bytes[offset + word.len()])) {
                Ok(XrefLocation::Table(offset))
            } else {
                Ok(XrefLocation::Stream(offset))
            }
        },
    }
}

/// The larger of two numbers.
pub open spec fn max(a: int, b: int) -> int {
    if a >= b {
        a
    } else {
        b
    }
}

/// The row of a table for object `number`, from its three tokens.
pub open spec fn row_entry(
    b: Seq<u8>,
    offset: int,
    number: int,
    target: Option<Lexeme>,
    generation: Option<Lexeme>,
    status: Option<Lexeme>,
) -> Option<XrefEntry> {
    match (target, generation, status) {
        (
            Some(Lexeme::Number(target)),
            Some(Lexeme::Number(generation)),
            Some(Lexeme::Keyword(status)),
        ) => match (
            target.bounded_spec(max(b.len() as int, MAX_XREF_ENTRIES as int)),
            generation.bounded_spec(u16::MAX as int),
        ) {
            (Some(target), Some(generation)) => if status == "f"@ {
                Some(XrefEntry::Free)
            } else if status == "n"@ && number != 0 && 0 < target < offset {
                Some(XrefEntry::Direct { offset: target, generation: generation as u16 })
            } else {
                None
            },
            _ => None,
        },
        _ => None,
    }
}

/// What the subsections of the table at `offset` from `place` on add to
/// `rows`, and the place behind `trailer`.
pub open spec fn table_sections(
    b: Seq<u8>,
    offset: int,
    place: Place,
    rows: Seq<(u32, XrefEntry)>,
    sections: int,
) -> Option<(Seq<(u32, XrefEntry)>, Place)>
    decreases lexer::left(b, place), 0int,
{
    let ahead = lexer::look(b, place);
    let (first, p1) = lexer::step(b, ahead);
    let (count, p2) = lexer::step(b, p1);
    if ahead.ahead == Some(Lexeme::Keyword("trailer"@)) {
        Some((rows, p1))
    } else if sections + 1 > MAX_XREF_ENTRIES {
        None
    } else {
        match (first, count) {
            (Some(Lexeme::Number(first)), Some(Lexeme::Number(count))) => match (
                first.bounded_spec(MAX_XREF_ENTRIES as int),
                count.bounded_spec(MAX_XREF_ENTRIES as int),
            ) {
                (Some(first), Some(count)) => if first + count <= MAX_XREF_ENTRIES && rows.len()
                    + count <= MAX_XREF_ENTRIES && value::shrinks(b, place, p2) {
                    table_rows(b, offset, p2, rows, sections + 1, first as int, first + count)
                } else {
                    None
                },
                _ => None,
            },
            _ => None,
        }
    }
}

/// What the rows of a subsection for the objects from `number` up to `end`
/// add, and the subsections behind it.
pub open spec fn table_rows(
    b: Seq<u8>,
    offset: int,
    place: Place,
    rows: Seq<(u32, XrefEntry)>,
    sections: int,
    number: int,
    end: int,
) -> Option<(Seq<(u32, XrefEntry)>, Place)>
    decreases lexer::left(b, place), 1int,
{
    if number >= end {
        table_sections(b, offset, place, rows, sections)
    } else {
        let (target, p1) = lexer::step(b, place);
        let (generation, p2) = lexer::step(b, p1);
        let (status, p3) = lexer::step(b, p2);
        match row_entry(b, offset, number, target, generation, status) {
            None => None,
            Some(entry) => if object::entry_of(rows, number as u32) is Some || !value::shrinks(
                b,
                place,
                p3,
            ) {
                None
            } else {
                table_rows(
                    b,
                    offset,
                    p3,
                    table::put::<u32, XrefEntry>(rows, number as u32, entry),
                    sections,
                    number + 1,
                    end,
                )
            },
        }
    }
}

/// No row is for an object beyond the size that a trailer gives.
pub open spec fn size_fits(trailer: Seq<(Seq<u8>, Datum)>, rows: Seq<(u32, XrefEntry)>) -> bool {
    match value::entry(trailer, "Size"@) {
        None => true,
        Some(_) => match value::integer_entry(trailer, "Size"@, MAX_XREF_ENTRIES as int) {
            None => false,
            Some(size) => size > 0 && forall|i: int|
                0 <= i < rows.len() ==> (#[trigger] rows[i]).0 < size,
        },
    }
}

/// One revision of a table: its rows and its trailer.
pub struct Revision {
    pub rows: Seq<(u32, XrefEntry)>,
    pub trailer: Seq<(Seq<u8>, Datum)>,
}

/// The revision whose table is at `offset`.
pub open spec fn revision_at(b: Seq<u8>, offset: int) -> Result<Revision, Failure> {
    let (word, after) = lexer::step(
        b,
        Place { pos: number::min(offset, b.len() as int), ahead: None },
    );
    if word != Some(Lexeme::Keyword("xref"@)) {
        Err(Failure::UnsupportedStructure)
    } else {
        match table_sections(b, offset, after, Seq::empty(), 0) {
            None => Err(Failure::CorruptedPdf),
            Some((rows, place)) => match value::value_at(b, place, 0) {
                Some((Datum::Dict(trailer), _)) => if size_fits(trailer, rows) {
                    Ok(Revision { rows, trailer })
                } else {
                    Err(Failure::CorruptedPdf)
                },
                _ => Err(Failure::CorruptedPdf),
            },
        }
    }
}

/// The rows and the trailer of one revision.
pub struct XrefTableRevision {
    pub rows: Entries,
    pub trailer: Dictionary,
}

impl View for XrefTableRevision {
    type V = Revision;

    open spec fn view(&self) -> Revision {
        Revision { rows: self.rows@, trailer: self.trailer@ }
    }
}

impl XrefTableRevision {
    pub open spec fn wf(&self) -> bool {
        self.rows.wf() && value::dict_wf(self.trailer)
    }
}

fn read_row(
    bytes: &[u8],
    offset: usize,
    number: usize,
    target: &Option<Token>,
    generation: &Option<Token>,
    status: &Option<Token>,
) -> (r: Option<XrefEntry>)
    ensures
        r == row_entry(
            bytes@,
            offset as int,
            number as int,
            lexer::some_view(*target),
            lexer::some_view(*generation),
            lexer::some_view(*status),
        ),
{
    let most: usize = if bytes.len() >= MAX_XREF_ENTRIES {
        bytes.len()
    } else {
        MAX_XREF_ENTRIES
    };
    if let (Some(Token::Number(target)), Some(Token::Number(generation)), Some(Token::Keyword(_))) =
        (target, generation, status) {
        if let (Some(target), Some(generation)) = (
            bounded_pdf_integer(*target, most),
            bounded_pdf_integer(*generation, u16::MAX as usize),
        ) {
            if is_keyword(status, "f") {
                return Some(XrefEntry::Free);
            }
            if is_keyword(status, "n") && number != 0 && target > 0 && target < offset {
                return Some(XrefEntry::Direct { offset: target, generation: generation as u16 });
            }
        }
    }
    None
}

fn read_table_rows(tokens: &mut Tokenizer<'_>, offset: usize) -> (r: Result<Entries, PdfError>)
    requires
        old(tokens).wf(),
    ensures
        final(tokens).wf(),
        final(tokens).bytes@ == old(tokens).bytes@,
        match table_sections(
            old(tokens).bytes@,
            offset as int,
            old(tokens).place(),
            Seq::empty(),
            0,
        ) {
            Some((rows, place)) => r is Ok && r->Ok_0.wf() && r->Ok_0@ == rows
                && final(tokens).place() == place,
            None => r is Err && r->Err_0@ == Failure::CorruptedPdf,
        },
{
    let ghost b = tokens.bytes@;
    let ghost goal = table_sections(b, offset as int, tokens.place(), Seq::empty(), 0);
    let mut rows: Entries = Table::new();
    let mut sections: usize = 0;
    let mut number: usize = 0;
    let mut end: usize = 0;
    loop
        invariant
            tokens.wf(),
            tokens.bytes@ == b,
            b == old(tokens).bytes@,
            rows.wf(),
            sections <= MAX_XREF_ENTRIES,
            number <= end <= MAX_XREF_ENTRIES,
            goal == table_sections(
                old(tokens).bytes@,
                offset as int,
                old(tokens).place(),
                Seq::empty(),
                0,
            ),
            table_rows(
                b,
                offset as int,
                tokens.place(),
                rows@,
                sections as int,
                number as int,
                end as int,
            ) == goal,
        decreases lexer::left(b, tokens.place()),
    {
        let ghost before = tokens.place();
        if number == end {
            assert(goal == table_sections(b, offset as int, before, rows@, sections as int));
            let ahead = tokens.peek();
            if is_keyword(&ahead, "trailer") {
                tokens.next();
                return Ok(rows);
            }
            if sections + 1 > MAX_XREF_ENTRIES {
                return Err(PdfError::CorruptedPdf);
            }
            let first = tokens.next();
            let count = tokens.next();
            if let (Some(Token::Number(first)), Some(Token::Number(count))) = (first, count) {
                if let (Some(first), Some(count)) = (
                    bounded_pdf_integer(first, MAX_XREF_ENTRIES),
                    bounded_pdf_integer(count, MAX_XREF_ENTRIES),
                ) {
                    if first + count <= MAX_XREF_ENTRIES && rows.len() <= MAX_XREF_ENTRIES
                        && rows.len() + count <= MAX_XREF_ENTRIES {
                        sections += 1;
                        number = first;
                        end = first + count;
                        continue;
                    }
                }
            }
            return Err(PdfError::CorruptedPdf);
        }
        let target = tokens.next();
        let generation = tokens.next();
        let status = tokens.next();
        match read_row(tokens.bytes, offset, number, &target, &generation, &status) {
            None => {
                return Err(PdfError::CorruptedPdf);
            },
            Some(entry) => {
                let key: u32 = number as u32;
                if rows.get(&key).is_some() {
                    return Err(PdfError::CorruptedPdf);
                }
                rows.insert(key, entry);
                number += 1;
            },
        }
    }
}

fn all_below(rows: &Entries, size: usize) -> (r: bool)
    ensures
        r == (forall|i: int| 0 <= i < rows@.len() ==> (#[trigger] rows@[i]).0 < size),
{
    let mut i: usize = 0;
    while i < rows.len()
        invariant
            i <= rows@.len(),
            forall|k: int| 0 <= k < i ==> (#[trigger] rows@[k]).0 < size,
        decreases rows@.len() - i,
    {
        let number: u32 = *rows.key_at(i);
        if number as u64 >= size as u64 {
            assert(rows@[i as int].0 >= size);
            return false;
        }
        i += 1;
    }
    true
}

/// Reads the revision whose table is at `offset`.
pub fn read_xref_table_revision(bytes: &[u8], offset: usize) -> (r: Result<
    XrefTableRevision,
    PdfError,
>)
    ensures
        yields(r, revision_at(bytes@, offset as int)),
        r is Ok ==> r->Ok_0.wf(),
{
    let mut tokens = Tokenizer::new(bytes);
    tokens.set_position(offset);
    let word = tokens.next();
    if !is_keyword(&word, "xref") {
        return Err(PdfError::UnsupportedStructure);
    }
    let rows = match read_table_rows(&mut tokens, offset) {
        Ok(rows) => rows,
        Err(error) => {
            return Err(error);
        },
    };
    match parse_value(&mut tokens) {
        Ok(PdfValue::Dict(trailer)) => {
            proof {
                value::lemma_datum(PdfValue::Dict(trailer));
            }
            if has_entry(&trailer, "Size") {
                match required_pdf_integer(&trailer, "Size", MAX_XREF_ENTRIES) {
                    Err(error) => {
                        return Err(error);
                    },
                    Ok(size) => {
                        if size == 0 || !all_below(&rows, size) {
                            return Err(PdfError::CorruptedPdf);
                        }
                    },
                }
            }
            Ok(XrefTableRevision { rows, trailer })
        },
        Ok(_) => Err(PdfError::CorruptedPdf),
        Err(error) => Err(error),
    }
}

/// `older` under `newer`: from `i` on, the rows of `older` for which `newer`
/// has none.
pub open spec fn merged(
    newer: Seq<(u32, XrefEntry)>,
    older: Seq<(u32, XrefEntry)>,
    i: int,
) -> Seq<(u32, XrefEntry)>
    decreases older.len() - i,
{
    if i < 0 || i >= older.len() {
        newer
    } else if object::entry_of(newer, older[i].0) is Some {
        merged(newer, older, i + 1)
    } else {
        merged(table::put::<u32, XrefEntry>(newer, older[i].0, older[i].1), older, i + 1)
    }
}

/// The offset of the revision before the one at `offset`, which stands before it.
pub open spec fn previous_offset(previous: Datum, offset: int) -> Option<usize> {
    match value::number_in(Some(previous)) {
        None => None,
        Some(number) => match number.bounded_spec(max(offset - 1, 0)) {
            Some(target) => if 0 < target < offset {
                Some(target)
            } else {
                None
            },
            None => None,
        },
    }
}

pub open spec fn is_unsupported(trailer: Seq<(Seq<u8>, Datum)>) -> bool {
    value::entry(trailer, "XRefStm"@) is Some || value::entry(trailer, "Encrypt"@) is Some
}

/// A revision's size is no larger than that of the newest one.
pub open spec fn size_shrinks(size: usize, newest: Option<usize>) -> bool {
    newest is Some ==> size <= newest->0
}

pub open spec fn or_else(newest: Option<usize>, size: usize) -> Option<usize> {
    match newest {
        Some(_) => newest,
        None => Some(size),
    }
}

/// The rows of all revisions from the one at `offset` back, below the newer
/// ones in `rows`.
pub open spec fn table_chain(
    b: Seq<u8>,
    offset: int,
    revision: Revision,
    rows: Seq<(u32, XrefEntry)>,
    newest: Option<usize>,
    total: int,
    rounds: nat,
) -> Result<Seq<(u32, XrefEntry)>, Failure>
    decreases rounds,
{
    if rounds == 0 {
        Err(Failure::UnsupportedStructure)
    } else if is_unsupported(revision.trailer) {
        Err(Failure::UnsupportedStructure)
    } else {
        match value::integer_entry(revision.trailer, "Size"@, MAX_XREF_ENTRIES as int) {
            None => Err(Failure::CorruptedPdf),
            Some(size) => if size == 0 || !size_shrinks(size, newest) || total
                + revision.rows.len() > MAX_XREF_ENTRIES {
                Err(Failure::CorruptedPdf)
            } else {
                let rows = merged(rows, revision.rows, 0);
                match value::entry(revision.trailer, "Prev"@) {
                    None => Ok(rows),
                    Some(previous) => match previous_offset(previous, offset) {
                        None => Err(Failure::CorruptedPdf),
                        Some(target) => match revision_at(b, target as int) {
                            Err(failure) => Err(failure),
                            Ok(older) => table_chain(
                                b,
                                target as int,
                                older,
                                rows,
                                or_else(newest, size),
                                total + revision.rows.len(),
                                (rounds - 1) as nat,
                            ),
                        },
                    },
                }
            },
        }
    }
}

/// The rows of all revisions and the root that the newest trailer names.
pub open spec fn table_index(b: Seq<u8>, start: int, first: Revision) -> Result<
    (Seq<(u32, XrefEntry)>, PdfRef),
    Failure,
> {
    match value::ref_in(value::entry(first.trailer, "Root"@)) {
        None => Err(Failure::CorruptedPdf),
        Some(root) => match table_chain(
            b,
            start,
            first,
            Seq::empty(),
            None,
            0,
            MAX_XREF_REVISIONS as nat,
        ) {
            Err(failure) => Err(failure),
            Ok(rows) => Ok((rows, root)),
        },
    }
}

/// Adds the rows of `older` for which `newer` has none.
pub fn merge(newer: &mut Entries, older: &Entries)
    requires
        old(newer).wf(),
    ensures
        final(newer).wf(),
        final(newer)@ == merged(old(newer)@, older@, 0),
{
    let mut i: usize = 0;
    while i < older.len()
        invariant
            i <= older@.len(),
            newer.wf(),
            merged(newer@, older@, i as int) == merged(old(newer)@, older@, 0),
        decreases older@.len() - i,
    {
        let key: u32 = *older.key_at(i);
        let entry: XrefEntry = *older.value_at(i);
        if newer.get(&key).is_none() {
            newer.insert(key, entry);
        }
        i += 1;
    }
}

/// The offset of the revision before the one at `offset`.
pub fn read_previous(previous: &PdfValue, offset: usize) -> (r: Option<usize>)
    requires
        value::value_wf(*previous),
    ensures
        r == previous_offset(previous@, offset as int),
{
    match number_from_value(Some(previous)) {
        None => None,
        Some(number) => {
            let most: usize = if offset > 0 {
                offset - 1
            } else {
                0
            };
            match bounded_pdf_integer(number, most) {
                Some(target) => if target > 0 && target < offset {
                    Some(target)
                } else {
                    None
                },
                None => None,
            }
        },
    }
}

/// What a file's cross-reference data says: entries by object number, and the
/// root object.
pub struct Index {
    pub entries: Entries,
    pub root: PdfRef,
}

impl View for Index {
    type V = (Seq<(u32, XrefEntry)>, PdfRef);

    open spec fn view(&self) -> (Seq<(u32, XrefEntry)>, PdfRef) {
        (self.entries@, self.root)
    }
}

/// Follows the revisions of a table back to the first one.
pub fn read_xref_table_chain(bytes: &[u8], start: usize, first: XrefTableRevision) -> (r: Result<
    Index,
    PdfError,
>)
    requires
        first.wf(),
    ensures
        yields(r, table_index(bytes@, start as int, first@)),
        r is Ok ==> r->Ok_0.entries.wf(),
{
    let root = match reference_value(lookup(&first.trailer, "Root")) {
        None => {
            return Err(PdfError::CorruptedPdf);
        },
        Some(root) => root,
    };
    let ghost goal = table_chain(
        bytes@,
        start as int,
        first@,
        Seq::empty(),
        None,
        0,
        MAX_XREF_REVISIONS as nat,
    );
    let mut offset: usize = start;
    let mut revision = first;
    let mut entries: Entries = Table::new();
    let mut newest: Option<usize> = None;
    let mut total: usize = 0;
    let mut rounds: usize = MAX_XREF_REVISIONS;
    while rounds > 0
        invariant
            rounds <= MAX_XREF_REVISIONS,
            revision.wf(),
            entries.wf(),
            total <= MAX_XREF_ENTRIES,
            table_index(bytes@, start as int, first@) == (match goal {
                Err(failure) => Err(failure),
                Ok(rows) => Ok::<(Seq<(u32, XrefEntry)>, PdfRef), Failure>((rows, root)),
            }),
            table_chain(
                bytes@,
                offset as int,
                revision@,
                entries@,
                newest,
                total as int,
                rounds as nat,
            ) == goal,
        decreases rounds,
    {
        if has_entry(&revision.trailer, "XRefStm") || has_entry(&revision.trailer, "Encrypt") {
            return Err(PdfError::UnsupportedStructure);
        }
        let size: usize = match required_pdf_integer(&revision.trailer, "Size", MAX_XREF_ENTRIES) {
            Err(error) => {
                return Err(error);
            },
            Ok(size) => size,
        };
        let shrinks: bool = match newest {
            Some(latest) => size <= latest,
            None => true,
        };
        if size == 0 || !shrinks || revision.rows.len() > MAX_XREF_ENTRIES - total {
            return Err(PdfError::CorruptedPdf);
        }
        if newest.is_none() {
            newest = Some(size);
        }
        total += revision.rows.len();
        merge(&mut entries, &revision.rows);
        match lookup(&revision.trailer, "Prev") {
            None => {
                return Ok(Index { entries, root });
            },
            Some(previous) => match read_previous(previous, offset) {
                None => {
                    return Err(PdfError::CorruptedPdf);
                },
                Some(target) => match read_xref_table_revision(bytes, target) {
                    Err(error) => {
                        return Err(error);
                    },
                    Ok(older) => {
                        offset = target;
                        revision = older;
                    },
                },
            },
        }
        rounds -= 1;
    }
    Err(PdfError::UnsupportedStructure)
}

} // verus!
