//! Cross-reference streams.

use vstd::prelude::*;

use crate::pdf::error::{settles, yields, Failure, PdfError};
use crate::pdf::filter;
use crate::pdf::filter::decode_stream_with_control;
use crate::pdf::number;
use crate::pdf::number::bounded_pdf_integer;
use crate::pdf::object;
use crate::pdf::object::{read_object_at, Entries, PdfObject, Thing, XrefEntry};
use crate::pdf::value;
use crate::pdf::value::{
    dictionary, has_entry, lookup, number_from_value, reference_value, required_pdf_integer, Datum,
    PdfRef, PdfValue,
};
use crate::pdf::xref;
use crate::pdf::xref::{
    read_previous, Index, MAX_OBJECT_STREAM_OBJECTS, MAX_XREF_ENTRIES, MAX_XREF_REVISIONS,
};
use crate::table;
use crate::table::Table;

verus! {

/// The widest field of a cross-reference stream, in bytes.
pub const MAX_FIELD_WIDTH: usize = 8;

/// A number written in base 256, highest digit first.
pub open spec fn be_value(s: Seq<u8>) -> int
    decreases s.len(),
{
    if s.len() == 0 {
        0
    } else {
        be_value(s.drop_last()) * 256 + s.last()
    }
}

pub open spec fn pow256(n: int) -> int
    decreases n,
{
    if n <= 0 {
        1
    } else {
        256 * pow256(n - 1)
    }
}

proof fn lemma_be_value(s: Seq<u8>)
    ensures
        0 <= be_value(s) < pow256(s.len() as int),
    decreases s.len(),
{
    if s.len() > 0 {
        lemma_be_value(s.drop_last());
    }
}

proof fn lemma_pow256(n: int)
    requires
        0 <= n <= 8,
    ensures
        pow256(n) <= 0x1_0000_0000_0000_0000,
{
    reveal_with_fuel(pow256, 9);
}

/// Reads a field of at most eight bytes.
pub fn read_be_field(bytes: &[u8]) -> (r: u64)
    requires
        bytes@.len() <= MAX_FIELD_WIDTH,
    ensures
        r == be_value(bytes@),
{
    let mut value: u64 = 0;
    let mut i: usize = 0;
    while i < bytes.len()
        invariant
            i <= bytes@.len() <= MAX_FIELD_WIDTH,
            value == be_value(bytes@.take(i as int)),
        decreases bytes@.len() - i,
    {
        proof {
            assert(bytes@.take(i + 1).drop_last() =~= bytes@.take(i as int));
            lemma_be_value(bytes@.take(i + 1));
            lemma_pow256(i + 1);
        }
        value = value * 256 + bytes[i] as u64;
        i += 1;
    }
    assert(bytes@.take(i as int) =~= bytes@);
    value
}

/// The width of a field.
pub open spec fn width_of(item: Datum) -> Option<usize> {
    match value::number_in(Some(item)) {
        Some(number) => number.bounded_spec(MAX_FIELD_WIDTH as int),
        None => None,
    }
}

/// The widths of the three fields of an entry.
pub open spec fn widths_of(w: Option<Datum>) -> Option<(usize, usize, usize)> {
    match w {
        Some(Datum::Array(items)) => if items.len() != 3 {
            None
        } else {
            match (width_of(items[0]), width_of(items[1]), width_of(items[2])) {
                (Some(a), Some(b), Some(c)) => if a + b + c == 0 {
                    None
                } else {
                    Some((a, b, c))
                },
                _ => None,
            }
        },
        _ => None,
    }
}

/// A whole number from 0 to `max`.
pub open spec fn bounded(item: Datum, max: int) -> Option<usize> {
    match value::number_in(Some(item)) {
        Some(number) => number.bounded_spec(max),
        None => None,
    }
}

/// The ranges that pairs of items from `i` on stand for: a first object and a
/// count, within `size`.
pub open spec fn ranges_from(
    items: Seq<Datum>,
    size: int,
    i: int,
    ranges: Seq<(usize, usize)>,
) -> Option<Seq<(usize, usize)>>
    decreases items.len() - i,
{
    if i < 0 || i + 1 >= items.len() {
        Some(ranges)
    } else {
        match (bounded(items[i], size), bounded(items[i + 1], size)) {
            (Some(start), Some(count)) => if start + count > size {
                None
            } else {
                ranges_from(items, size, i + 2, ranges.push((start, count)))
            },
            _ => None,
        }
    }
}

/// The ranges of objects that the entries are for.
pub open spec fn ranges_of(index: Option<Datum>, size: usize) -> Option<Seq<(usize, usize)>> {
    match index {
        None => Some(seq![(0usize, size)]),
        Some(Datum::Array(items)) => if items.len() % 2 == 0 && items.len() <= MAX_XREF_ENTRIES
            * 2 {
            ranges_from(items, size as int, 0, Seq::empty())
        } else {
            None
        },
        Some(_) => None,
    }
}

/// How many entries the ranges from `i` on have, after `total`; at most the
/// limit.
pub open spec fn total_of(ranges: Seq<(usize, usize)>, i: int, total: int) -> Option<int>
    decreases ranges.len() - i,
{
    if i < 0 || i >= ranges.len() {
        Some(total)
    } else if total + ranges[i].1 > MAX_XREF_ENTRIES {
        None
    } else {
        total_of(ranges, i + 1, total + ranges[i].1)
    }
}

/// The entry for object `number` with those fields.
pub open spec fn stream_entry(number: int, kind: int, second: int, third: int) -> Result<
    XrefEntry,
    Failure,
> {
    if kind == 0 {
        Ok(XrefEntry::Free)
    } else if kind == 1 {
        if second > usize::MAX || third > u16::MAX || number == 0 || second == 0 {
            Err(Failure::CorruptedPdf)
        } else {
            Ok(XrefEntry::Direct { offset: second as usize, generation: third as u16 })
        }
    } else if kind == 2 {
        if second > u32::MAX || third >= MAX_OBJECT_STREAM_OBJECTS || number == 0 || second == 0 {
            Err(Failure::CorruptedPdf)
        } else {
            Ok(XrefEntry::Compressed { stream_number: second as u32, index: third as usize })
        }
    } else {
        Err(Failure::UnsupportedStructure)
    }
}

/// The entry for object `number` whose fields stand at `position`.
pub open spec fn entry_at(
    data: Seq<u8>,
    widths: (usize, usize, usize),
    number: int,
    position: int,
) -> Result<XrefEntry, Failure> {
    let a = position + widths.0;
    let b = a + widths.1;
    let c = b + widths.2;
    if c > data.len() {
        Err(Failure::CorruptedPdf)
    } else {
        stream_entry(
            number,
            if widths.0 == 0 {
                1
            } else {
                be_value(data.subrange(position, a))
            },
            be_value(data.subrange(a, b)),
            be_value(data.subrange(b, c)),
        )
    }
}

/// The entries from the `k`-th of range `r` on, added to `rows`.
pub open spec fn entries_from(
    data: Seq<u8>,
    widths: (usize, usize, usize),
    ranges: Seq<(usize, usize)>,
    r: int,
    k: int,
    position: int,
    rows: Seq<(u32, XrefEntry)>,
) -> Result<Seq<(u32, XrefEntry)>, Failure>
    decreases ranges.len() - r, ranges[r].1 - k,
{
    if r < 0 || r >= ranges.len() {
        Ok(rows)
    } else if k >= ranges[r].1 {
        entries_from(data, widths, ranges, r + 1, 0, position, rows)
    } else {
        let number = ranges[r].0 + k;
        if number > u32::MAX || object::entry_of(rows, number as u32) is Some {
            Err(Failure::CorruptedPdf)
        } else {
            match entry_at(data, widths, number, position) {
                Err(failure) => Err(failure),
                Ok(entry) => entries_from(
                    data,
                    widths,
                    ranges,
                    r,
                    k + 1,
                    position + widths.0 + widths.1 + widths.2,
                    table::put::<u32, XrefEntry>(rows, number as u32, entry),
                ),
            }
        }
    }
}

/// The entries that a cross-reference stream holds.
pub open spec fn stream_rows(object: Thing) -> Result<Seq<(u32, XrefEntry)>, Failure> {
    match value::dict_in(Some(object.value)) {
        None => Err(Failure::CorruptedPdf),
        Some(dict) => if value::entry(dict, "DecodeParms"@) is Some {
            Err(Failure::UnsupportedStructure)
        } else {
            match value::integer_entry(dict, "Size"@, MAX_XREF_ENTRIES as int) {
                None => Err(Failure::CorruptedPdf),
                Some(size) => if size == 0 {
                    Err(Failure::CorruptedPdf)
                } else {
                    match (
                        widths_of(value::entry(dict, "W"@)),
                        ranges_of(value::entry(dict, "Index"@), size),
                    ) {
                        (Some(widths), Some(ranges)) => match total_of(ranges, 0, 0) {
                            None => Err(Failure::CorruptedPdf),
                            Some(total) => match filter::decoded(object) {
                                Err(failure) => Err(failure),
                                Ok(data) => if total * (widths.0 + widths.1 + widths.2)
                                    != data.len() {
                                    Err(Failure::CorruptedPdf)
                                } else {
                                    entries_from(data, widths, ranges, 0, 0, 0, Seq::empty())
                                },
                            },
                        },
                        _ => Err(Failure::CorruptedPdf),
                    }
                },
            }
        },
    }
}

fn read_bounded(item: &PdfValue, max: usize) -> (r: Option<usize>)
    requires
        value::value_wf(*item),
    ensures
        r == bounded(item@, max as int),
        r is Some ==> r->0 <= max,
{
    match number_from_value(Some(item)) {
        Some(number) => bounded_pdf_integer(number, max),
        None => None,
    }
}

fn read_widths(w: Option<&PdfValue>) -> (r: Option<(usize, usize, usize)>)
    requires
        w is Some ==> value::value_wf(*w->0),
    ensures
        r == widths_of(value::opt_view(w)),
        r matches Some((a, b, c)) ==> a <= 8 && b <= 8 && c <= 8,
{
    match w {
        Some(PdfValue::Array(items)) => {
            proof {
                value::lemma_datum(*w->0);
            }
            if items.len() != 3 {
                return None;
            }
            assert(value::value_wf(items@[0]) && value::value_wf(items@[1]) && value::value_wf(
                items@[2],
            ));
            match (
                read_bounded(&items[0], MAX_FIELD_WIDTH),
                read_bounded(&items[1], MAX_FIELD_WIDTH),
                read_bounded(&items[2], MAX_FIELD_WIDTH),
            ) {
                (Some(a), Some(b), Some(c)) => {
                    if a + b + c == 0 {
                        None
                    } else {
                        Some((a, b, c))
                    }
                },
                _ => None,
            }
        },
        _ => None,
    }
}

fn read_ranges(index: Option<&PdfValue>, size: usize) -> (r: Option<Vec<(usize, usize)>>)
    requires
        index is Some ==> value::value_wf(*index->0),
        size <= MAX_XREF_ENTRIES,
    ensures
        match r {
            Some(ranges) => ranges_of(value::opt_view(index), size) == Some(ranges@) && forall|
                i: int,
            |
                0 <= i < ranges@.len() ==> (#[trigger] ranges@[i]).0 + ranges@[i].1
                    <= MAX_XREF_ENTRIES,
            None => ranges_of(value::opt_view(index), size) is None,
        },
{
    let mut ranges: Vec<(usize, usize)> = Vec::new();
    match index {
        None => {
            ranges.push((0, size));
            assert(ranges@ =~= seq![(0usize, size)]);
            Some(ranges)
        },
        Some(PdfValue::Array(items)) => {
            proof {
                value::lemma_datum(*index->0);
            }
            if items.len() % 2 != 0 || items.len() > MAX_XREF_ENTRIES * 2 {
                return None;
            }
            let mut i: usize = 0;
            let ghost all = value::data(items@);
            while i < items.len()
                invariant
                    i <= items@.len() <= MAX_XREF_ENTRIES * 2,
                    i % 2 == 0,
                    items@.len() % 2 == 0,
                    all == value::data(items@),
                    size <= MAX_XREF_ENTRIES,
                    forall|k: int| 0 <= k < items@.len() ==> value::value_wf(#[trigger] items@[k]),
                    forall|k: int|
                        0 <= k < ranges@.len() ==> (#[trigger] ranges@[k]).0 + ranges@[k].1
                            <= MAX_XREF_ENTRIES,
                    ranges_of(value::opt_view(index), size) == ranges_from(
                        all,
                        size as int,
                        i as int,
                        ranges@,
                    ),
                decreases items@.len() - i,
            {
                assert(value::value_wf(items@[i as int]) && value::value_wf(items@[i + 1]));
                match (read_bounded(&items[i], size), read_bounded(&items[i + 1], size)) {
                    (Some(start), Some(count)) => {
                        if start + count > size {
                            return None;
                        }
                        ranges.push((start, count));
                    },
                    _ => {
                        return None;
                    },
                }
                i += 2;
            }
            Some(ranges)
        },
        Some(_) => None,
    }
}

fn count_entries(ranges: &Vec<(usize, usize)>) -> (r: Option<usize>)
    ensures
        match r {
            Some(total) => total_of(ranges@, 0, 0) == Some(total as int) && total
                <= MAX_XREF_ENTRIES,
            None => total_of(ranges@, 0, 0) is None,
        },
{
    let mut total: usize = 0;
    let mut i: usize = 0;
    while i < ranges.len()
        invariant
            i <= ranges@.len(),
            total <= MAX_XREF_ENTRIES,
            total_of(ranges@, i as int, total as int) == total_of(ranges@, 0, 0),
        decreases ranges@.len() - i,
    {
        let count: usize = ranges[i].1;
        if count > MAX_XREF_ENTRIES - total {
            return None;
        }
        total += count;
        i += 1;
    }
    Some(total)
}

fn read_entry(number: usize, kind: u64, second: u64, third: u64) -> (r: Result<
    XrefEntry,
    PdfError,
>)
    ensures
        yields(r, stream_entry(number as int, kind as int, second as int, third as int)),
{
    if kind == 0 {
        Ok(XrefEntry::Free)
    } else if kind == 1 {
        if second > usize::MAX as u64 || third > u16::MAX as u64 || number == 0 || second == 0 {
            Err(PdfError::CorruptedPdf)
        } else {
            Ok(XrefEntry::Direct { offset: second as usize, generation: third as u16 })
        }
    } else if kind == 2 {
        if second > u32::MAX as u64 || third >= MAX_OBJECT_STREAM_OBJECTS as u64 || number == 0
            || second == 0 {
            Err(PdfError::CorruptedPdf)
        } else {
            Ok(XrefEntry::Compressed { stream_number: second as u32, index: third as usize })
        }
    } else {
        Err(PdfError::UnsupportedStructure)
    }
}

fn read_entry_at(data: &[u8], widths: (usize, usize, usize), number: usize, position: usize) -> (r:
    Result<XrefEntry, PdfError>)
    requires
        widths.0 <= 8,
        widths.1 <= 8,
        widths.2 <= 8,
        position <= data@.len(),
    ensures
        yields(r, entry_at(data@, widths, number as int, position as int)),
        r is Ok ==> position + widths.0 + widths.1 + widths.2 <= data@.len(),
{
    if data.len() - position < widths.0 + widths.1 + widths.2 {
        return Err(PdfError::CorruptedPdf);
    }
    let a: usize = position + widths.0;
    let b: usize = a + widths.1;
    let c: usize = b + widths.2;
    let kind: u64 = if widths.0 == 0 {
        1
    } else {
        read_be_field(vstd::slice::slice_subrange(data, position, a))
    };
    let second: u64 = read_be_field(vstd::slice::slice_subrange(data, a, b));
    let third: u64 = read_be_field(vstd::slice::slice_subrange(data, b, c));
    read_entry(number, kind, second, third)
}

fn read_entries<F: Fn() -> bool>(
    data: &[u8],
    widths: (usize, usize, usize),
    ranges: &Vec<(usize, usize)>,
    should_stop: &F,
) -> (r: Result<Entries, PdfError>)
    requires
        should_stop.requires(()),
        widths.0 <= 8,
        widths.1 <= 8,
        widths.2 <= 8,
        forall|i: int|
            0 <= i < ranges@.len() ==> (#[trigger] ranges@[i]).0 + ranges@[i].1
                <= MAX_XREF_ENTRIES,
    ensures
        settles(
            r,
            entries_from(data@, widths, ranges@, 0, 0, 0, Seq::empty()),
            *should_stop,
        ),
        r is Ok ==> r->Ok_0.wf(),
{
    let mut entries: Entries = Table::new();
    let mut position: usize = 0;
    let mut i: usize = 0;
    let mut k: usize = 0;
    let ghost goal = entries_from(data@, widths, ranges@, 0, 0, 0, Seq::empty());
    assert(data.len() <= usize::MAX);
    while i < ranges.len()
        invariant
            should_stop.requires(()),
            widths.0 <= 8,
            widths.1 <= 8,
            widths.2 <= 8,
            forall|a: int|
                0 <= a < ranges@.len() ==> (#[trigger] ranges@[a]).0 + ranges@[a].1
                    <= MAX_XREF_ENTRIES,
            i <= ranges@.len(),
            i < ranges@.len() ==> k <= ranges@[i as int].1,
            position <= data@.len() <= usize::MAX,
            entries.wf(),
            goal == entries_from(data@, widths, ranges@, 0, 0, 0, Seq::empty()),
            entries_from(
                data@,
                widths,
                ranges@,
                i as int,
                k as int,
                position as int,
                entries@,
            ) == goal,
        decreases ranges@.len() - i, ranges@[i as int].1 - k,
    {
        let (start, count): (usize, usize) = ranges[i];
        if k == count {
            i += 1;
            k = 0;
        } else {
            if k % 256 == 0 && should_stop() {
                return Err(PdfError::Cancelled);
            }
            let number: usize = start + k;
            let key: u32 = number as u32;
            if entries.get(&key).is_some() {
                return Err(PdfError::CorruptedPdf);
            }
            match read_entry_at(data, widths, number, position) {
                Err(error) => {
                    return Err(error);
                },
                Ok(entry) => {
                    entries.insert(key, entry);
                },
            }
            position += widths.0 + widths.1 + widths.2;
            k += 1;
        }
    }
    Ok(entries)
}

/// Reads the entries of a cross-reference stream.
pub fn parse_xref_stream<F: Fn() -> bool>(object: &PdfObject, should_stop: &F) -> (r: Result<
    Entries,
    PdfError,
>)
    requires
        value::value_wf(object.value),
        should_stop.requires(()),
    ensures
        settles(r, stream_rows(object@), *should_stop),
        r is Ok ==> r->Ok_0.wf(),
{
    let dict = match dictionary(&object.value) {
        None => {
            return Err(PdfError::CorruptedPdf);
        },
        Some(dict) => dict,
    };
    if has_entry(dict, "DecodeParms") {
        return Err(PdfError::UnsupportedStructure);
    }
    let size: usize = match required_pdf_integer(dict, "Size", MAX_XREF_ENTRIES) {
        Err(error) => {
            return Err(error);
        },
        Ok(size) => size,
    };
    if size == 0 {
        return Err(PdfError::CorruptedPdf);
    }
    let widths = match read_widths(lookup(dict, "W")) {
        None => {
            return Err(PdfError::CorruptedPdf);
        },
        Some(widths) => widths,
    };
    let ranges = match read_ranges(lookup(dict, "Index"), size) {
        None => {
            return Err(PdfError::CorruptedPdf);
        },
        Some(ranges) => ranges,
    };
    let count: usize = match count_entries(&ranges) {
        None => {
            return Err(PdfError::CorruptedPdf);
        },
        Some(count) => count,
    };
    let data = match decode_stream_with_control(object, should_stop) {
        Err(error) => {
            return Err(error);
        },
        Ok(data) => data,
    };
    let width: usize = widths.0 + widths.1 + widths.2;
    assert(count * width <= 100_000 * 24) by (nonlinear_arith)
        requires
            count <= 100_000,
            width <= 24,
    ;
    if count * width != data.len() {
        return Err(PdfError::CorruptedPdf);
    }
    read_entries(data.as_slice(), widths, &ranges, should_stop)
}

/// No entry of a revision points behind its own cross-reference stream.
pub open spec fn none_beyond(rows: Seq<(u32, XrefEntry)>, offset: int) -> bool {
    forall|i: int|
        0 <= i < rows.len() ==> ((#[trigger] rows[i]).1 matches XrefEntry::Direct {
            offset: target,
            ..
        } ==> target <= offset)
}

/// The revision's own stream is in its entries, at its own offset.
pub open spec fn lists_itself(
    rows: Seq<(u32, XrefEntry)>,
    reference: PdfRef,
    offset: int,
) -> bool {
    object::entry_of(rows, reference.object) == Some(
        XrefEntry::Direct { offset: offset as usize, generation: reference.generation },
    )
}

/// The entries of all revisions from the one at `offset` back, below the newer
/// ones in `rows`, and the root that the newest one names.
pub open spec fn stream_chain(
    b: Seq<u8>,
    offset: int,
    rows: Seq<(u32, XrefEntry)>,
    root: Option<PdfRef>,
    newest: Option<usize>,
    total: int,
    rounds: nat,
) -> Result<(Seq<(u32, XrefEntry)>, PdfRef), Failure>
    decreases rounds,
{
    if rounds == 0 || !object::is_ascii_digit_at(b, offset) {
        Err(Failure::UnsupportedStructure)
    } else {
        match object::object_at(b, offset, None, Some("XRef"@)) {
            Err(failure) => Err(failure),
            Ok((reference, object)) => match value::dict_in(Some(object.value)) {
                None => Err(Failure::UnsupportedStructure),
                Some(dict) => {
                    let root = match root {
                        Some(root) => Some(root),
                        None => value::ref_in(value::entry(dict, "Root"@)),
                    };
                    let size = value::integer_entry(dict, "Size"@, MAX_XREF_ENTRIES as int);
                    if xref::is_unsupported(dict) {
                        Err(Failure::UnsupportedStructure)
                    } else if root is None || size is None || !xref::size_shrinks(
                        size->0,
                        newest,
                    ) {
                        Err(Failure::CorruptedPdf)
                    } else {
                        match stream_rows(object) {
                            Err(failure) => Err(failure),
                            Ok(own) => if !lists_itself(own, reference, offset) || total
                                + own.len() > MAX_XREF_ENTRIES || !none_beyond(own, offset) {
                                Err(Failure::CorruptedPdf)
                            } else {
                                let rows = xref::merged(rows, own, 0);
                                match value::entry(dict, "Prev"@) {
                                    None => Ok((rows, root->0)),
                                    Some(previous) => match xref::previous_offset(
                                        previous,
                                        offset,
                                    ) {
                                        None => Err(Failure::CorruptedPdf),
                                        Some(target) => stream_chain(
                                            b,
                                            target as int,
                                            rows,
                                            root,
                                            xref::or_else(newest, size->0),
                                            total + own.len(),
                                            (rounds - 1) as nat,
                                        ),
                                    },
                                }
                            },
                        }
                    }
                },
            },
        }
    }
}

/// The entries of all revisions from the stream at `start` back, and the root.
pub open spec fn stream_index(b: Seq<u8>, start: int) -> Result<
    (Seq<(u32, XrefEntry)>, PdfRef),
    Failure,
> {
    stream_chain(b, start, Seq::empty(), None, None, 0, MAX_XREF_REVISIONS as nat)
}

fn all_before(rows: &Entries, offset: usize) -> (r: bool)
    ensures
        r == none_beyond(rows@, offset as int),
{
    let mut i: usize = 0;
    while i < rows.len()
        invariant
            i <= rows@.len(),
            forall|k: int|
                0 <= k < i ==> ((#[trigger] rows@[k]).1 matches XrefEntry::Direct {
                    offset: target,
                    ..
                } ==> target <= offset),
        decreases rows@.len() - i,
    {
        let entry: XrefEntry = *rows.value_at(i);
        if let XrefEntry::Direct { offset: target, generation: _ } = entry {
            if target > offset {
                assert(!(rows@[i as int].1 matches XrefEntry::Direct { offset: target, .. }
                    ==> target <= offset));
                return false;
            }
        }
        i += 1;
    }
    true
}

/// Follows the revisions of cross-reference streams back to the first one.
pub fn read_xref_stream_chain<F: Fn() -> bool>(bytes: &[u8], start: usize, should_stop: &F) -> (r:
    Result<Index, PdfError>)
    requires
        should_stop.requires(()),
    ensures
        settles(r, stream_index(bytes@, start as int), *should_stop),
        r is Ok ==> r->Ok_0.entries.wf(),
{
    let mut offset: usize = start;
    let mut entries: Entries = Table::new();
    let mut root: Option<PdfRef> = None;
    let mut newest: Option<usize> = None;
    let mut total: usize = 0;
    let mut rounds: usize = MAX_XREF_REVISIONS;
    let ghost goal = stream_index(bytes@, start as int);
    while rounds > 0
        invariant
            should_stop.requires(()),
            rounds <= MAX_XREF_REVISIONS,
            entries.wf(),
            total <= MAX_XREF_ENTRIES,
            goal == stream_index(bytes@, start as int),
            stream_chain(
                bytes@,
                offset as int,
                entries@,
                root,
                newest,
                total as int,
                rounds as nat,
            ) == goal,
        decreases rounds,
    {
        if should_stop() {
            return Err(PdfError::Cancelled);
        }
        if offset >= bytes.len() || bytes[offset] < 48 || bytes[offset] > 57 {
            return Err(PdfError::UnsupportedStructure);
        }
        let (reference, object) = match read_object_at(bytes, offset, None, Some("XRef")) {
            Err(error) => {
                return Err(error);
            },
            Ok(found) => found,
        };
        let dict = match dictionary(&object.value) {
            None => {
                return Err(PdfError::UnsupportedStructure);
            },
            Some(dict) => dict,
        };
        if has_entry(dict, "XRefStm") || has_entry(dict, "Encrypt") {
            return Err(PdfError::UnsupportedStructure);
        }
        if root.is_none() {
            root = reference_value(lookup(dict, "Root"));
            if root.is_none() {
                return Err(PdfError::CorruptedPdf);
            }
        }
        let size: usize = match required_pdf_integer(dict, "Size", MAX_XREF_ENTRIES) {
            Err(error) => {
                return Err(error);
            },
            Ok(size) => size,
        };
        let shrinks: bool = match newest {
            Some(latest) => size <= latest,
            None => true,
        };
        if !shrinks {
            return Err(PdfError::CorruptedPdf);
        }
        if newest.is_none() {
            newest = Some(size);
        }
        let own = match parse_xref_stream(&object, should_stop) {
            Err(error) => {
                return Err(error);
            },
            Ok(own) => own,
        };
        let listed: bool = match own.get(&reference.object) {
            Some(entry) => *entry == (XrefEntry::Direct {
                offset,
                generation: reference.generation,
            }),
            None => false,
        };
        if !listed || own.len() > MAX_XREF_ENTRIES - total || !all_before(&own, offset) {
            return Err(PdfError::CorruptedPdf);
        }
        total += own.len();
        xref::merge(&mut entries, &own);
        match lookup(dict, "Prev") {
            None => match root {
                Some(root) => {
                    return Ok(Index { entries, root });
                },
                None => {
                    return Err(PdfError::CorruptedPdf);
                },
            },
            Some(previous) => match read_previous(previous, offset) {
                None => {
                    return Err(PdfError::CorruptedPdf);
                },
                Some(target) => {
                    offset = target;
                },
            },
        }
        rounds -= 1;
    }
    Err(PdfError::UnsupportedStructure)
}

} // verus!
