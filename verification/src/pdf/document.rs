//! The objects of a whole file.

use vstd::prelude::*;

use crate::pdf::error::{settles, stopped, Failure, PdfError};
use crate::pdf::filter;
use crate::pdf::filter::decode_stream_with_control;
use crate::pdf::lexer;
use crate::pdf::lexer::{is_keyword, Lexeme, Place, Token, Tokenizer};
use crate::pdf::number::bounded_pdf_integer;
use crate::pdf::object;
use crate::pdf::object::{
    get_object, read_object_at, read_optional_stream, Entries, Objects, PdfObject, Thing,
    XrefEntry,
};
use crate::pdf::value;
use crate::pdf::value::{
    dictionary, has_entry, is_name, lookup, parse_value, required_pdf_integer, Datum, PdfRef,
    PdfValue,
};
use crate::pdf::xref;
use crate::pdf::xref::{
    read_xref_table_chain, read_xref_table_revision, verify_xref_structure, XrefLocation,
    MAX_OBJECT_STREAM_OBJECTS,
};
use crate::pdf::xref_stream;
use crate::pdf::xref_stream::read_xref_stream_chain;
use crate::stopping;
use crate::table;
use crate::table::Table;

verus! {

/// An object number occurs among the offsets.
pub open spec fn numbered(offsets: Seq<(u32, usize)>, number: u32) -> bool {
    exists|j: int| 0 <= j < offsets.len() && (#[trigger] offsets[j]).0 == number
}

/// The object numbers and offsets that the header of an object stream lists:
/// `count` more behind `offsets`.
pub open spec fn offsets_from(
    header: Seq<u8>,
    place: Place,
    length: int,
    count: int,
    offsets: Seq<(u32, usize)>,
) -> Option<Seq<(u32, usize)>>
    decreases count,
{
    if count <= 0 {
        if lexer::space_end(header, place.pos, false) == header.len() {
            Some(offsets)
        } else {
            None
        }
    } else {
        let (first, p1) = lexer::step(header, place);
        let (second, p2) = lexer::step(header, p1);
        match (first, second) {
            (Some(Lexeme::Number(number)), Some(Lexeme::Number(offset))) => match (
                number.bounded_spec(u32::MAX as int),
                offset.bounded_spec(length - header.len()),
            ) {
                (Some(number), Some(offset)) => if header.len() + offset >= length || number == 0
                    || numbered(offsets, number as u32) || (offsets.len() > 0 && offsets.last().1
                    >= offset) {
                    None
                } else {
                    offsets_from(
                        header,
                        p2,
                        length,
                        count - 1,
                        offsets.push((number as u32, offset)),
                    )
                },
                _ => None,
            },
            _ => None,
        }
    }
}

/// The offsets ascend and lie within the data.
pub open spec fn offsets_ascend(offsets: Seq<(u32, usize)>, first: int, length: int) -> bool {
    &&& forall|i: int, j: int|
        0 <= i < j < offsets.len() ==> (#[trigger] offsets[i]).1 < (#[trigger] offsets[j]).1
    &&& forall|i: int| 0 <= i < offsets.len() ==> first + (#[trigger] offsets[i]).1 < length
}

/// Reads the header of an object stream: the first `first` bytes of its data.
pub fn object_stream_offsets(decoded: &[u8], first: usize, count: usize) -> (r: Result<
    Vec<(u32, usize)>,
    PdfError,
>)
    requires
        first <= decoded@.len(),
    ensures
        match offsets_from(
            decoded@.take(first as int),
            object::start_of(decoded@),
            decoded@.len() as int,
            count as int,
            Seq::empty(),
        ) {
            Some(offsets) => r is Ok && r->Ok_0@ == offsets && offsets_ascend(
                offsets,
                first as int,
                decoded@.len() as int,
            ),
            None => r is Err && r->Err_0@ == Failure::CorruptedPdf,
        },
{
    let header = vstd::slice::slice_subrange(decoded, 0, first);
    assert(header@ =~= decoded@.take(first as int));
    let ghost h = header@;
    let ghost length = decoded@.len() as int;
    let mut tokens = Tokenizer::new(header);
    let mut offsets: Vec<(u32, usize)> = Vec::new();
    let mut seen: Table<u32, u32> = Table::new();
    let mut left: usize = count;
    let ghost goal = offsets_from(h, tokens.place(), length, count as int, Seq::empty());
    while left > 0
        invariant
            tokens.wf(),
            tokens.bytes@ == h,
            h.len() == first,
            first <= decoded@.len(),
            length == decoded@.len(),
            seen.wf(),
            forall|n: u32|
                numbered(offsets@, n) <==> #[trigger] table::find::<u32, u32>(seen@, n) is Some,
            offsets_ascend(offsets@, first as int, length),
            goal == offsets_from(
                decoded@.take(first as int),
                object::start_of(decoded@),
                decoded@.len() as int,
                count as int,
                Seq::empty(),
            ),
            offsets_from(h, tokens.place(), length, left as int, offsets@) == goal,
        decreases left,
    {
        let number = tokens.next();
        let offset = tokens.next();
        if let (Some(Token::Number(number)), Some(Token::Number(offset))) = (number, offset) {
            if let (Some(number), Some(offset)) = (
                bounded_pdf_integer(number, u32::MAX as usize),
                bounded_pdf_integer(offset, decoded.len() - first),
            ) {
                let key: u32 = number as u32;
                if offset < decoded.len() - first && key != 0 && seen.get(&key).is_none() && (
                offsets.len() == 0 || offsets[offsets.len() - 1].1 < offset) {
                    let ghost before = offsets@;
                    let ghost rows = seen@;
                    seen.insert(key, key);
                    offsets.push((key, offset));
                    proof {
                        assert forall|n: u32|
                            numbered(offsets@, n) <==> #[trigger] table::find::<u32, u32>(
                                seen@,
                                n,
                            ) is Some by {
                            table::law_find_after_put::<u32, u32>(rows, key, key, n);
                            if numbered(before, n) {
                                let j = choose|j: int|
                                    0 <= j < before.len() && (#[trigger] before[j]).0 == n;
                                assert(offsets@[j].0 == n);
                            }
                            if n == key {
                                assert(offsets@[before.len() as int].0 == n);
                            }
                            if numbered(offsets@, n) && n != key {
                                let j = choose|j: int|
                                    0 <= j < offsets@.len() && (#[trigger] offsets@[j]).0 == n;
                                assert(before[j].0 == n);
                            }
                        }
                    }
                    left -= 1;
                    continue;
                }
            }
        }
        return Err(PdfError::CorruptedPdf);
    }
    tokens.skip_space_and_comments();
    if tokens.raw_position() != first {
        return Err(PdfError::CorruptedPdf);
    }
    Ok(offsets)
}

/// The data of an object stream.
pub open spec fn object_stream_data(object: Thing) -> Result<Seq<u8>, Failure> {
    match value::dict_in(Some(object.value)) {
        None => Err(Failure::CorruptedPdf),
        Some(dict) => if value::name_in(value::entry(dict, "Type"@)) != Some("ObjStm"@)
            || value::entry(dict, "DecodeParms"@) is Some {
            Err(Failure::UnsupportedStructure)
        } else {
            filter::decoded(object)
        },
    }
}

/// Decodes an object stream.
pub fn decode_object_stream<F: Fn() -> bool>(object: &PdfObject, should_stop: &F) -> (r: Result<
    Vec<u8>,
    PdfError,
>)
    requires
        value::value_wf(object.value),
        should_stop.requires(()),
    ensures
        settles(r, object_stream_data(object@), *should_stop),
{
    match dictionary(&object.value) {
        None => Err(PdfError::CorruptedPdf),
        Some(dict) => {
            if !is_name(lookup(dict, "Type"), "ObjStm") || has_entry(dict, "DecodeParms") {
                return Err(PdfError::UnsupportedStructure);
            }
            decode_stream_with_control(object, should_stop)
        },
    }
}

/// The objects of the direct entries from `i` on, added to `objects`.
pub open spec fn direct_from(
    b: Seq<u8>,
    entries: Seq<(u32, XrefEntry)>,
    i: int,
    objects: Seq<(u32, Thing)>,
) -> Result<Seq<(u32, Thing)>, Failure>
    decreases entries.len() - i,
{
    if i < 0 || i >= entries.len() {
        Ok(objects)
    } else {
        match entries[i].1 {
            XrefEntry::Direct { offset, generation } => match object::object_at(
                b,
                offset as int,
                Some(entries),
                None,
            ) {
                Err(failure) => Err(failure),
                Ok((reference, object)) => if reference.object != entries[i].0
                    || reference.generation != generation {
                    Err(Failure::CorruptedPdf)
                } else {
                    direct_from(
                        b,
                        entries,
                        i + 1,
                        table::put::<u32, Thing>(objects, entries[i].0, object),
                    )
                },
            },
            _ => direct_from(b, entries, i + 1, objects),
        }
    }
}

/// The compressed entries from `i` on, added to `groups`: by the number of
/// their object stream, object numbers and indices in order.
pub open spec fn groups_from(
    entries: Seq<(u32, XrefEntry)>,
    i: int,
    groups: Seq<(u32, Seq<(u32, usize)>)>,
) -> Seq<(u32, Seq<(u32, usize)>)>
    decreases entries.len() - i,
{
    if i < 0 || i >= entries.len() {
        groups
    } else {
        match entries[i].1 {
            XrefEntry::Compressed { stream_number, index } => {
                let known = match table::find::<u32, Seq<(u32, usize)>>(groups, stream_number) {
                    Some(known) => known,
                    None => Seq::empty(),
                };
                groups_from(
                    entries,
                    i + 1,
                    table::put::<u32, Seq<(u32, usize)>>(
                        groups,
                        stream_number,
                        known.push((entries[i].0, index)),
                    ),
                )
            },
            _ => groups_from(entries, i + 1, groups),
        }
    }
}

/// The value that an object stream holds for object `number` at `index`.
pub open spec fn member(
    data: Seq<u8>,
    first: int,
    offsets: Seq<(u32, usize)>,
    number: u32,
    index: int,
) -> Option<Datum> {
    if index >= offsets.len() || offsets[index].0 != number {
        None
    } else {
        let end = if index + 1 < offsets.len() {
            first + offsets[index + 1].1
        } else {
            data.len() as int
        };
        let s = data.subrange(first + offsets[index].1, end);
        match value::value_at(s, object::start_of(s), 0) {
            None => None,
            Some((value, place)) => if lexer::space_end(s, place.pos, false) == s.len() {
                Some(value)
            } else {
                None
            },
        }
    }
}

/// The members from `i` on, added to `objects`.
pub open spec fn members_from(
    data: Seq<u8>,
    first: int,
    offsets: Seq<(u32, usize)>,
    references: Seq<(u32, usize)>,
    i: int,
    objects: Seq<(u32, Thing)>,
) -> Result<Seq<(u32, Thing)>, Failure>
    decreases references.len() - i,
{
    if i < 0 || i >= references.len() {
        Ok(objects)
    } else {
        match member(data, first, offsets, references[i].0, references[i].1 as int) {
            None => Err(Failure::CorruptedPdf),
            Some(value) => members_from(
                data,
                first,
                offsets,
                references,
                i + 1,
                table::put::<u32, Thing>(
                    objects,
                    references[i].0,
                    Thing { value, stream: None },
                ),
            ),
        }
    }
}

/// The members of one object stream, added to `objects`.
pub open spec fn with_stream(
    object: Thing,
    references: Seq<(u32, usize)>,
    objects: Seq<(u32, Thing)>,
) -> Result<Seq<(u32, Thing)>, Failure> {
    match object_stream_data(object) {
        Err(failure) => Err(failure),
        Ok(data) => match value::dict_in(Some(object.value)) {
            None => Err(Failure::CorruptedPdf),
            Some(dict) => match (
                value::integer_entry(dict, "First"@, data.len() as int),
                value::integer_entry(dict, "N"@, MAX_OBJECT_STREAM_OBJECTS as int),
            ) {
                (Some(first), Some(count)) => match offsets_from(
                    data.take(first as int),
                    object::start_of(data),
                    data.len() as int,
                    count as int,
                    Seq::empty(),
                ) {
                    None => Err(Failure::CorruptedPdf),
                    Some(offsets) => members_from(
                        data,
                        first as int,
                        offsets,
                        references,
                        0,
                        objects,
                    ),
                },
                _ => Err(Failure::CorruptedPdf),
            },
        },
    }
}

/// The members of the object streams from `g` on, added to `objects`.
pub open spec fn streams_from(
    entries: Seq<(u32, XrefEntry)>,
    groups: Seq<(u32, Seq<(u32, usize)>)>,
    g: int,
    objects: Seq<(u32, Thing)>,
) -> Result<Seq<(u32, Thing)>, Failure>
    decreases groups.len() - g,
{
    if g < 0 || g >= groups.len() {
        Ok(objects)
    } else {
        match (object::entry_of(entries, groups[g].0), object::object_in(objects, groups[g].0)) {
            (Some(XrefEntry::Direct { offset: _, generation }), Some(object)) => if generation
                != 0 {
                Err(Failure::CorruptedPdf)
            } else {
                match with_stream(object, groups[g].1, objects) {
                    Err(failure) => Err(failure),
                    Ok(objects) => streams_from(entries, groups, g + 1, objects),
                }
            },
            _ => Err(Failure::CorruptedPdf),
        }
    }
}

/// The entries have an object in use under that reference.
pub open spec fn in_use(entries: Seq<(u32, XrefEntry)>, reference: PdfRef) -> bool {
    match object::entry_of(entries, reference.object) {
        Some(XrefEntry::Direct { offset: _, generation }) => generation == reference.generation,
        Some(XrefEntry::Compressed { .. }) => reference.generation == 0,
        _ => false,
    }
}

/// Every reference within a value is to an object in use.
pub open spec fn references_valid(value: Datum, entries: Seq<(u32, XrefEntry)>) -> bool
    decreases value,
{
    match value {
        Datum::Ref(reference) => in_use(entries, reference),
        Datum::Array(items) => forall|i: int|
            0 <= i < items.len() ==> references_valid(#[trigger] items[i], entries),
        Datum::Dict(dict) => forall|i: int|
            0 <= i < dict.len() ==> references_valid((#[trigger] dict[i]).1, entries),
        _ => true,
    }
}

/// Every reference within every object is to an object in use.
pub open spec fn all_references_valid(
    objects: Seq<(u32, Thing)>,
    entries: Seq<(u32, XrefEntry)>,
) -> bool {
    forall|i: int|
        0 <= i < objects.len() ==> references_valid((#[trigger] objects[i]).1.value, entries)
}

/// What the entries of a file lead to.
pub open spec fn indexed_objects(
    b: Seq<u8>,
    entries: Seq<(u32, XrefEntry)>,
    root: PdfRef,
) -> Result<Seq<(u32, Thing)>, Failure> {
    match direct_from(b, entries, 0, Seq::empty()) {
        Err(failure) => Err(failure),
        Ok(direct) => match streams_from(
            entries,
            groups_from(entries, 0, Seq::empty()),
            0,
            direct,
        ) {
            Err(failure) => Err(failure),
            Ok(objects) => match object::object_in(objects, root.object) {
                None => Err(Failure::CorruptedPdf),
                Some(catalog) => if in_use(entries, root) && object::has_type(
                    catalog.value,
                    Some("Catalog"@),
                ) && all_references_valid(objects, entries) {
                    Ok(objects)
                } else {
                    Err(Failure::CorruptedPdf)
                },
            },
        },
    }
}

fn is_in_use(entries: &Entries, reference: PdfRef) -> (r: bool)
    requires
        entries.wf(),
    ensures
        r == in_use(entries@, reference),
{
    match entries.get(&reference.object) {
        Some(XrefEntry::Direct { offset: _, generation }) => *generation == reference.generation,
        Some(XrefEntry::Compressed { .. }) => reference.generation == 0,
        _ => false,
    }
}

proof fn lemma_invalid(value: Datum, i: int, entries: Seq<(u32, XrefEntry)>)
    ensures
        value matches Datum::Array(items) ==> 0 <= i < items.len() && !references_valid(
            items[i],
            entries,
        ) ==> !references_valid(value, entries),
        value matches Datum::Dict(dict) ==> 0 <= i < dict.len() && !references_valid(
            dict[i].1,
            entries,
        ) ==> !references_valid(value, entries),
{
}

fn has_valid_references(value: &PdfValue, entries: &Entries) -> (r: bool)
    requires
        entries.wf(),
    ensures
        r == references_valid(value@, entries@),
    decreases *value,
{
    proof {
        value::lemma_datum(*value);
    }
    match value {
        PdfValue::Ref(reference) => is_in_use(entries, *reference),
        PdfValue::Array(items) => {
            let ghost all = value::data(items@);
            let mut i: usize = 0;
            while i < items.len()
                invariant
                    i <= items@.len(),
                    entries.wf(),
                    all == value::data(items@),
                    value@ == Datum::Array(all),
                    decreases_to!(*value => items@),
                    forall|k: int| 0 <= k < i ==> references_valid(#[trigger] all[k], entries@),
                decreases items@.len() - i,
            {
                assert(all[i as int] == items@[i as int]@);
                if !has_valid_references(&items[i], entries) {
                    proof {
                        lemma_invalid(value@, i as int, entries@);
                    }
                    return false;
                }
                i += 1;
            }
            true
        },
        PdfValue::Dict(dict) => {
            let mut i: usize = 0;
            while i < dict.rows.len()
                invariant
                    i <= dict.rows@.len(),
                    entries.wf(),
                    value@ == Datum::Dict(dict@),
                    decreases_to!(*value => dict.rows@),
                    forall|k: int|
                        0 <= k < i ==> references_valid((#[trigger] dict@[k]).1, entries@),
                decreases dict.rows@.len() - i,
            {
                assert(dict@[i as int].1 == dict.rows@[i as int].1@);
                assert(decreases_to!(dict.rows@ => dict.rows@[i as int]));
                assert(decreases_to!(dict.rows@[i as int] => dict.rows@[i as int].1));
                if !has_valid_references(&dict.rows[i].1, entries) {
                    proof {
                        lemma_invalid(value@, i as int, entries@);
                    }
                    return false;
                }
                i += 1;
            }
            true
        },
        _ => true,
    }
}

/// Checks that every reference within every object is to an object in use.
pub fn validate_indexed_references(objects: &Objects, entries: &Entries) -> (r: Result<
    (),
    PdfError,
>)
    requires
        entries.wf(),
    ensures
        if all_references_valid(objects@, entries@) {
            r is Ok
        } else {
            r is Err && r->Err_0@ == Failure::CorruptedPdf
        },
{
    let mut i: usize = 0;
    while i < objects.rows.len()
        invariant
            i <= objects.rows@.len(),
            entries.wf(),
            forall|k: int|
                0 <= k < i ==> references_valid((#[trigger] objects@[k]).1.value, entries@),
        decreases objects.rows@.len() - i,
    {
        assert(objects@[i as int].1.value == objects.rows@[i as int].1.value@);
        if !has_valid_references(&objects.rows[i].1.value, entries) {
            return Err(PdfError::CorruptedPdf);
        }
        i += 1;
    }
    Ok(())
}

fn read_direct<F: Fn() -> bool>(bytes: &[u8], entries: &Entries, should_stop: &F) -> (r: Result<
    Objects,
    PdfError,
>)
    requires
        entries.wf(),
        should_stop.requires(()),
    ensures
        settles(r, direct_from(bytes@, entries@, 0, Seq::empty()), *should_stop),
        r is Ok ==> object::objects_wf(r->Ok_0),
{
    let mut objects: Objects = Table::new();
    let mut i: usize = 0;
    let ghost goal = direct_from(bytes@, entries@, 0, Seq::empty());
    while i < entries.len()
        invariant
            i <= entries@.len(),
            entries.wf(),
            should_stop.requires(()),
            object::objects_wf(objects),
            goal == direct_from(bytes@, entries@, 0, Seq::empty()),
            direct_from(bytes@, entries@, i as int, objects@) == goal,
        decreases entries@.len() - i,
    {
        if i % 256 == 0 && should_stop() {
            return Err(PdfError::Cancelled);
        }
        let number: u32 = *entries.key_at(i);
        let entry: XrefEntry = *entries.value_at(i);
        if let XrefEntry::Direct { offset, generation } = entry {
            match read_object_at(bytes, offset, Some(entries), None) {
                Err(error) => {
                    return Err(error);
                },
                Ok((reference, object)) => {
                    if reference.object != number || reference.generation != generation {
                        return Err(PdfError::CorruptedPdf);
                    }
                    objects.insert(number, object);
                },
            }
        }
        i += 1;
    }
    Ok(objects)
}

fn group_compressed(entries: &Entries) -> (r: Table<u32, Vec<(u32, usize)>>)
    ensures
        r.wf(),
        r@ == groups_from(entries@, 0, Seq::empty()),
{
    let mut groups: Table<u32, Vec<(u32, usize)>> = Table::new();
    let mut i: usize = 0;
    while i < entries.rows.len()
        invariant
            i <= entries.rows@.len(),
            groups.wf(),
            groups_from(entries@, i as int, groups@) == groups_from(entries@, 0, Seq::empty()),
        decreases entries.rows@.len() - i,
    {
        let number: u32 = entries.rows[i].0;
        let entry: XrefEntry = entries.rows[i].1;
        assert(entries@[i as int] == (number, entry));
        if let XrefEntry::Compressed { stream_number, index } = entry {
            let mut members: Vec<(u32, usize)> = Vec::new();
            if let Some(known) = groups.get(&stream_number) {
                let mut k: usize = 0;
                while k < known.len()
                    invariant
                        k <= known@.len(),
                        members@ == known@.take(k as int),
                    decreases known@.len() - k,
                {
                    members.push(known[k]);
                    k += 1;
                    assert(members@ =~= known@.take(k as int));
                }
                assert(members@ =~= known@);
            }
            members.push((number, index));
            groups.insert(stream_number, members);
        }
        i += 1;
    }
    groups
}

fn read_member(
    data: &[u8],
    first: usize,
    offsets: &Vec<(u32, usize)>,
    number: u32,
    index: usize,
) -> (r: Option<PdfValue>)
    requires
        offsets_ascend(offsets@, first as int, data@.len() as int),
    ensures
        match r {
            Some(value) => member(data@, first as int, offsets@, number, index as int) == Some(
                value@,
            ) && value::value_wf(value),
            None => member(data@, first as int, offsets@, number, index as int) is None,
        },
{
    if index >= offsets.len() || offsets[index].0 != number {
        return None;
    }
    assert(data.len() <= usize::MAX);
    assert(first + offsets@[index as int].1 < data@.len());
    let start: usize = first + offsets[index].1;
    let end: usize = if offsets.len() - index > 1 {
        assert(first + offsets@[index + 1].1 < data@.len());
        assert(offsets@[index as int].1 < offsets@[index + 1].1);
        first + offsets[index + 1].1
    } else {
        data.len()
    };
    let slice = vstd::slice::slice_subrange(data, start, end);
    let mut tokens = Tokenizer::new(slice);
    match parse_value(&mut tokens) {
        Err(_) => None,
        Ok(value) => {
            tokens.skip_space_and_comments();
            if tokens.raw_position() != slice.len() {
                return None;
            }
            Some(value)
        },
    }
}

fn read_members(
    data: &[u8],
    first: usize,
    offsets: &Vec<(u32, usize)>,
    references: &Vec<(u32, usize)>,
    objects: &mut Objects,
) -> (r: Result<(), PdfError>)
    requires
        offsets_ascend(offsets@, first as int, data@.len() as int),
        object::objects_wf(*old(objects)),
    ensures
        object::objects_wf(*final(objects)),
        match members_from(
            data@,
            first as int,
            offsets@,
            references@,
            0,
            old(objects)@,
        ) {
            Ok(after) => r is Ok && final(objects)@ == after,
            Err(failure) => r is Err && r->Err_0@ == failure,
        },
{
    let ghost goal = members_from(data@, first as int, offsets@, references@, 0, objects@);
    let mut i: usize = 0;
    while i < references.len()
        invariant
            i <= references@.len(),
            offsets_ascend(offsets@, first as int, data@.len() as int),
            object::objects_wf(*objects),
            goal == members_from(
                data@,
                first as int,
                offsets@,
                references@,
                0,
                old(objects)@,
            ),
            members_from(data@, first as int, offsets@, references@, i as int, objects@) == goal,
        decreases references@.len() - i,
    {
        let (number, index): (u32, usize) = references[i];
        match read_member(data, first, offsets, number, index) {
            None => {
                return Err(PdfError::CorruptedPdf);
            },
            Some(value) => {
                objects.insert(number, PdfObject { value, stream: None });
            },
        }
        i += 1;
    }
    Ok(())
}

/// What `with_stream` needs of an object stream: its data, the length of its
/// header and the offsets in it.
struct StreamHeader {
    data: Vec<u8>,
    first: usize,
    offsets: Vec<(u32, usize)>,
}

fn read_stream_header<F: Fn() -> bool>(object: &PdfObject, should_stop: &F) -> (r: Result<
    StreamHeader,
    PdfError,
>)
    requires
        value::value_wf(object.value),
        should_stop.requires(()),
    ensures
        stopped(r, *should_stop) || match r {
            Ok(header) => offsets_ascend(
                header.offsets@,
                header.first as int,
                header.data@.len() as int,
            ) && forall|references: Seq<(u32, usize)>, objects: Seq<(u32, Thing)>|
                #[trigger] with_stream(object@, references, objects) == members_from(
                    header.data@,
                    header.first as int,
                    header.offsets@,
                    references,
                    0,
                    objects,
                ),
            Err(error) => forall|references: Seq<(u32, usize)>, objects: Seq<(u32, Thing)>|
                #[trigger] with_stream(object@, references, objects) == Err::<
                    Seq<(u32, Thing)>,
                    Failure,
                >(error@),
        },
{
    let data = match decode_object_stream(object, should_stop) {
        Err(error) => {
            return Err(error);
        },
        Ok(data) => data,
    };
    let dict = match dictionary(&object.value) {
        None => {
            return Err(PdfError::CorruptedPdf);
        },
        Some(dict) => dict,
    };
    let first: usize = match required_pdf_integer(dict, "First", data.len()) {
        Err(error) => {
            return Err(error);
        },
        Ok(first) => first,
    };
    let count: usize = match required_pdf_integer(dict, "N", MAX_OBJECT_STREAM_OBJECTS) {
        Err(error) => {
            return Err(error);
        },
        Ok(count) => count,
    };
    match object_stream_offsets(data.as_slice(), first, count) {
        Err(error) => Err(error),
        Ok(offsets) => Ok(StreamHeader { data, first, offsets }),
    }
}

fn read_streams<F: Fn() -> bool>(
    entries: &Entries,
    groups: &Table<u32, Vec<(u32, usize)>>,
    objects: &mut Objects,
    should_stop: &F,
) -> (r: Result<(), PdfError>)
    requires
        entries.wf(),
        object::objects_wf(*old(objects)),
        should_stop.requires(()),
    ensures
        object::objects_wf(*final(objects)),
        stopped(r, *should_stop) || match streams_from(entries@, groups@, 0, old(objects)@) {
            Ok(after) => r is Ok && final(objects)@ == after,
            Err(failure) => r is Err && r->Err_0@ == failure,
        },
{
    let ghost goal = streams_from(entries@, groups@, 0, objects@);
    let mut g: usize = 0;
    while g < groups.rows.len()
        invariant
            g <= groups.rows@.len(),
            entries.wf(),
            object::objects_wf(*objects),
            should_stop.requires(()),
            goal == streams_from(entries@, groups@, 0, old(objects)@),
            streams_from(entries@, groups@, g as int, objects@) == goal,
        decreases groups.rows@.len() - g,
    {
        if g % 16 == 0 && should_stop() {
            return Err(PdfError::Cancelled);
        }
        let number: u32 = groups.rows[g].0;
        assert(groups@[g as int] == (number, groups.rows@[g as int].1@));
        let direct: bool = match entries.get(&number) {
            Some(XrefEntry::Direct { offset: _, generation }) => *generation == 0,
            _ => false,
        };
        if !direct {
            return Err(PdfError::CorruptedPdf);
        }
        let header = match get_object(objects, number) {
            None => {
                return Err(PdfError::CorruptedPdf);
            },
            Some(object) => match read_stream_header(object, should_stop) {
                Err(error) => {
                    return Err(error);
                },
                Ok(header) => header,
            },
        };
        match read_members(
            header.data.as_slice(),
            header.first,
            &header.offsets,
            &groups.rows[g].1,
            objects,
        ) {
            Err(error) => {
                return Err(error);
            },
            Ok(()) => {},
        }
        g += 1;
    }
    Ok(())
}

/// Reads the objects that a file's entries lead to.
pub fn parse_indexed_objects<F: Fn() -> bool>(
    bytes: &[u8],
    entries: &Entries,
    root: PdfRef,
    should_stop: &F,
) -> (r: Result<Objects, PdfError>)
    requires
        entries.wf(),
        should_stop.requires(()),
    ensures
        settles(r, indexed_objects(bytes@, entries@, root), *should_stop),
        r is Ok ==> object::objects_wf(r->Ok_0),
{
    let mut objects = match read_direct(bytes, entries, should_stop) {
        Err(error) => {
            return Err(error);
        },
        Ok(objects) => objects,
    };
    let groups = group_compressed(entries);
    match read_streams(entries, &groups, &mut objects, should_stop) {
        Err(error) => {
            return Err(error);
        },
        Ok(()) => {},
    }
    let catalog: bool = match get_object(&objects, root.object) {
        None => false,
        Some(object) => match dictionary(&object.value) {
            None => false,
            Some(dict) => is_name(lookup(dict, "Type"), "Catalog"),
        },
    };
    if !catalog || !is_in_use(entries, root) {
        return Err(PdfError::CorruptedPdf);
    }
    match validate_indexed_references(&objects, entries) {
        Err(error) => Err(error),
        Ok(()) => Ok(objects),
    }
}

/// The place behind the `endobj` that comes next, or behind the last token.
pub open spec fn past_object(b: Seq<u8>, place: Place) -> Place
    decreases lexer::left(b, place),
{
    let (token, after) = lexer::step(b, place);
    match token {
        None => after,
        Some(Lexeme::Keyword(word)) => if word == "endobj"@ || !value::shrinks(b, place, after) {
            after
        } else {
            past_object(b, after)
        },
        Some(_) => if value::shrinks(b, place, after) {
            past_object(b, after)
        } else {
            after
        },
    }
}

/// What a trailer at `place` forbids: nothing, if none is there.
pub open spec fn trailer_at(b: Seq<u8>, place: Place) -> Option<Failure> {
    let ahead = lexer::look(b, place);
    if ahead.ahead != Some(Lexeme::StartDictionary) {
        None
    } else {
        match value::value_at(b, ahead, 0) {
            Some((Datum::Dict(dict), _)) => if value::entry(dict, "XRefStm"@) is Some
                || value::entry(dict, "Prev"@) is Some {
                Some(Failure::UnsupportedStructure)
            } else {
                None
            },
            _ => Some(Failure::CorruptedPdf),
        }
    }
}

/// The object whose number, generation and keyword end at `place`, and the
/// place behind it.
pub open spec fn scanned_object(
    b: Seq<u8>,
    place: Place,
    number: crate::pdf::number::PdfNumber,
    generation: crate::pdf::number::PdfNumber,
    xref_offset: Option<usize>,
) -> Result<(u32, Thing, Place), Failure> {
    match (
        number.bounded_spec(u32::MAX as int),
        generation.bounded_spec(u16::MAX as int),
        value::value_at(b, place, 0),
    ) {
        (Some(number), Some(_), Some((value, after))) => if object::has_type(
            value,
            Some("ObjStm"@),
        ) || object::has_type(value, Some("XRef"@)) {
            Err(Failure::UnsupportedStructure)
        } else {
            match object::stream_after(b, after, value, xref_offset, None) {
                Err(failure) => Err(failure),
                Ok((stream, behind)) => Ok(
                    (number as u32, Thing { value, stream }, past_object(b, behind)),
                ),
            }
        },
        _ => Err(Failure::CorruptedPdf),
    }
}

/// The objects that stand in the file from `place` on, added to `objects`.
pub open spec fn scan(
    b: Seq<u8>,
    place: Place,
    xref_offset: Option<usize>,
    objects: Seq<(u32, Thing)>,
) -> Result<Seq<(u32, Thing)>, Failure>
    decreases lexer::left(b, place),
{
    let (t1, p1) = lexer::step(b, place);
    let (t2, p2) = lexer::step(b, p1);
    let (t3, p3) = lexer::step(b, p2);
    if t1 is None {
        if objects.len() == 0 {
            Err(Failure::InvalidPdf)
        } else {
            Ok(objects)
        }
    } else if !value::shrinks(b, place, p1) || !value::shrinks(b, place, p2) || !value::shrinks(
        b,
        place,
        p3,
    ) {
        Err(Failure::CorruptedPdf)
    } else if t1 == Some(Lexeme::Keyword("trailer"@)) {
        match trailer_at(b, p1) {
            Some(failure) => Err(failure),
            None => scan(b, p1, xref_offset, objects),
        }
    } else {
        match (t1, t2) {
            (Some(Lexeme::Number(number)), Some(Lexeme::Number(generation))) => if t3 != Some(
                Lexeme::Keyword("obj"@),
            ) {
                scan(b, p3, xref_offset, objects)
            } else {
                match scanned_object(b, p3, number, generation, xref_offset) {
                    Err(failure) => Err(failure),
                    Ok((number, object, after)) => if value::shrinks(b, place, after) {
                        scan(
                            b,
                            after,
                            xref_offset,
                            table::put::<u32, Thing>(objects, number, object),
                        )
                    } else {
                        Err(Failure::CorruptedPdf)
                    },
                }
            },
            (Some(Lexeme::Number(_)), _) => scan(b, p2, xref_offset, objects),
            _ => scan(b, p1, xref_offset, objects),
        }
    }
}

/// The objects of a file, and the root that its cross-reference data names.
pub open spec fn document(b: Seq<u8>) -> Result<(Seq<(u32, Thing)>, Option<PdfRef>), Failure> {
    match xref::location(b) {
        Err(failure) => Err(failure),
        Ok(XrefLocation::Missing) => scanned(b, None),
        Ok(XrefLocation::Table(offset)) => match xref::revision_at(b, offset as int) {
            Err(failure) => Err(failure),
            Ok(latest) => if xref::is_unsupported(latest.trailer) {
                Err(Failure::UnsupportedStructure)
            } else if value::entry(latest.trailer, "Prev"@) is Some {
                indexed(b, xref::table_index(b, offset as int, latest))
            } else {
                scanned(b, Some(offset))
            },
        },
        Ok(XrefLocation::Stream(offset)) => indexed(
            b,
            xref_stream::stream_index(b, offset as int),
        ),
    }
}

pub open spec fn scanned(b: Seq<u8>, xref_offset: Option<usize>) -> Result<
    (Seq<(u32, Thing)>, Option<PdfRef>),
    Failure,
> {
    match scan(b, object::start_of(b), xref_offset, Seq::empty()) {
        Err(failure) => Err(failure),
        Ok(objects) => Ok((objects, None)),
    }
}

pub open spec fn indexed(
    b: Seq<u8>,
    index: Result<(Seq<(u32, XrefEntry)>, PdfRef), Failure>,
) -> Result<(Seq<(u32, Thing)>, Option<PdfRef>), Failure> {
    match index {
        Err(failure) => Err(failure),
        Ok((entries, root)) => match indexed_objects(b, entries, root) {
            Err(failure) => Err(failure),
            Ok(objects) => Ok((objects, Some(root))),
        },
    }
}

/// The objects of a file, and the root that its cross-reference data names.
#[derive(Debug)]
pub struct Document {
    pub objects: Objects,
    pub root: Option<PdfRef>,
}

impl View for Document {
    type V = (Seq<(u32, Thing)>, Option<PdfRef>);

    open spec fn view(&self) -> (Seq<(u32, Thing)>, Option<PdfRef>) {
        (self.objects@, self.root)
    }
}

impl Document {
    pub open spec fn wf(&self) -> bool {
        object::objects_wf(self.objects)
    }
}

fn skip_past_object(tokens: &mut Tokenizer<'_>)
    requires
        old(tokens).wf(),
    ensures
        final(tokens).wf(),
        final(tokens).bytes@ == old(tokens).bytes@,
        final(tokens).place() == past_object(old(tokens).bytes@, old(tokens).place()),
        lexer::left(old(tokens).bytes@, final(tokens).place()) <= lexer::left(
            old(tokens).bytes@,
            old(tokens).place(),
        ),
{
    let ghost b = tokens.bytes@;
    loop
        invariant
            tokens.wf(),
            tokens.bytes@ == b,
            b == old(tokens).bytes@,
            past_object(b, tokens.place()) == past_object(b, old(tokens).place()),
            lexer::left(b, tokens.place()) <= lexer::left(b, old(tokens).place()),
        decreases lexer::left(b, tokens.place()),
    {
        let token = tokens.next();
        if token.is_none() || is_keyword(&token, "endobj") {
            return;
        }
    }
}

fn check_trailer(tokens: &Tokenizer<'_>) -> (r: Result<(), PdfError>)
    requires
        tokens.wf(),
    ensures
        match trailer_at(tokens.bytes@, tokens.place()) {
            None => r is Ok,
            Some(failure) => r is Err && r->Err_0@ == failure,
        },
{
    let mut probe = tokens.probe();
    if let Some(Token::StartDictionary) = probe.peek() {
        match parse_value(&mut probe) {
            Err(error) => {
                return Err(error);
            },
            Ok(trailer) => match dictionary(&trailer) {
                None => {
                    return Err(PdfError::CorruptedPdf);
                },
                Some(dict) => {
                    if has_entry(dict, "XRefStm") || has_entry(dict, "Prev") {
                        return Err(PdfError::UnsupportedStructure);
                    }
                },
            },
        }
    }
    Ok(())
}

fn read_scanned_object(
    tokens: &mut Tokenizer<'_>,
    number: crate::pdf::number::PdfNumber,
    generation: crate::pdf::number::PdfNumber,
    xref_offset: Option<usize>,
) -> (r: Result<(u32, PdfObject), PdfError>)
    requires
        old(tokens).wf(),
    ensures
        final(tokens).wf(),
        final(tokens).bytes@ == old(tokens).bytes@,
        match scanned_object(
            old(tokens).bytes@,
            old(tokens).place(),
            number,
            generation,
            xref_offset,
        ) {
            Ok((number, object, place)) => r is Ok && (r->Ok_0).0 == number && (r->Ok_0).1@
                == object && value::value_wf((r->Ok_0).1.value) && final(tokens).place() == place
                && lexer::left(old(tokens).bytes@, place) <= lexer::left(
                old(tokens).bytes@,
                old(tokens).place(),
            ) + 1,
            Err(failure) => r is Err && r->Err_0@ == failure,
        },
{
    let number: u32 = match bounded_pdf_integer(number, u32::MAX as usize) {
        None => {
            return Err(PdfError::CorruptedPdf);
        },
        Some(number) => number as u32,
    };
    if bounded_pdf_integer(generation, u16::MAX as usize).is_none() {
        return Err(PdfError::CorruptedPdf);
    }
    let value = match parse_value(tokens) {
        Err(error) => {
            return Err(error);
        },
        Ok(value) => value,
    };
    if let Some(dict) = dictionary(&value) {
        let kind = lookup(dict, "Type");
        if is_name(kind, "ObjStm") || is_name(kind, "XRef") {
            return Err(PdfError::UnsupportedStructure);
        }
    }
    match read_optional_stream(tokens, &value, xref_offset, None) {
        Err(error) => Err(error),
        Ok(stream) => {
            skip_past_object(tokens);
            Ok((number, PdfObject { value, stream }))
        },
    }
}

fn scan_objects<F: Fn() -> bool>(bytes: &[u8], xref_offset: Option<usize>, should_stop: &F) -> (r:
    Result<Document, PdfError>)
    requires
        should_stop.requires(()),
    ensures
        settles(r, scanned(bytes@, xref_offset), *should_stop),
        r is Ok ==> r->Ok_0.wf(),
{
    let mut tokens = Tokenizer::new(bytes);
    let mut objects: Objects = Table::new();
    let mut count: usize = 0;
    let ghost b = bytes@;
    let ghost goal = scan(b, object::start_of(b), xref_offset, Seq::empty());
    loop
        invariant
            should_stop.requires(()),
            tokens.wf(),
            tokens.bytes@ == b,
            b == bytes@,
            object::objects_wf(objects),
            count < 1_024,
            goal == scan(b, object::start_of(b), xref_offset, Seq::empty()),
            scan(b, tokens.place(), xref_offset, objects@) == goal,
        decreases lexer::left(b, tokens.place()),
    {
        let ghost before = tokens.place();
        let first = tokens.next();
        if first.is_none() {
            if objects.is_empty() {
                return Err(PdfError::InvalidPdf);
            }
            return Ok(Document { objects, root: None });
        }
        if count == 0 && should_stop() {
            return Err(PdfError::Cancelled);
        }
        count = if count == 1_023 {
            0
        } else {
            count + 1
        };
        proof {
            lexer::lemma_token_at(b, tokens.position as int);
            lexer::lemma_token_at(b, lexer::step(b, tokens.place()).1.pos);
        }
        if is_keyword(&first, "trailer") {
            match check_trailer(&tokens) {
                Err(error) => {
                    return Err(error);
                },
                Ok(()) => {},
            }
            continue;
        }
        if let Some(Token::Number(number)) = first {
            let second = tokens.next();
            if let Some(Token::Number(generation)) = second {
                let third = tokens.next();
                if is_keyword(&third, "obj") {
                    match read_scanned_object(&mut tokens, number, generation, xref_offset) {
                        Err(error) => {
                            return Err(error);
                        },
                        Ok((number, object)) => {
                            objects.insert(number, object);
                        },
                    }
                }
            }
        }
    }
}

/// Reads the objects of a file.
pub fn parse_document<F: Fn() -> bool>(bytes: &[u8], should_stop: &F) -> (r: Result<
    Document,
    PdfError,
>)
    requires
        should_stop.requires(()),
    ensures
        stopping::always(*should_stop) ==> stopped(r, *should_stop),
        settles(r, document(bytes@), *should_stop),
        r is Ok ==> r->Ok_0.wf(),
{
    if should_stop() {
        return Err(PdfError::Cancelled);
    }
    let index = match verify_xref_structure(bytes) {
        Err(error) => {
            return Err(error);
        },
        Ok(XrefLocation::Missing) => {
            return scan_objects(bytes, None, should_stop);
        },
        Ok(XrefLocation::Table(offset)) => match read_xref_table_revision(bytes, offset) {
            Err(error) => {
                return Err(error);
            },
            Ok(latest) => {
                if has_entry(&latest.trailer, "XRefStm") || has_entry(&latest.trailer, "Encrypt") {
                    return Err(PdfError::UnsupportedStructure);
                }
                if !has_entry(&latest.trailer, "Prev") {
                    return scan_objects(bytes, Some(offset), should_stop);
                }
                read_xref_table_chain(bytes, offset, latest)
            },
        },
        Ok(XrefLocation::Stream(offset)) => read_xref_stream_chain(bytes, offset, should_stop),
    };
    match index {
        Err(error) => Err(error),
        Ok(index) => match parse_indexed_objects(bytes, &index.entries, index.root, should_stop) {
            Err(error) => Err(error),
            Ok(objects) => Ok(Document { objects, root: Some(index.root) }),
        },
    }
}

} // verus!
