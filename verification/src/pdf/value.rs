//! The values that PDF objects are made of.

use vstd::prelude::*;
use vstd::utf8::*;

use crate::pdf::error::{Failure, PdfError};
use crate::pdf::lexer;
use crate::pdf::lexer::{Lexeme, Place, Token, Tokenizer};
use crate::pdf::number::{bounded_pdf_integer, PdfNumber};
use crate::table;
use crate::table::Table;
use crate::text;

verus! {

/// How deep values may nest.
pub const MAX_VALUE_DEPTH: usize = 64;

/// A reference to an object by number and generation.
#[derive(Debug, Clone, Copy, PartialEq, Eq, Structural)]
pub struct PdfRef {
    pub object: u32,
    pub generation: u16,
}

/// A dictionary: the entries in the order of their names' bytes.
pub type Dictionary = Table<Vec<u8>, PdfValue>;

/// A value of a PDF file.
#[derive(Debug)]
pub enum PdfValue {
    Null,
    Bool(bool),
    Number(PdfNumber),
    Name(String),
    String(Vec<u8>),
    HexString(Vec<u8>),
    Array(Vec<PdfValue>),
    Dict(Table<Vec<u8>, PdfValue>),
    Ref(PdfRef),
    Keyword(String),
}

/// What contracts say of a `PdfValue`.
pub enum Datum {
    Null,
    Bool(bool),
    Number(PdfNumber),
    Name(Seq<char>),
    String(Seq<u8>),
    HexString(Seq<u8>),
    Array(Seq<Datum>),
    Dict(Seq<(Seq<u8>, Datum)>),
    Ref(PdfRef),
    Keyword(Seq<char>),
}

pub open spec fn datum(value: PdfValue) -> Datum
    decreases value,
{
    match value {
        PdfValue::Null => Datum::Null,
        PdfValue::Bool(b) => Datum::Bool(b),
        PdfValue::Number(n) => Datum::Number(n),
        PdfValue::Name(s) => Datum::Name(s@),
        PdfValue::String(s) => Datum::String(s@),
        PdfValue::HexString(s) => Datum::HexString(s@),
        PdfValue::Array(items) => Datum::Array(
            Seq::new(
                items@.len(),
                |i: int|
                    if 0 <= i < items@.len() {
                        datum(items@[i])
                    } else {
                        Datum::Null
                    },
            ),
        ),
        PdfValue::Dict(dict) => Datum::Dict(
            Seq::new(
                dict.rows@.len(),
                |i: int|
                    if 0 <= i < dict.rows@.len() {
                        (dict.rows@[i].0@, datum(dict.rows@[i].1))
                    } else {
                        (Seq::empty(), Datum::Null)
                    },
            ),
        ),
        PdfValue::Ref(r) => Datum::Ref(r),
        PdfValue::Keyword(s) => Datum::Keyword(s@),
    }
}

impl View for PdfValue {
    type V = Datum;

    open spec fn view(&self) -> Datum {
        datum(*self)
    }
}

/// What an array's items are.
pub open spec fn data(items: Seq<PdfValue>) -> Seq<Datum> {
    Seq::new(items.len(), |i: int| items[i]@)
}

/// The numbers in a value are in range and the names in its dictionaries ascend.
pub open spec fn value_wf(value: PdfValue) -> bool
    decreases value,
{
    match value {
        PdfValue::Number(n) => n.wf(),
        PdfValue::Array(items) => forall|i: int|
            0 <= i < items@.len() ==> value_wf(#[trigger] items@[i]),
        PdfValue::Dict(dict) => dict.wf() && forall|i: int|
            0 <= i < dict.rows@.len() ==> value_wf((#[trigger] dict.rows@[i]).1),
        _ => true,
    }
}

/// The same of every entry of a dictionary.
pub open spec fn dict_wf(dict: Dictionary) -> bool {
    dict.wf() && forall|i: int| 0 <= i < dict.rows@.len() ==> value_wf((#[trigger] dict.rows@[i]).1)
}

/// An array reads as its items, a dictionary as its entries.
pub proof fn lemma_datum(value: PdfValue)
    ensures
        value matches PdfValue::Array(items) ==> value@ == Datum::Array(data(items@)),
        value matches PdfValue::Dict(dict) ==> value@ == Datum::Dict(dict@),
{
    match value {
        PdfValue::Array(items) => {
            assert(value@->Array_0 =~= data(items@));
        },
        PdfValue::Dict(dict) => {
            assert(value@->Dict_0 =~= dict@);
        },
        _ => {},
    }
}

/// What a dictionary holds under a name.
pub open spec fn entry(dict: Seq<(Seq<u8>, Datum)>, name: Seq<char>) -> Option<Datum> {
    table::find::<Vec<u8>, Datum>(dict, encode_utf8(name))
}

pub open spec fn opt_view(value: Option<&PdfValue>) -> Option<Datum> {
    match value {
        Some(value) => Some(value@),
        None => None,
    }
}

/// The bytes of a string.
pub fn bytes_of(s: &str) -> (r: Vec<u8>)
    ensures
        r@ == encode_utf8(s@),
{
    let bytes = s.as_bytes();
    let mut out: Vec<u8> = Vec::new();
    out.extend_from_slice(bytes);
    assert(out@ =~= bytes@);
    out
}

/// What a dictionary holds under a name.
pub fn lookup<'a>(dict: &'a Dictionary, name: &str) -> (r: Option<&'a PdfValue>)
    requires
        dict_wf(*dict),
    ensures
        opt_view(r) == entry(dict@, name@),
        r is Some ==> value_wf(*r->0),
{
    let key = bytes_of(name);
    dict.get(&key)
}

pub open spec fn dict_in(value: Option<Datum>) -> Option<Seq<(Seq<u8>, Datum)>> {
    match value {
        Some(Datum::Dict(dict)) => Some(dict),
        _ => None,
    }
}

/// The entries of a value that is a dictionary.
pub fn dictionary(value: &PdfValue) -> (r: Option<&Dictionary>)
    requires
        value_wf(*value),
    ensures
        match r {
            Some(dict) => dict_in(Some(value@)) == Some(dict@) && dict_wf(*dict) && *value
                == PdfValue::Dict(*dict),
            None => dict_in(Some(value@)) is None,
        },
{
    proof {
        lemma_datum(*value);
    }
    match value {
        PdfValue::Dict(dict) => Some(dict),
        _ => None,
    }
}

pub open spec fn number_in(value: Option<Datum>) -> Option<PdfNumber> {
    match value {
        Some(Datum::Number(number)) => Some(number),
        _ => None,
    }
}

/// The number that a value is.
pub fn number_from_value(value: Option<&PdfValue>) -> (r: Option<PdfNumber>)
    requires
        value is Some ==> value_wf(*value->0),
    ensures
        r == number_in(opt_view(value)),
        r is Some ==> r->0.wf(),
{
    match value {
        Some(PdfValue::Number(number)) => Some(*number),
        _ => None,
    }
}

pub open spec fn name_in(value: Option<Datum>) -> Option<Seq<char>> {
    match value {
        Some(Datum::Name(name)) => Some(name),
        _ => None,
    }
}

/// The name that a value is.
pub fn name_value(value: Option<&PdfValue>) -> (r: Option<&str>)
    ensures
        match r {
            Some(name) => name_in(opt_view(value)) == Some(name@),
            None => name_in(opt_view(value)) is None,
        },
{
    match value {
        Some(PdfValue::Name(name)) => Some(name.as_str()),
        _ => None,
    }
}

/// A value is the name `expected`.
pub fn is_name(value: Option<&PdfValue>, expected: &str) -> (r: bool)
    ensures
        r == (name_in(opt_view(value)) == Some(expected@)),
{
    match name_value(value) {
        Some(name) => text::same(name, expected),
        None => false,
    }
}

pub open spec fn ref_in(value: Option<Datum>) -> Option<PdfRef> {
    match value {
        Some(Datum::Ref(reference)) => Some(reference),
        _ => None,
    }
}

/// The reference that a value is.
pub fn reference_value(value: Option<&PdfValue>) -> (r: Option<PdfRef>)
    ensures
        r == ref_in(opt_view(value)),
{
    match value {
        Some(PdfValue::Ref(reference)) => Some(*reference),
        _ => None,
    }
}

/// The whole number from 0 to `max` under a name, if there is one.
pub open spec fn integer_entry(dict: Seq<(Seq<u8>, Datum)>, name: Seq<char>, max: int) -> Option<
    usize,
> {
    match number_in(entry(dict, name)) {
        Some(number) => number.bounded_spec(max),
        None => None,
    }
}

/// The whole number from 0 to `max` that a dictionary must hold.
pub fn required_pdf_integer(dict: &Dictionary, key: &str, max: usize) -> (r: Result<
    usize,
    PdfError,
>)
    requires
        dict_wf(*dict),
    ensures
        match integer_entry(dict@, key@, max as int) {
            Some(value) => r is Ok && r->Ok_0 == value && value <= max,
            None => r is Err && r->Err_0@ == Failure::CorruptedPdf,
        },
{
    match number_from_value(lookup(dict, key)) {
        Some(number) => match bounded_pdf_integer(number, max) {
            Some(value) => Ok(value),
            None => Err(PdfError::CorruptedPdf),
        },
        None => Err(PdfError::CorruptedPdf),
    }
}

/// A dictionary has an entry of that name.
pub fn has_entry(dict: &Dictionary, name: &str) -> (r: bool)
    requires
        dict_wf(*dict),
    ensures
        r == (entry(dict@, name@) is Some),
{
    lookup(dict, name).is_some()
}

/// Reading went on from `from` to `to`.
pub open spec fn shrinks(b: Seq<u8>, from: Place, to: Place) -> bool {
    0 <= lexer::left(b, to) < lexer::left(b, from)
}

/// A number, or the reference that it begins.
pub open spec fn number_or_reference(b: Seq<u8>, number: PdfNumber, place: Place) -> (
    Datum,
    Place,
) {
    let (second, after_second) = lexer::step(b, place);
    let (third, after_third) = lexer::step(b, after_second);
    match (number.bounded_spec(u32::MAX as int), second) {
        (Some(object), Some(Lexeme::Number(generation))) => match generation.bounded_spec(
            u16::MAX as int,
        ) {
            Some(generation) => if third == Some(Lexeme::Keyword("R"@)) {
                (
                    Datum::Ref(PdfRef { object: object as u32, generation: generation as u16 }),
                    after_third,
                )
            } else {
                (Datum::Number(number), place)
            },
            None => (Datum::Number(number), place),
        },
        _ => (Datum::Number(number), place),
    }
}

pub open spec fn keyword_value(word: Seq<char>) -> Datum {
    if word == "null"@ {
        Datum::Null
    } else if word == "true"@ {
        Datum::Bool(true)
    } else if word == "false"@ {
        Datum::Bool(false)
    } else {
        Datum::Keyword(word)
    }
}

/// The value that begins at `place`, and the place behind it.
pub open spec fn value_at(b: Seq<u8>, place: Place, depth: int) -> Option<(Datum, Place)>
    decreases lexer::left(b, place), 0int,
{
    if depth > MAX_VALUE_DEPTH {
        None
    } else {
        let (token, after) = lexer::step(b, place);
        match token {
            None => None,
            Some(Lexeme::Number(number)) => Some(number_or_reference(b, number, after)),
            Some(Lexeme::Name(name)) => Some((Datum::Name(name), after)),
            Some(Lexeme::LiteralString(s)) => Some((Datum::String(s), after)),
            Some(Lexeme::HexString(s)) => Some((Datum::HexString(s), after)),
            Some(Lexeme::StartArray) => if shrinks(b, place, after) {
                array_at(b, after, depth + 1, Seq::empty())
            } else {
                None
            },
            Some(Lexeme::StartDictionary) => if shrinks(b, place, after) {
                dictionary_at(b, after, depth + 1, Seq::empty())
            } else {
                None
            },
            Some(Lexeme::Keyword(word)) => Some((keyword_value(word), after)),
            Some(Lexeme::EndArray) | Some(Lexeme::EndDictionary) => None,
        }
    }
}

/// The rest of an array whose items so far are `items`.
pub open spec fn array_at(b: Seq<u8>, place: Place, depth: int, items: Seq<Datum>) -> Option<
    (Datum, Place),
>
    decreases lexer::left(b, place), 1int,
{
    let ahead = lexer::look(b, place);
    match ahead.ahead {
        None => None,
        Some(Lexeme::EndArray) => Some((Datum::Array(items), lexer::step(b, ahead).1)),
        Some(_) => if 0 <= lexer::left(b, ahead) <= lexer::left(b, place) {
            match value_at(b, ahead, depth) {
                None => None,
                Some((item, after)) => if shrinks(b, place, after) {
                    array_at(b, after, depth, items.push(item))
                } else {
                    None
                },
            }
        } else {
            None
        },
    }
}

/// The rest of a dictionary whose entries so far are `entries`.
pub open spec fn dictionary_at(
    b: Seq<u8>,
    place: Place,
    depth: int,
    entries: Seq<(Seq<u8>, Datum)>,
) -> Option<(Datum, Place)>
    decreases lexer::left(b, place), 1int,
{
    let ahead = lexer::look(b, place);
    let after_name = lexer::step(b, ahead).1;
    match ahead.ahead {
        None => None,
        Some(Lexeme::EndDictionary) => Some((Datum::Dict(entries), after_name)),
        Some(Lexeme::Name(name)) => if shrinks(b, place, after_name) {
            match value_at(b, after_name, depth) {
                None => None,
                Some((item, after)) => if shrinks(b, place, after) {
                    dictionary_at(
                        b,
                        after,
                        depth,
                        table::put::<Vec<u8>, Datum>(entries, encode_utf8(name), item),
                    )
                } else {
                    None
                },
            }
        } else {
            None
        },
        Some(_) => None,
    }
}

/// What parsing leaves behind: the value and place of `expected`, or a
/// corrupted file.
pub open spec fn parsed_as(
    r: Result<PdfValue, PdfError>,
    expected: Option<(Datum, Place)>,
    before: &Tokenizer<'_>,
    after: &Tokenizer<'_>,
) -> bool {
    match expected {
        Some((value, place)) => {
            &&& r is Ok
            &&& r->Ok_0@ == value
            &&& value_wf(r->Ok_0)
            &&& after.place() == place
            &&& shrinks(before.bytes@, before.place(), place)
        },
        None => r is Err && r->Err_0@ == Failure::CorruptedPdf,
    }
}

/// Parses the value that comes next.
pub fn parse_value(tokenizer: &mut Tokenizer<'_>) -> (r: Result<PdfValue, PdfError>)
    requires
        old(tokenizer).wf(),
    ensures
        final(tokenizer).wf(),
        final(tokenizer).bytes@ == old(tokenizer).bytes@,
        parsed_as(
            r,
            value_at(old(tokenizer).bytes@, old(tokenizer).place(), 0),
            old(tokenizer),
            final(tokenizer),
        ),
{
    parse_value_with_depth(tokenizer, 0)
}

fn parse_value_with_depth(tokenizer: &mut Tokenizer<'_>, depth: usize) -> (r: Result<
    PdfValue,
    PdfError,
>)
    requires
        old(tokenizer).wf(),
        depth <= MAX_VALUE_DEPTH + 1,
    ensures
        final(tokenizer).wf(),
        final(tokenizer).bytes@ == old(tokenizer).bytes@,
        parsed_as(
            r,
            value_at(old(tokenizer).bytes@, old(tokenizer).place(), depth as int),
            old(tokenizer),
            final(tokenizer),
        ),
    decreases MAX_VALUE_DEPTH + 1 - depth, 0int,
{
    if depth > MAX_VALUE_DEPTH {
        return Err(PdfError::CorruptedPdf);
    }
    let token = match tokenizer.next() {
        None => {
            return Err(PdfError::CorruptedPdf);
        },
        Some(token) => token,
    };
    match token {
        Token::Number(number) => {
            if let Some(object) = bounded_pdf_integer(number, u32::MAX as usize) {
                let mut probe = tokenizer.probe();
                if let Some(Token::Number(generation)) = probe.next() {
                    if let Some(generation) = bounded_pdf_integer(generation, u16::MAX as usize) {
                        let third = probe.next();
                        if lexer::is_keyword(&third, "R") {
                            *tokenizer = probe;
                            return Ok(
                                PdfValue::Ref(
                                    PdfRef {
                                        object: object as u32,
                                        generation: generation as u16,
                                    },
                                ),
                            );
                        }
                    }
                }
            }
            Ok(PdfValue::Number(number))
        },
        Token::Name(name) => Ok(PdfValue::Name(name)),
        Token::LiteralString(value) => Ok(PdfValue::String(value)),
        Token::HexString(value) => Ok(PdfValue::HexString(value)),
        Token::StartArray => parse_array(tokenizer, depth + 1),
        Token::StartDictionary => parse_dictionary(tokenizer, depth + 1),
        Token::Keyword(keyword) => {
            if text::same(keyword.as_str(), "null") {
                Ok(PdfValue::Null)
            } else if text::same(keyword.as_str(), "true") {
                Ok(PdfValue::Bool(true))
            } else if text::same(keyword.as_str(), "false") {
                Ok(PdfValue::Bool(false))
            } else {
                Ok(PdfValue::Keyword(keyword))
            }
        },
        Token::EndArray | Token::EndDictionary => Err(PdfError::CorruptedPdf),
    }
}

/// What the loops over array items and dictionary entries leave behind.
pub open spec fn rest_parsed_as(
    r: Result<PdfValue, PdfError>,
    expected: Option<(Datum, Place)>,
    before: &Tokenizer<'_>,
    after: &Tokenizer<'_>,
) -> bool {
    match expected {
        Some((value, place)) => {
            &&& r is Ok
            &&& r->Ok_0@ == value
            &&& value_wf(r->Ok_0)
            &&& after.place() == place
            &&& 0 <= lexer::left(before.bytes@, place) <= lexer::left(
                before.bytes@,
                before.place(),
            )
        },
        None => r is Err && r->Err_0@ == Failure::CorruptedPdf,
    }
}

fn parse_array(tokenizer: &mut Tokenizer<'_>, depth: usize) -> (r: Result<PdfValue, PdfError>)
    requires
        old(tokenizer).wf(),
        depth <= MAX_VALUE_DEPTH + 1,
    ensures
        final(tokenizer).wf(),
        final(tokenizer).bytes@ == old(tokenizer).bytes@,
        rest_parsed_as(
            r,
            array_at(old(tokenizer).bytes@, old(tokenizer).place(), depth as int, Seq::empty()),
            old(tokenizer),
            final(tokenizer),
        ),
    decreases MAX_VALUE_DEPTH + 1 - depth, 1int,
{
    let mut values: Vec<PdfValue> = Vec::new();
    let ghost b = tokenizer.bytes@;
    let ghost goal = array_at(b, tokenizer.place(), depth as int, Seq::empty());
    assert(data(values@) =~= Seq::empty());
    loop
        invariant
            tokenizer.wf(),
            tokenizer.bytes@ == b,
            b == old(tokenizer).bytes@,
            depth <= MAX_VALUE_DEPTH + 1,
            goal == array_at(
                old(tokenizer).bytes@,
                old(tokenizer).place(),
                depth as int,
                Seq::empty(),
            ),
            array_at(b, tokenizer.place(), depth as int, data(values@)) == goal,
            0 <= lexer::left(b, tokenizer.place()) <= lexer::left(b, old(tokenizer).place()),
            forall|i: int| 0 <= i < values@.len() ==> value_wf(#[trigger] values@[i]),
        decreases lexer::left(b, tokenizer.place()),
    {
        let token = tokenizer.peek();
        match token {
            None => {
                return Err(PdfError::CorruptedPdf);
            },
            Some(Token::EndArray) => {
                tokenizer.next();
                let value = PdfValue::Array(values);
                proof {
                    lemma_datum(value);
                }
                return Ok(value);
            },
            Some(_) => {
                match parse_value_with_depth(tokenizer, depth) {
                    Err(error) => {
                        return Err(error);
                    },
                    Ok(value) => {
                        let ghost before = data(values@);
                        let ghost item = value@;
                        values.push(value);
                        assert(data(values@) =~= before.push(item));
                    },
                }
            },
        }
    }
}

fn parse_dictionary(tokenizer: &mut Tokenizer<'_>, depth: usize) -> (r: Result<PdfValue, PdfError>)
    requires
        old(tokenizer).wf(),
        depth <= MAX_VALUE_DEPTH + 1,
    ensures
        final(tokenizer).wf(),
        final(tokenizer).bytes@ == old(tokenizer).bytes@,
        rest_parsed_as(
            r,
            dictionary_at(
                old(tokenizer).bytes@,
                old(tokenizer).place(),
                depth as int,
                Seq::empty(),
            ),
            old(tokenizer),
            final(tokenizer),
        ),
    decreases MAX_VALUE_DEPTH + 1 - depth, 1int,
{
    let mut values: Dictionary = Table::new();
    let ghost b = tokenizer.bytes@;
    let ghost goal = dictionary_at(b, tokenizer.place(), depth as int, Seq::empty());
    loop
        invariant
            tokenizer.wf(),
            tokenizer.bytes@ == b,
            b == old(tokenizer).bytes@,
            depth <= MAX_VALUE_DEPTH + 1,
            goal == dictionary_at(
                old(tokenizer).bytes@,
                old(tokenizer).place(),
                depth as int,
                Seq::empty(),
            ),
            dictionary_at(b, tokenizer.place(), depth as int, values@) == goal,
            0 <= lexer::left(b, tokenizer.place()) <= lexer::left(b, old(tokenizer).place()),
            dict_wf(values),
        decreases lexer::left(b, tokenizer.place()),
    {
        let token = tokenizer.peek();
        match token {
            None => {
                return Err(PdfError::CorruptedPdf);
            },
            Some(Token::EndDictionary) => {
                tokenizer.next();
                let value = PdfValue::Dict(values);
                proof {
                    lemma_datum(value);
                }
                return Ok(value);
            },
            Some(Token::Name(name)) => {
                tokenizer.next();
                match parse_value_with_depth(tokenizer, depth) {
                    Err(error) => {
                        return Err(error);
                    },
                    Ok(value) => {
                        values.insert(bytes_of(name.as_str()), value);
                    },
                }
            },
            Some(_) => {
                return Err(PdfError::CorruptedPdf);
            },
        }
    }
}

} // verus!
