//! Decoding the streams of objects.

use std::io::{Read, Write};

use vstd::prelude::*;

use crate::pdf::error::{settles, Failure, PdfError};
use crate::pdf::lexer;
use crate::pdf::lexer::{hex_nibble, is_ascii_space};
use crate::pdf::object::{PdfObject, Thing, MAX_STREAM_BYTES};
use crate::pdf::value;
use crate::pdf::value::{dictionary, lookup, Datum, PdfValue};
use crate::text;

verus! {

/// How many decoded bytes pass between two questions whether to stop.
pub const DECODE_BUFFER_BYTES: usize = 65_536;

/// What reading at most `most` bytes out of zlib data yields; nothing for
/// data that is no zlib stream as far as it is read.
pub uninterp spec fn zlib_prefix(data: Seq<u8>, most: nat) -> Option<Seq<u8>>;

/// Reads `flate2::read::ZlibDecoder` through `Read::take` to its end: at most
/// `most` bytes come out, and a decoder error gives none.
#[verifier::external_body]
pub(crate) fn read_zlib(data: &[u8], most: u64) -> (r: Option<Vec<u8>>)
    ensures
        match r {
            Some(out) => zlib_prefix(data@, most as nat) == Some(out@) && out@.len() <= most,
            None => zlib_prefix(data@, most as nat) is None,
        },
{
    let mut out = Vec::new();
    let mut decoder = flate2::read::ZlibDecoder::new(data).take(most);
    match decoder.read_to_end(&mut out) {
        Ok(_) => Some(out),
        Err(_) => None,
    }
}

/// What `flate2::write::ZlibEncoder` makes of data at the default level.
pub uninterp spec fn zlib_of(data: Seq<u8>) -> Seq<u8>;

/// Writes data through `flate2::write::ZlibEncoder` into memory, which does not
/// fail. A decoder that is allowed more bytes than were written gives them
/// back.
#[verifier::external_body]
pub(crate) fn write_zlib(data: &[u8]) -> (r: Vec<u8>)
    ensures
        r@ == zlib_of(data@),
        forall|most: nat|
            most > data@.len() ==> #[trigger] zlib_prefix(r@, most) == Some(data@),
{
    let mut encoder = flate2::write::ZlibEncoder::new(Vec::new(), flate2::Compression::default());
    encoder.write_all(data).expect("memory takes every byte");
    encoder.finish().expect("memory takes every byte")
}

/// Zlib data decoded to at most `limit` bytes.
pub open spec fn inflated(data: Seq<u8>, limit: int) -> Result<Seq<u8>, Failure> {
    match zlib_prefix(data, (limit + 1) as nat) {
        None => Err(Failure::Decompression),
        Some(out) => if out.len() > limit {
            Err(Failure::StreamLimitExceeded)
        } else {
            Ok(out)
        },
    }
}

/// Decodes zlib data to at most `limit` bytes.
pub fn decode_flate(bytes: &[u8], limit: usize) -> (r: Result<Vec<u8>, PdfError>)
    requires
        limit < u64::MAX,
    ensures
        crate::pdf::error::yields(r, inflated(bytes@, limit as int)),
{
    decode_flate_with_control(bytes, limit, &(|| -> (b: bool)
        ensures
            !b,
        { false }))
}

/// Decodes zlib data to at most `limit` bytes, asking at every buffer of
/// output whether to stop.
pub fn decode_flate_with_control<F: Fn() -> bool>(
    bytes: &[u8],
    limit: usize,
    should_stop: &F,
) -> (r: Result<Vec<u8>, PdfError>)
    requires
        limit < u64::MAX,
        should_stop.requires(()),
    ensures
        settles(r, inflated(bytes@, limit as int), *should_stop),
{
    if should_stop() {
        return Err(PdfError::Cancelled);
    }
    match read_zlib(bytes, limit as u64 + 1) {
        None => Err(PdfError::Decompression),
        Some(output) => {
            let mut done: usize = 0;
            while done < output.len()
                invariant
                    should_stop.requires(()),
                    done <= output@.len(),
                decreases output@.len() - done,
            {
                if should_stop() {
                    return Err(PdfError::Cancelled);
                }
                if output.len() - done > DECODE_BUFFER_BYTES {
                    done += DECODE_BUFFER_BYTES;
                } else {
                    done = output.len();
                }
            }
            if output.len() > limit {
                return Err(PdfError::StreamLimitExceeded);
            }
            Ok(output)
        },
    }
}

/// What hexadecimal digits from `i` on decode to, after `out` and a first
/// digit that waits for its second.
pub open spec fn unhexed(
    b: Seq<u8>,
    i: int,
    high: Option<u8>,
    out: Seq<u8>,
    limit: int,
) -> Result<Seq<u8>, Failure>
    decreases b.len() - i,
{
    if i < 0 || i >= b.len() {
        Err(Failure::CorruptedPdf)
    } else if b[i] == 62 {
        match high {
            None => Ok(out),
            Some(high) => if out.len() >= limit {
                Err(Failure::StreamLimitExceeded)
            } else {
                Ok(out.push((high * 16) as u8))
            },
        }
    } else if lexer::is_space(b[i]) {
        unhexed(b, i + 1, high, out, limit)
    } else {
        match (lexer::hex_value(b[i]), high) {
            (None, _) => Err(Failure::CorruptedPdf),
            (Some(digit), None) => unhexed(b, i + 1, Some(digit), out, limit),
            (Some(digit), Some(high)) => if out.len() >= limit {
                Err(Failure::StreamLimitExceeded)
            } else {
                unhexed(b, i + 1, None, out.push((high * 16 + digit) as u8), limit)
            },
        }
    }
}

/// Decodes hexadecimal digits to at most `limit` bytes.
pub fn decode_ascii_hex(bytes: &[u8], limit: usize) -> (r: Result<Vec<u8>, PdfError>)
    ensures
        crate::pdf::error::yields(r, unhexed(bytes@, 0, None, Seq::empty(), limit as int)),
{
    decode_ascii_hex_with_control(bytes, limit, &(|| -> (b: bool)
        ensures
            !b,
        { false }))
}

/// Decodes hexadecimal digits to at most `limit` bytes, asking now and then
/// whether to stop.
pub fn decode_ascii_hex_with_control<F: Fn() -> bool>(
    bytes: &[u8],
    limit: usize,
    should_stop: &F,
) -> (r: Result<Vec<u8>, PdfError>)
    requires
        should_stop.requires(()),
    ensures
        settles(r, unhexed(bytes@, 0, None, Seq::empty(), limit as int), *should_stop),
{
    let mut output: Vec<u8> = Vec::new();
    let mut high: Option<u8> = None;
    let mut i: usize = 0;
    while i < bytes.len()
        invariant
            should_stop.requires(()),
            i <= bytes@.len(),
            high is Some ==> high->0 < 16,
            unhexed(bytes@, i as int, high, output@, limit as int) == unhexed(
                bytes@,
                0,
                None,
                Seq::empty(),
                limit as int,
            ),
        decreases bytes@.len() - i,
    {
        if i % 4_096 == 0 && should_stop() {
            return Err(PdfError::Cancelled);
        }
        let byte: u8 = bytes[i];
        if byte == 62 {
            if let Some(digit) = high {
                if output.len() >= limit {
                    return Err(PdfError::StreamLimitExceeded);
                }
                output.push(digit * 16);
            }
            return Ok(output);
        }
        if !is_ascii_space(byte) {
            match hex_nibble(byte) {
                None => {
                    return Err(PdfError::CorruptedPdf);
                },
                Some(digit) => match high {
                    None => {
                        high = Some(digit);
                    },
                    Some(first) => {
                        if output.len() >= limit {
                            return Err(PdfError::StreamLimitExceeded);
                        }
                        output.push(first * 16 + digit);
                        high = None;
                    },
                },
            }
        }
        i += 1;
    }
    Err(PdfError::CorruptedPdf)
}

/// The names of an array's items from `i` on, if every item is a name.
pub open spec fn names_in(items: Seq<Datum>) -> Option<Seq<Seq<char>>>
    decreases items.len(),
{
    if items.len() == 0 {
        Some(Seq::empty())
    } else {
        match (names_in(items.drop_last()), items.last()) {
            (Some(names), Datum::Name(name)) => Some(names.push(name)),
            _ => None,
        }
    }
}

/// The filters of a stream, in the order in which they are undone.
pub open spec fn filters_of(filter: Option<Datum>) -> Option<Seq<Seq<char>>> {
    match filter {
        None => Some(Seq::empty()),
        Some(Datum::Name(name)) => Some(seq![name]),
        Some(Datum::Array(items)) => names_in(items),
        Some(_) => None,
    }
}

pub open spec fn is_flate(filter: Seq<char>) -> bool {
    filter == "FlateDecode"@ || filter == "Fl"@
}

pub open spec fn is_ascii_hex(filter: Seq<char>) -> bool {
    filter == "ASCIIHexDecode"@ || filter == "AHx"@
}

/// One filter undone.
pub open spec fn unfiltered(data: Seq<u8>, filter: Seq<char>) -> Result<Seq<u8>, Failure> {
    if is_flate(filter) {
        inflated(data, MAX_STREAM_BYTES as int)
    } else if is_ascii_hex(filter) {
        unhexed(data, 0, None, Seq::empty(), MAX_STREAM_BYTES as int)
    } else {
        Err(Failure::UnsupportedFilter(filter))
    }
}

/// The filters from `i` on undone, one after the other.
pub open spec fn all_unfiltered(data: Seq<u8>, filters: Seq<Seq<char>>, i: int) -> Result<
    Seq<u8>,
    Failure,
>
    decreases filters.len() - i,
{
    if i < 0 || i >= filters.len() {
        Ok(data)
    } else {
        match unfiltered(data, filters[i]) {
            Err(failure) => Err(failure),
            Ok(data) => all_unfiltered(data, filters, i + 1),
        }
    }
}

/// What an object's stream decodes to.
pub open spec fn decoded(object: Thing) -> Result<Seq<u8>, Failure> {
    match object.stream {
        None => Err(Failure::CorruptedPdf),
        Some(data) => if data.len() > MAX_STREAM_BYTES {
            Err(Failure::StreamLimitExceeded)
        } else {
            match value::dict_in(Some(object.value)) {
                None => Ok(data),
                Some(dict) => match filters_of(value::entry(dict, "Filter"@)) {
                    None => Err(Failure::CorruptedPdf),
                    Some(filters) => all_unfiltered(data, filters, 0),
                },
            }
        },
    }
}

pub open spec fn views(names: Seq<&str>) -> Seq<Seq<char>> {
    Seq::new(names.len(), |i: int| names[i]@)
}

fn filter_names<'a>(filter: Option<&'a PdfValue>) -> (r: Option<Vec<&'a str>>)
    ensures
        match r {
            Some(names) => filters_of(value::opt_view(filter)) == Some(views(names@)),
            None => filters_of(value::opt_view(filter)) is None,
        },
{
    let mut names: Vec<&'a str> = Vec::new();
    match filter {
        None => {
            assert(views(names@) =~= Seq::empty());
            Some(names)
        },
        Some(PdfValue::Name(name)) => {
            names.push(name.as_str());
            assert(views(names@) =~= seq![name@]);
            Some(names)
        },
        Some(PdfValue::Array(items)) => {
            proof {
                value::lemma_datum(*filter->0);
            }
            let ghost all = value::data(items@);
            let mut i: usize = 0;
            assert(views(names@) =~= Seq::empty());
            while i < items.len()
                invariant
                    i <= items@.len(),
                    all == value::data(items@),
                    names_in(all.take(i as int)) == Some(views(names@)),
                    filters_of(value::opt_view(filter)) == names_in(all),
                decreases items@.len() - i,
            {
                assert(all.take(i + 1).drop_last() =~= all.take(i as int));
                assert(all.take(i + 1).last() == items@[i as int]@);
                match &items[i] {
                    PdfValue::Name(name) => {
                        let ghost before = views(names@);
                        names.push(name.as_str());
                        assert(views(names@) =~= before.push(name@));
                    },
                    _ => {
                        proof {
                            lemma_names_prefix(all, i + 1);
                        }
                        return None;
                    },
                }
                i += 1;
            }
            assert(all.take(i as int) =~= all);
            Some(names)
        },
        Some(_) => None,
    }
}

proof fn lemma_names_prefix(items: Seq<Datum>, n: int)
    requires
        0 <= n <= items.len(),
        names_in(items.take(n)) is None,
    ensures
        names_in(items) is None,
    decreases items.len() - n,
{
    if n < items.len() {
        assert(items.take(n + 1).drop_last() =~= items.take(n));
        lemma_names_prefix(items, n + 1);
    } else {
        assert(items.take(n) =~= items);
    }
}

/// Decodes an object's stream, asking now and then whether to stop.
pub fn decode_stream_with_control<F: Fn() -> bool>(object: &PdfObject, should_stop: &F) -> (r:
    Result<Vec<u8>, PdfError>)
    requires
        value::value_wf(object.value),
        should_stop.requires(()),
    ensures
        settles(r, decoded(object@), *should_stop),
{
    if should_stop() {
        return Err(PdfError::Cancelled);
    }
    let bytes = match &object.stream {
        None => {
            return Err(PdfError::CorruptedPdf);
        },
        Some(bytes) => bytes,
    };
    if bytes.len() > MAX_STREAM_BYTES {
        return Err(PdfError::StreamLimitExceeded);
    }
    let mut data: Vec<u8> = bytes.clone();
    assert(data@ =~= bytes@);
    let dict = match dictionary(&object.value) {
        None => {
            return Ok(data);
        },
        Some(dict) => dict,
    };
    let filters = match filter_names(lookup(dict, "Filter")) {
        None => {
            return Err(PdfError::CorruptedPdf);
        },
        Some(filters) => filters,
    };
    let mut i: usize = 0;
    while i < filters.len()
        invariant
            should_stop.requires(()),
            i <= filters@.len(),
            all_unfiltered(data@, views(filters@), i as int) == decoded(object@),
        decreases filters@.len() - i,
    {
        if should_stop() {
            return Err(PdfError::Cancelled);
        }
        let filter: &str = filters[i];
        assert(views(filters@)[i as int] == filter@);
        let step = if text::same(filter, "FlateDecode") || text::same(filter, "Fl") {
            decode_flate_with_control(data.as_slice(), MAX_STREAM_BYTES, should_stop)
        } else if text::same(filter, "ASCIIHexDecode") || text::same(filter, "AHx") {
            decode_ascii_hex_with_control(data.as_slice(), MAX_STREAM_BYTES, should_stop)
        } else {
            Err(PdfError::UnsupportedFilter(filter.to_owned()))
        };
        match step {
            Err(error) => {
                return Err(error);
            },
            Ok(next) => {
                data = next;
            },
        }
        i += 1;
    }
    Ok(data)
}

} // verus!
