//! ZIP packages with uncompressed entries, and reading single entries.

use std::io::Read;

use vstd::prelude::*;
use vstd::utf8::*;

use crate::bytes;
use crate::bytes::{
    append, find_last, push_u16_le, push_u32_le, read_u16_le, read_u32_le,
};
use crate::text;

verus! {

/// The most bytes that an entry may hold.
pub const MAX_ENTRY_BYTES: usize = 67_108_864;

/// Failures while writing or reading a package.
#[derive(Debug, PartialEq, Eq, Structural, Clone, Copy)]
pub enum ZipError {
    /// The package is not well-formed, or beyond what is supported.
    Invalid,
    /// The package has no such entry.
    Missing,
    /// The entry cannot be inflated.
    Decompression,
}

/// One bit of a checksum step.
pub open spec fn crc_bit(crc: u32) -> u32 {
    if crc & 1 == 1 {
        (crc >> 1) ^ 0xedb88320
    } else {
        crc >> 1
    }
}

pub open spec fn crc_bits(crc: u32, n: nat) -> u32
    decreases n,
{
    if n == 0 {
        crc
    } else {
        crc_bits(crc_bit(crc), (n - 1) as nat)
    }
}

/// The checksum register after the first `n` bytes.
pub open spec fn crc_register(b: Seq<u8>, n: int) -> u32
    decreases n,
{
    if n <= 0 {
        u32::MAX
    } else {
        crc_bits(crc_register(b, n - 1) ^ (b[n - 1] as u32), 8)
    }
}

/// The CRC-32 checksum of ZIP packages.
pub open spec fn checksum(b: Seq<u8>) -> u32 {
    !crc_register(b, b.len() as int)
}

/// The CRC-32 checksum of ZIP packages.
pub fn crc32(b: &[u8]) -> (r: u32)
    ensures
        r == checksum(b@),
{
    let mut crc: u32 = u32::MAX;
    let mut i: usize = 0;
    while i < b.len()
        invariant
            i <= b@.len(),
            crc == crc_register(b@, i as int),
        decreases b@.len() - i,
    {
        crc = crc ^ (b[i] as u32);
        let ghost goal = crc_bits(crc, 8);
        let mut k: u32 = 0;
        while k < 8
            invariant
                k <= 8,
                crc_bits(crc, (8 - k) as nat) == goal,
            decreases 8 - k,
        {
            if crc & 1 == 1 {
                crc = (crc >> 1) ^ 0xedb88320;
            } else {
                crc = crc >> 1;
            }
            k += 1;
        }
        i += 1;
    }
    !crc
}

/// An entry in the table of a package.
#[derive(Debug)]
pub struct CentralEntry {
    pub name: String,
    pub crc32: u32,
    pub size: u32,
    pub local_offset: u32,
}

/// What contracts say of a `CentralEntry`.
pub struct Listing {
    pub name: Seq<char>,
    pub crc: u32,
    pub size: u32,
    pub offset: u32,
}

impl View for CentralEntry {
    type V = Listing;

    open spec fn view(&self) -> Listing {
        Listing { name: self.name@, crc: self.crc32, size: self.size, offset: self.local_offset }
    }
}

pub open spec fn listings(entries: Seq<CentralEntry>) -> Seq<Listing> {
    Seq::new(entries.len(), |i: int| entries[i]@)
}

/// What stands before the name of an uncompressed entry.
#[verifier::opaque]
pub open spec fn local_header(name_len: u16, data: Seq<u8>) -> Seq<u8> {
    bytes::le32(0x04034b50) + bytes::le16(20) + bytes::le16(0) + bytes::le16(0) + bytes::le16(0)
        + bytes::le16(0) + bytes::le32(checksum(data)) + bytes::le32(data.len() as u32)
        + bytes::le32(data.len() as u32) + bytes::le16(name_len) + bytes::le16(0)
}

/// An uncompressed entry.
pub open spec fn local_record(name: Seq<char>, data: Seq<u8>) -> Seq<u8> {
    local_header(encode_utf8(name).len() as u16, data) + encode_utf8(name) + data
}

/// What stands before the name of a listing.
#[verifier::opaque]
pub open spec fn listing_header(entry: Listing) -> Seq<u8> {
    bytes::le32(0x02014b50) + bytes::le16(20) + bytes::le16(20) + bytes::le16(0) + bytes::le16(0)
        + bytes::le16(0) + bytes::le16(0) + bytes::le32(entry.crc) + bytes::le32(entry.size)
        + bytes::le32(entry.size) + bytes::le16(encode_utf8(entry.name).len() as u16)
        + bytes::le16(0) + bytes::le16(0) + bytes::le16(0) + bytes::le16(0) + bytes::le32(0)
        + bytes::le32(entry.offset)
}

/// A listing in the table of a package.
pub open spec fn listing_record(entry: Listing) -> Seq<u8> {
    listing_header(entry) + encode_utf8(entry.name)
}

/// The table of a package, up to the `n`-th listing.
pub open spec fn directory(entries: Seq<Listing>, n: int) -> Seq<u8>
    decreases n,
{
    if n <= 0 {
        Seq::empty()
    } else {
        directory(entries, n - 1) + listing_record(entries[n - 1])
    }
}

/// The end of a package whose table begins at `offset` and has `size` bytes.
#[verifier::opaque]
pub open spec fn end_record(count: int, size: int, offset: int) -> Seq<u8> {
    bytes::le32(0x06054b50) + bytes::le16(0) + bytes::le16(0) + bytes::le16(count as u16)
        + bytes::le16(count as u16) + bytes::le32(size as u32) + bytes::le32(offset as u32)
        + bytes::le16(0)
}

/// A whole package.
pub open spec fn package(records: Seq<u8>, entries: Seq<Listing>) -> Seq<u8> {
    let table = directory(entries, entries.len() as int);
    records + table + end_record(
        entries.len() as int,
        table.len() as int,
        records.len() as int,
    )
}

/// No count below this spells the letters that the mark of the end record has.
pub const LISTED_BOUND: usize = 19_200;

/// No size and no place below this spells the numbers that the mark has.
pub const READ_BOUND: usize = 83_886_080;

/// A package that is being written.
#[derive(Debug)]
pub struct ZipPackage {
    bytes: Vec<u8>,
    central: Vec<CentralEntry>,
}

impl ZipPackage {
    /// The entries written so far.
    pub closed spec fn records(&self) -> Seq<u8> {
        self.bytes@
    }

    /// The listings of the entries.
    pub closed spec fn entries(&self) -> Seq<Listing> {
        listings(self.central@)
    }

    pub fn new() -> (r: ZipPackage)
        ensures
            r.records() == Seq::<u8>::empty(),
            r.entries() == Seq::<Listing>::empty(),
    {
        let r = ZipPackage { bytes: Vec::new(), central: Vec::new() };
        assert(r.entries() =~= Seq::<Listing>::empty());
        r
    }

    /// Adds an entry without compression.
    pub fn add_stored(&mut self, name: &str, data: &[u8]) -> (r: Result<(), ZipError>)
        ensures
            if encode_utf8(name@).len() > u16::MAX || data@.len() > u32::MAX
                || old(self).records().len() > u32::MAX {
                &&& r == Err::<(), ZipError>(ZipError::Invalid)
                &&& final(self).records() == old(self).records()
                &&& final(self).entries() == old(self).entries()
            } else {
                &&& r is Ok
                &&& final(self).records() == old(self).records() + local_record(name@, data@)
                &&& final(self).entries() == old(self).entries().push(
                    (Listing {
                        name: name@,
                        crc: checksum(data@),
                        size: data@.len() as u32,
                        offset: old(self).records().len() as u32,
                    }),
                )
            },
    {
        let name_bytes = name.as_bytes();
        if name_bytes.len() > u16::MAX as usize || data.len() as u64 > u32::MAX as u64
            || self.bytes.len() as u64 > u32::MAX as u64 {
            return Err(ZipError::Invalid);
        }
        let ghost before = self.bytes@;
        let ghost listed = self.entries();
        let name_len: u16 = name_bytes.len() as u16;
        let size: u32 = data.len() as u32;
        let offset: u32 = self.bytes.len() as u32;
        let crc: u32 = crc32(data);
        push_u32_le(&mut self.bytes, 0x04034b50);
        push_u16_le(&mut self.bytes, 20);
        push_u16_le(&mut self.bytes, 0);
        push_u16_le(&mut self.bytes, 0);
        push_u16_le(&mut self.bytes, 0);
        push_u16_le(&mut self.bytes, 0);
        push_u32_le(&mut self.bytes, crc);
        push_u32_le(&mut self.bytes, size);
        push_u32_le(&mut self.bytes, size);
        push_u16_le(&mut self.bytes, name_len);
        push_u16_le(&mut self.bytes, 0);
        append(&mut self.bytes, name_bytes);
        append(&mut self.bytes, data);
        reveal(local_header);
        assert(self.bytes@ =~= before + local_record(name@, data@));
        let entry = CentralEntry { name: name.to_owned(), crc32: crc, size, local_offset: offset };
        let ghost added = entry@;
        self.central.push(entry);
        assert(self.entries() =~= listed.push(added));
        Ok(())
    }

    /// The bytes of the package; its numbers are cut to the widths that the
    /// format has for them.
    pub fn finish(self) -> (r: Vec<u8>)
        ensures
            r@ == package(self.records(), self.entries()),
    {
        let mut table: Vec<u8> = Vec::new();
        let ghost all = listings(self.central@);
        let mut i: usize = 0;
        while i < self.central.len()
            invariant
                i <= self.central@.len(),
                all == listings(self.central@),
                table@ == directory(all, i as int),
            decreases self.central@.len() - i,
        {
            let ghost before = table@;
            let entry = &self.central[i];
            assert(all[i as int] == entry@);
            let name = entry.name.as_str().as_bytes();
            push_u32_le(&mut table, 0x02014b50);
            push_u16_le(&mut table, 20);
            push_u16_le(&mut table, 20);
            push_u16_le(&mut table, 0);
            push_u16_le(&mut table, 0);
            push_u16_le(&mut table, 0);
            push_u16_le(&mut table, 0);
            push_u32_le(&mut table, entry.crc32);
            push_u32_le(&mut table, entry.size);
            push_u32_le(&mut table, entry.size);
            push_u16_le(&mut table, name.len() as u16);
            push_u16_le(&mut table, 0);
            push_u16_le(&mut table, 0);
            push_u16_le(&mut table, 0);
            push_u16_le(&mut table, 0);
            push_u32_le(&mut table, 0);
            push_u32_le(&mut table, entry.local_offset);
            append(&mut table, name);
            reveal(listing_header);
            assert(table@ =~= before + listing_record(entry@));
            i += 1;
        }
        let count: u16 = self.central.len() as u16;
        let size: u32 = table.len() as u32;
        let offset: u32 = self.bytes.len() as u32;
        let mut out = self.bytes;
        let ghost records = out@;
        append(&mut out, table.as_slice());
        push_u32_le(&mut out, 0x06054b50);
        push_u16_le(&mut out, 0);
        push_u16_le(&mut out, 0);
        push_u16_le(&mut out, count);
        push_u16_le(&mut out, count);
        push_u32_le(&mut out, size);
        push_u32_le(&mut out, offset);
        push_u16_le(&mut out, 0);
        reveal(end_record);
        assert(out@ =~= package(records, all));
        out
    }
}

/// What reading at most `most` bytes out of deflate data yields; nothing for
/// data that is no deflate stream as far as it is read.
pub uninterp spec fn deflate_prefix(data: Seq<u8>, most: nat) -> Option<Seq<u8>>;

/// Reads `flate2::read::DeflateDecoder` through `Read::take` to its end: at most
/// `most` bytes come out, and a decoder error gives none.
#[verifier::external_body]
pub(crate) fn read_deflate(data: &[u8], most: u64) -> (r: Option<Vec<u8>>)
    ensures
        match r {
            Some(out) => deflate_prefix(data@, most as nat) == Some(out@) && out@.len() <= most,
            None => deflate_prefix(data@, most as nat) is None,
        },
{
    let mut out = Vec::new();
    let mut decoder = flate2::read::DeflateDecoder::new(data).take(most);
    match decoder.read_to_end(&mut out) {
        Ok(_) => Some(out),
        Err(_) => None,
    }
}

/// What an entry holds, given what inflating it would yield.
pub open spec fn unpacked(
    method: int,
    stored: Seq<u8>,
    inflated: Option<Seq<u8>>,
    size: int,
    crc: u32,
) -> Result<Seq<u8>, ZipError> {
    let out = if method == 0 {
        Ok(stored)
    } else if method == 8 {
        match inflated {
            Some(out) => Ok(out),
            None => Err(ZipError::Decompression),
        }
    } else {
        Err(ZipError::Invalid)
    };
    match out {
        Ok(data) => if data.len() != size || data.len() > MAX_ENTRY_BYTES && method == 8
            || checksum(data) != crc {
            Err(ZipError::Invalid)
        } else {
            Ok(data)
        },
        Err(error) => Err(error),
    }
}

/// What the table says of an entry.
pub struct Found {
    pub method: int,
    pub crc: u32,
    pub stored: int,
    pub size: int,
    pub offset: int,
    pub name: Seq<char>,
    /// Where the next listing begins.
    pub next: int,
}

/// The listing that begins at `at`.
#[verifier::opaque]
pub open spec fn listing_at(b: Seq<u8>, at: int) -> Option<Found> {
    match (
        bytes::u32_le(b, at),
        bytes::u16_le(b, at + 10),
        bytes::u32_le(b, at + 16),
        bytes::u32_le(b, at + 20),
        bytes::u32_le(b, at + 24),
    ) {
        (Some(mark), Some(method), Some(crc), Some(stored), Some(size)) => match (
            bytes::u16_le(b, at + 28),
            bytes::u16_le(b, at + 30),
            bytes::u16_le(b, at + 32),
            bytes::u32_le(b, at + 42),
        ) {
            (Some(name_len), Some(extra), Some(comment), Some(offset)) => {
                let end = at + 46 + name_len;
                if mark != 0x02014b50 || end > b.len() || !valid_utf8(b.subrange(at + 46, end)) {
                    None
                } else {
                    Some(
                        Found {
                            method: method as int,
                            crc,
                            stored: stored as int,
                            size: size as int,
                            offset: offset as int,
                            name: decode_utf8(b.subrange(at + 46, end)),
                            next: end + extra + comment,
                        },
                    )
                }
            },
            _ => None,
        },
        _ => None,
    }
}

/// The bytes that a listing speaks of.
#[verifier::opaque]
pub open spec fn stored_data(b: Seq<u8>, found: Found) -> Option<Seq<u8>> {
    match (bytes::u16_le(b, found.offset + 26), bytes::u16_le(b, found.offset + 28)) {
        (Some(name_len), Some(extra)) => {
            let from = found.offset + 30 + name_len + extra;
            if found.size > MAX_ENTRY_BYTES || from + found.stored > b.len() {
                None
            } else {
                Some(b.subrange(from, from + found.stored))
            }
        },
        _ => None,
    }
}

/// The entry with that name, looked for in the table from `at` to `end`.
pub open spec fn entry_from(b: Seq<u8>, at: int, end: int, wanted: Seq<char>) -> Result<
    Seq<u8>,
    ZipError,
>
    decreases (if at < end {
        end - at
    } else {
        0int
    }),
{
    if at >= end {
        Err(ZipError::Missing)
    } else {
        match listing_at(b, at) {
            None => Err(ZipError::Invalid),
            Some(found) => if found.name == wanted {
                match stored_data(b, found) {
                    None => Err(ZipError::Invalid),
                    Some(stored) => unpacked(
                        found.method,
                        stored,
                        deflate_prefix(stored, (MAX_ENTRY_BYTES + 1) as nat),
                        found.size,
                        found.crc,
                    ),
                }
            } else if at < found.next <= usize::MAX {
                entry_from(b, found.next, end, wanted)
            } else {
                Err(ZipError::Invalid)
            },
        }
    }
}

pub open spec fn end_mark() -> Seq<u8> {
    bytes::le32(0x06054b50)
}

/// The entry of a package with that name.
pub open spec fn entry_of(b: Seq<u8>, wanted: Seq<char>) -> Result<Seq<u8>, ZipError> {
    match bytes::last_at(b, b.len() - 4, end_mark()) {
        None => Err(ZipError::Invalid),
        Some(end) => match (bytes::u32_le(b, end + 12), bytes::u32_le(b, end + 16)) {
            (Some(size), Some(offset)) => if offset + size > b.len() {
                Err(ZipError::Invalid)
            } else {
                entry_from(b, offset as int, offset + size, wanted)
            },
            _ => Err(ZipError::Invalid),
        },
    }
}

/// The outcome of unpacking an entry, given what inflating it yields.
pub fn unpack(
    method: u16,
    stored: &[u8],
    inflated: Option<Vec<u8>>,
    size: usize,
    crc: u32,
) -> (r: Result<Vec<u8>, ZipError>)
    ensures
        ({
            let expected = unpacked(
                method as int,
                stored@,
                match inflated {
                    Some(out) => Some(out@),
                    None => None,
                },
                size as int,
                crc,
            );
            match r {
                Ok(data) => expected == Ok::<Seq<u8>, ZipError>(data@),
                Err(error) => expected == Err::<Seq<u8>, ZipError>(error),
            }
        }),
{
    let data: Vec<u8> = if method == 0 {
        vstd::slice::slice_to_vec(stored)
    } else if method == 8 {
        match inflated {
            Some(out) => out,
            None => {
                return Err(ZipError::Decompression);
            },
        }
    } else {
        return Err(ZipError::Invalid);
    };
    if data.len() != size || (data.len() > MAX_ENTRY_BYTES && method == 8) || crc32(
        data.as_slice(),
    ) != crc {
        return Err(ZipError::Invalid);
    }
    Ok(data)
}

/// A listing as it was read.
struct FoundEntry {
    method: u16,
    crc: u32,
    stored: u32,
    size: u32,
    offset: u32,
    name: String,
    end: usize,
    skip: usize,
}

impl View for FoundEntry {
    type V = Found;

    closed spec fn view(&self) -> Found {
        Found {
            method: self.method as int,
            crc: self.crc,
            stored: self.stored as int,
            size: self.size as int,
            offset: self.offset as int,
            name: self.name@,
            next: self.end + self.skip,
        }
    }
}

fn read_listing(b: &[u8], at: usize) -> (r: Option<FoundEntry>)
    requires
        at <= b@.len(),
    ensures
        match r {
            Some(found) => listing_at(b@, at as int) == Some(found@) && found.end > at,
            None => listing_at(b@, at as int) is None,
        },
{
    reveal(listing_at);
    if b.len() - at < 46 {
        return None;
    }
    let mark = read_u32_le(b, at);
    let method = read_u16_le(b, at + 10);
    let crc = read_u32_le(b, at + 16);
    let stored = read_u32_le(b, at + 20);
    let size = read_u32_le(b, at + 24);
    let name_len = read_u16_le(b, at + 28);
    let extra = read_u16_le(b, at + 30);
    let comment = read_u16_le(b, at + 32);
    let offset = read_u32_le(b, at + 42);
    match (mark, method, crc, stored, size) {
        (Some(mark), Some(method), Some(crc), Some(stored), Some(size)) => match (
            name_len,
            extra,
            comment,
            offset,
        ) {
            (Some(name_len), Some(extra), Some(comment), Some(offset)) => {
                let start: usize = at + 46;
                if mark != 0x02014b50 || name_len as usize > b.len() - start {
                    return None;
                }
                let end: usize = start + name_len as usize;
                let skip: usize = extra as usize + comment as usize;
                let name = match text::from_utf8(vstd::slice::slice_subrange(b, start, end)) {
                    None => {
                        return None;
                    },
                    Some(name) => name,
                };
                Some(FoundEntry { method, crc, stored, size, offset, name, end, skip })
            },
            _ => None,
        },
        _ => None,
    }
}

fn read_entry(b: &[u8], found: &FoundEntry) -> (r: Result<Vec<u8>, ZipError>)
    ensures
        ({
            let expected = match stored_data(b@, found@) {
                None => Err(ZipError::Invalid),
                Some(stored) => unpacked(
                    found@.method,
                    stored,
                    deflate_prefix(stored, (MAX_ENTRY_BYTES + 1) as nat),
                    found@.size,
                    found@.crc,
                ),
            };
            match r {
                Ok(data) => expected == Ok::<Seq<u8>, ZipError>(data@),
                Err(error) => expected == Err::<Seq<u8>, ZipError>(error),
            }
        }),
{
    reveal(stored_data);
    let size: usize = found.size as usize;
    if size > MAX_ENTRY_BYTES {
        return Err(ZipError::Invalid);
    }
    let offset: usize = found.offset as usize;
    if offset > b.len() || b.len() - offset < 30 {
        return Err(ZipError::Invalid);
    }
    let (name_len, extra): (u16, u16) = match (
        read_u16_le(b, offset + 26),
        read_u16_le(b, offset + 28),
    ) {
        (Some(name_len), Some(extra)) => (name_len, extra),
        _ => {
            return Err(ZipError::Invalid);
        },
    };
    let skip: usize = name_len as usize + extra as usize;
    if skip > b.len() - offset - 30 {
        return Err(ZipError::Invalid);
    }
    let from: usize = offset + 30 + skip;
    if found.stored as usize > b.len() - from {
        return Err(ZipError::Invalid);
    }
    let stored = vstd::slice::slice_subrange(b, from, from + found.stored as usize);
    let inflated = if found.method == 8 {
        read_deflate(stored, (MAX_ENTRY_BYTES + 1) as u64)
    } else {
        None
    };
    unpack(found.method, stored, inflated, size, found.crc)
}

/// Reads the entry of a package with that name.
pub fn read_zip_entry(b: &[u8], wanted: &str) -> (r: Result<Vec<u8>, ZipError>)
    ensures
        match r {
            Ok(data) => entry_of(b@, wanted@) == Ok::<Seq<u8>, ZipError>(data@),
            Err(error) => entry_of(b@, wanted@) == Err::<Seq<u8>, ZipError>(error),
        },
{
    assert(b@.len() <= usize::MAX) by {
        assert(b.len() <= usize::MAX);
    }
    let mut mark: Vec<u8> = Vec::new();
    push_u32_le(&mut mark, 0x06054b50);
    assert(mark@ =~= end_mark());
    let end: usize = match find_last(b, mark.as_slice()) {
        None => {
            return Err(ZipError::Invalid);
        },
        Some(end) => end,
    };
    if b.len() - end < 20 {
        return Err(ZipError::Invalid);
    }
    let (size, offset): (usize, usize) = match (
        read_u32_le(b, end + 12),
        read_u32_le(b, end + 16),
    ) {
        (Some(size), Some(offset)) => (size as usize, offset as usize),
        _ => {
            return Err(ZipError::Invalid);
        },
    };
    if offset > b.len() || size > b.len() - offset {
        return Err(ZipError::Invalid);
    }
    let table_end: usize = offset + size;
    let mut at: usize = offset;
    while at < table_end
        invariant
            table_end <= b@.len() <= usize::MAX,
            entry_of(b@, wanted@) == entry_from(b@, at as int, table_end as int, wanted@),
        decreases (if at < table_end {
            table_end - at
        } else {
            0int
        }),
    {
        let found = match read_listing(b, at) {
            None => {
                return Err(ZipError::Invalid);
            },
            Some(found) => found,
        };
        if text::same(found.name.as_str(), wanted) {
            return read_entry(b, &found);
        }
        if found.skip > usize::MAX - found.end {
            return Err(ZipError::Invalid);
        }
        at = found.end + found.skip;
    }
    Err(ZipError::Missing)
}

/// The uncompressed entries for the first `n` items.
pub open spec fn records_of(items: Seq<(Seq<char>, Seq<u8>)>, n: int) -> Seq<u8>
    decreases n,
{
    if n <= 0 {
        Seq::empty()
    } else {
        records_of(items, n - 1) + local_record(items[n - 1].0, items[n - 1].1)
    }
}

/// The listings of uncompressed entries that were added one after the other.
pub open spec fn listings_of(items: Seq<(Seq<char>, Seq<u8>)>) -> Seq<Listing> {
    Seq::new(
        items.len(),
        |i: int|
            Listing {
                name: items[i].0,
                crc: checksum(items[i].1),
                size: items[i].1.len() as u32,
                offset: records_of(items, i).len() as u32,
            },
    )
}

/// The package of uncompressed entries that were added one after the other.
pub open spec fn package_of(items: Seq<(Seq<char>, Seq<u8>)>) -> Seq<u8> {
    package(records_of(items, items.len() as int), listings_of(items))
}

proof fn lemma_last_at(b: Seq<u8>, i: int, word: Seq<u8>, at: int)
    requires
        0 <= at <= i,
        bytes::occurs(b, at, word),
        forall|k: int| at < k <= i ==> !bytes::occurs(b, k, word),
    ensures
        bytes::last_at(b, i, word) == Some(at),
    decreases i - at,
{
    if at < i {
        lemma_last_at(b, i - 1, word, at);
    }
}

/// What stands in a part of `b` stands in `b`.
proof fn lemma_part(b: Seq<u8>, from: int, part: Seq<u8>, i: int, word: Seq<u8>)
    requires
        bytes::occurs(b, from, part),
        bytes::occurs(part, i, word),
    ensures
        bytes::occurs(b, from + i, word),
{
    assert(b.subrange(from + i, from + i + word.len()) =~= b.subrange(
        from,
        from + part.len(),
    ).subrange(i, i + word.len()));
}

proof fn lemma_listing(b: Seq<u8>, at: int, entry: Listing)
    requires
        bytes::occurs(b, at, listing_record(entry)),
        encode_utf8(entry.name).len() <= u16::MAX,
    ensures
        listing_at(b, at) == Some(
            Found {
                method: 0,
                crc: entry.crc,
                stored: entry.size as int,
                size: entry.size as int,
                offset: entry.offset as int,
                name: entry.name,
                next: at + listing_record(entry).len(),
            },
        ),
        listing_record(entry).len() >= 46,
{
    reveal(listing_header);
    reveal(listing_at);
    let record = listing_record(entry);
    let name = encode_utf8(entry.name);
    let name_len = name.len() as u16;
    encode_utf8_valid_utf8(entry.name);
    encode_utf8_decode_utf8(entry.name);
    assert(listing_header(entry).len() == 46);
    assert(record.subrange(0, 4) =~= bytes::le32(0x02014b50));
    assert(record.subrange(10, 12) =~= bytes::le16(0));
    assert(record.subrange(16, 20) =~= bytes::le32(entry.crc));
    assert(record.subrange(20, 24) =~= bytes::le32(entry.size));
    assert(record.subrange(24, 28) =~= bytes::le32(entry.size));
    assert(record.subrange(28, 30) =~= bytes::le16(name_len));
    assert(record.subrange(30, 32) =~= bytes::le16(0));
    assert(record.subrange(32, 34) =~= bytes::le16(0));
    assert(record.subrange(42, 46) =~= bytes::le32(entry.offset));
    assert(record.subrange(46, 46 + name.len() as int) =~= name);
    lemma_part(b, at, record, 0, bytes::le32(0x02014b50));
    lemma_part(b, at, record, 10, bytes::le16(0));
    lemma_part(b, at, record, 16, bytes::le32(entry.crc));
    lemma_part(b, at, record, 20, bytes::le32(entry.size));
    lemma_part(b, at, record, 24, bytes::le32(entry.size));
    lemma_part(b, at, record, 28, bytes::le16(name_len));
    lemma_part(b, at, record, 30, bytes::le16(0));
    lemma_part(b, at, record, 32, bytes::le16(0));
    lemma_part(b, at, record, 42, bytes::le32(entry.offset));
    lemma_part(b, at, record, 46, name);
    bytes::law_little_endian_round_trip(b, at, 0, 0x02014b50);
    bytes::law_little_endian_round_trip(b, at + 10, 0, 0);
    bytes::law_little_endian_round_trip(b, at + 16, 0, entry.crc);
    bytes::law_little_endian_round_trip(b, at + 20, 0, entry.size);
    bytes::law_little_endian_round_trip(b, at + 24, 0, entry.size);
    bytes::law_little_endian_round_trip(b, at + 28, name_len, 0);
    bytes::law_little_endian_round_trip(b, at + 30, 0, 0);
    bytes::law_little_endian_round_trip(b, at + 32, 0, 0);
    bytes::law_little_endian_round_trip(b, at + 42, 0, entry.offset);
    assert(b.subrange(at + 46, at + 46 + name_len) =~= name);
}

proof fn lemma_record(b: Seq<u8>, found: Found, name: Seq<char>, data: Seq<u8>)
    requires
        bytes::occurs(b, found.offset, local_record(name, data)),
        encode_utf8(name).len() <= u16::MAX,
        data.len() <= MAX_ENTRY_BYTES,
        found.size == data.len(),
        found.stored == data.len(),
    ensures
        stored_data(b, found) == Some(data),
{
    reveal(local_header);
    reveal(stored_data);
    let record = local_record(name, data);
    let encoded = encode_utf8(name);
    let name_len = encoded.len() as u16;
    let from = 30 + encoded.len() as int;
    let at = found.offset;
    assert(local_header(name_len, data).len() == 30);
    assert(record.subrange(26, 28) =~= bytes::le16(name_len));
    assert(record.subrange(28, 30) =~= bytes::le16(0));
    assert(record.subrange(from, from + data.len()) =~= data);
    lemma_part(b, at, record, 26, bytes::le16(name_len));
    lemma_part(b, at, record, 28, bytes::le16(0));
    lemma_part(b, at, record, from, data);
    bytes::law_little_endian_round_trip(b, at + 26, name_len, 0);
    bytes::law_little_endian_round_trip(b, at + 28, 0, 0);
}

proof fn lemma_directory(entries: Seq<Listing>, i: int, n: int)
    requires
        0 <= i < n <= entries.len(),
    ensures
        bytes::occurs(
            directory(entries, n),
            directory(entries, i).len() as int,
            listing_record(entries[i]),
        ),
        directory(entries, i + 1).len() == directory(entries, i).len() + listing_record(
            entries[i],
        ).len(),
        directory(entries, i + 1).len() <= directory(entries, n).len(),
    decreases n,
{
    let shorter = directory(entries, n - 1);
    let record = listing_record(entries[i]);
    let at = directory(entries, i).len() as int;
    if i == n - 1 {
        assert(directory(entries, n).subrange(at, at + record.len()) =~= record);
    } else {
        lemma_directory(entries, i, n - 1);
        assert(directory(entries, n).subrange(at, at + record.len()) =~= shorter.subrange(
            at,
            at + record.len(),
        ));
    }
}

proof fn lemma_records(items: Seq<(Seq<char>, Seq<u8>)>, i: int, n: int)
    requires
        0 <= i < n <= items.len(),
    ensures
        bytes::occurs(
            records_of(items, n),
            records_of(items, i).len() as int,
            local_record(items[i].0, items[i].1),
        ),
    decreases n,
{
    let shorter = records_of(items, n - 1);
    let record = local_record(items[i].0, items[i].1);
    let at = records_of(items, i).len() as int;
    if i == n - 1 {
        assert(records_of(items, n).subrange(at, at + record.len()) =~= record);
    } else {
        lemma_records(items, i, n - 1);
        assert(records_of(items, n).subrange(at, at + record.len()) =~= shorter.subrange(
            at,
            at + record.len(),
        ));
    }
}

proof fn lemma_walk(items: Seq<(Seq<char>, Seq<u8>)>, b: Seq<u8>, i: int, k: int)
    requires
        0 <= i <= k < items.len(),
        b == package_of(items),
        b.len() <= u32::MAX,
        forall|j: int|
            0 <= j < items.len() ==> encode_utf8((#[trigger] items[j]).0).len() <= u16::MAX,
        forall|j: int| 0 <= j < k ==> (#[trigger] items[j]).0 != items[k].0,
        items[k].1.len() <= MAX_ENTRY_BYTES,
    ensures
        ({
            let records = records_of(items, items.len() as int);
            let table = directory(listings_of(items), items.len() as int);
            entry_from(
                b,
                (records.len() + directory(listings_of(items), i).len()) as int,
                (records.len() + table.len()) as int,
                items[k].0,
            ) == Ok::<Seq<u8>, ZipError>(items[k].1)
        }),
    decreases k - i,
{
    let n = items.len() as int;
    let entries = listings_of(items);
    let records = records_of(items, n);
    let table = directory(entries, n);
    let at = records.len() + directory(entries, i).len();
    let end = records.len() + table.len();
    assert(b.subrange(records.len() as int, end as int) =~= table);
    lemma_directory(entries, i, n);
    lemma_part(
        b,
        records.len() as int,
        table,
        directory(entries, i).len() as int,
        listing_record(entries[i]),
    );
    assert(encode_utf8(items[i].0).len() <= u16::MAX);
    lemma_listing(b, at as int, entries[i]);
    let found = listing_at(b, at as int)->0;
    if i < k {
        lemma_walk(items, b, i + 1, k);
    } else {
        assert(b.subrange(0, records.len() as int) =~= records);
        lemma_records(items, k, n);
        let offset = records_of(items, k).len() as int;
        lemma_part(b, 0, records, offset, local_record(items[k].0, items[k].1));
        lemma_record(b, found, items[k].0, items[k].1);
    }
}

/// Looking for a name that no entry has from the `i`-th one on.
proof fn lemma_walk_past(
    items: Seq<(Seq<char>, Seq<u8>)>,
    b: Seq<u8>,
    i: int,
    wanted: Seq<char>,
)
    requires
        0 <= i <= items.len(),
        b == package_of(items),
        b.len() <= u32::MAX,
        forall|j: int|
            0 <= j < items.len() ==> encode_utf8((#[trigger] items[j]).0).len() <= u16::MAX,
        forall|j: int| 0 <= j < items.len() ==> (#[trigger] items[j]).0 != wanted,
    ensures
        ({
            let records = records_of(items, items.len() as int);
            let table = directory(listings_of(items), items.len() as int);
            entry_from(
                b,
                (records.len() + directory(listings_of(items), i).len()) as int,
                (records.len() + table.len()) as int,
                wanted,
            ) == Err::<Seq<u8>, ZipError>(ZipError::Missing)
        }),
    decreases items.len() - i,
{
    let n = items.len() as int;
    let entries = listings_of(items);
    let records = records_of(items, n);
    let table = directory(entries, n);
    let at = records.len() + directory(entries, i).len();
    let end = records.len() + table.len();
    if i < n {
        assert(b.subrange(records.len() as int, end as int) =~= table);
        lemma_directory(entries, i, n);
        lemma_part(
            b,
            records.len() as int,
            table,
            directory(entries, i).len() as int,
            listing_record(entries[i]),
        );
        assert(encode_utf8(items[i].0).len() <= u16::MAX);
        lemma_listing(b, at as int, entries[i]);
        assert(items[i].0 != wanted);
        lemma_walk_past(items, b, i + 1, wanted);
    }
}

proof fn lemma_end(b: Seq<u8>, at: int, count: int, size: int, offset: int)
    requires
        b.len() == at + 22,
        0 <= size <= u32::MAX,
        0 <= offset <= u32::MAX,
        bytes::occurs(b, at, end_record(count, size, offset)),
        forall|i: int|
            0 < i ==> !#[trigger] bytes::occurs(end_record(count, size, offset), i, end_mark()),
    ensures
        bytes::last_at(b, b.len() - 4, end_mark()) == Some(at),
        bytes::u32_le(b, at + 12) == Some(size as u32),
        bytes::u32_le(b, at + 16) == Some(offset as u32),
{
    reveal(end_record);
    let last = end_record(count, size, offset);
    assert(last.subrange(0, 4) =~= end_mark());
    assert(last.subrange(12, 16) =~= bytes::le32(size as u32));
    assert(last.subrange(16, 20) =~= bytes::le32(offset as u32));
    lemma_part(b, at, last, 0, end_mark());
    lemma_part(b, at, last, 12, bytes::le32(size as u32));
    lemma_part(b, at, last, 16, bytes::le32(offset as u32));
    bytes::law_little_endian_round_trip(b, at + 12, 0, size as u32);
    bytes::law_little_endian_round_trip(b, at + 16, 0, offset as u32);
    assert forall|i: int| at < i <= b.len() - 4 implies !bytes::occurs(b, i, end_mark()) by {
        if bytes::occurs(b, i, end_mark()) {
            assert(last.subrange(i - at, i - at + 4) =~= b.subrange(i, i + 4));
            assert(bytes::occurs(last, i - at, end_mark()));
        }
    }
    lemma_last_at(b, b.len() - 4, end_mark(), at);
}

proof fn lemma_end_len(count: int, size: int, offset: int)
    ensures
        end_record(count, size, offset).len() == 22,
{
    reveal(end_record);
}

proof fn lemma_record_start(name: Seq<char>, data: Seq<u8>)
    ensures
        local_record(name, data).len() >= 30,
        local_record(name, data)[0] == 0x50,
        local_record(name, data)[1] == 0x4b,
{
    reveal(local_header);
    let header = local_header(encode_utf8(name).len() as u16, data);
    let mark = bytes::le32(0x04034b50);
    assert(header.subrange(0, 4) =~= mark);
    assert(header[0] == header.subrange(0, 4)[0] && header[1] == header.subrange(0, 4)[1]);
    assert(mark[0] == 0x50 && mark[1] == 0x4b);
}

/// A package with an entry begins with the letters `PK`.
pub proof fn lemma_package_start(items: Seq<(Seq<char>, Seq<u8>)>)
    requires
        items.len() > 0,
    ensures
        package_of(items).len() >= 2,
        package_of(items)[0] == 0x50,
        package_of(items)[1] == 0x4b,
{
    let n = items.len() as int;
    let records = records_of(items, n);
    let record = local_record(items[0].0, items[0].1);
    lemma_records(items, 0, n);
    lemma_record_start(items[0].0, items[0].1);
    let first = records.subrange(0, record.len() as int);
    assert(first == record);
    assert(records[0] == first[0] && records[1] == first[1]);
    let table = directory(listings_of(items), n);
    let last = end_record(n, table.len() as int, records.len() as int);
    assert((records + table + last)[0] == records[0]);
    assert((records + table + last)[1] == records[1]);
}

/// The last record of a package spells the mark that it is found by just once, if
/// the package is not too large.
proof fn lemma_end_mark(count: int, size: int, offset: int)
    requires
        0 <= count < LISTED_BOUND,
        0 <= size < READ_BOUND,
        0 <= offset < READ_BOUND,
    ensures
        forall|i: int|
            0 < i ==> !#[trigger] bytes::occurs(end_record(count, size, offset), i, end_mark()),
{
    reveal(end_record);
    let b = end_record(count, size, offset);
    assert(b.len() == 22);
    assert forall|i: int| 0 < i implies !#[trigger] bytes::occurs(b, i, end_mark()) by {
        if bytes::occurs(b, i, end_mark()) {
            let w = b.subrange(i, i + 4);
            assert(w[0] == b[i] && w[1] == b[i + 1] && w[2] == b[i + 2] && w[3] == b[i + 3]);
            assert(w == end_mark());
            assert(b[i] == 0x50 && b[i + 1] == 0x4b && b[i + 2] == 5 && b[i + 3] == 6);
            assert(b[0] == 0x50 && b[1] == 0x4b && b[2] == 5 && b[3] == 6);
            assert(b[4] == 0 && b[5] == 0 && b[6] == 0 && b[7] == 0);
            assert(b[9] < 0x4b && b[11] < 0x4b && b[15] < 5);
            assert(b[19] < 5 && b[20] == 0 && b[21] == 0);
        }
    }
}

/// The package has few enough entries, of names that are short enough, and is
/// small enough for its end record to be told apart.
pub open spec fn can_be_read(items: Seq<(Seq<char>, Seq<u8>)>) -> bool {
    &&& items.len() < LISTED_BOUND
    &&& package_of(items).len() < READ_BOUND
    &&& forall|i: int|
        0 <= i < items.len() ==> encode_utf8((#[trigger] items[i]).0).len() <= u16::MAX
}

/// Where looking for an entry begins and ends.
proof fn lemma_looked_for(items: Seq<(Seq<char>, Seq<u8>)>, wanted: Seq<char>)
    requires
        can_be_read(items),
    ensures
        ({
            let records = records_of(items, items.len() as int);
            let table = directory(listings_of(items), items.len() as int);
            entry_of(package_of(items), wanted) == entry_from(
                package_of(items),
                records.len() as int,
                (records.len() + table.len()) as int,
                wanted,
            )
        }),
{
    let n = items.len() as int;
    let b = package_of(items);
    let records = records_of(items, n);
    let table = directory(listings_of(items), n);
    let at = (records.len() + table.len()) as int;
    let last = end_record(n, table.len() as int, records.len() as int);
    lemma_end_len(n, table.len() as int, records.len() as int);
    assert(b.subrange(at, at + 22) =~= last);
    lemma_end_mark(n, table.len() as int, records.len() as int);
    lemma_end(b, at, n, table.len() as int, records.len() as int);
}

/// An entry that was added to a package is read back from its bytes, where no
/// earlier entry has its name and it is not above the size that is read.
pub proof fn law_stored_entry_is_read_back(items: Seq<(Seq<char>, Seq<u8>)>, k: int)
    requires
        0 <= k < items.len(),
        can_be_read(items),
        forall|i: int| 0 <= i < k ==> (#[trigger] items[i]).0 != items[k].0,
        items[k].1.len() <= MAX_ENTRY_BYTES,
    ensures
        entry_of(package_of(items), items[k].0) == Ok::<Seq<u8>, ZipError>(items[k].1),
{
    lemma_looked_for(items, items[k].0);
    lemma_walk(items, package_of(items), 0, k);
}

/// A name that no entry of a package has is not found in it.
pub proof fn law_other_name_is_missing(items: Seq<(Seq<char>, Seq<u8>)>, wanted: Seq<char>)
    requires
        can_be_read(items),
        forall|i: int| 0 <= i < items.len() ==> (#[trigger] items[i]).0 != wanted,
    ensures
        entry_of(package_of(items), wanted) == Err::<Seq<u8>, ZipError>(ZipError::Missing),
{
    lemma_looked_for(items, wanted);
    lemma_walk_past(items, package_of(items), 0, wanted);
}

/// Of a package whose entries have different names, and which is not above the
/// size of the entries that are read, every entry is read back by its name, and
/// no other name is found.
pub proof fn law_package_is_read_back(items: Seq<(Seq<char>, Seq<u8>)>)
    requires
        can_be_read(items),
        package_of(items).len() <= MAX_ENTRY_BYTES,
        forall|i: int, j: int|
            0 <= i < j < items.len() ==> (#[trigger] items[i]).0 != (#[trigger] items[j]).0,
    ensures
        forall|k: int|
            0 <= k < items.len() ==> entry_of(package_of(items), (#[trigger] items[k]).0) == Ok::<
                Seq<u8>,
                ZipError,
            >(items[k].1),
        forall|wanted: Seq<char>|
            (forall|i: int| 0 <= i < items.len() ==> (#[trigger] items[i]).0 != wanted)
                ==> #[trigger] entry_of(package_of(items), wanted) == Err::<Seq<u8>, ZipError>(
                ZipError::Missing,
            ),
{
    let n = items.len() as int;
    assert forall|k: int| 0 <= k < items.len() implies entry_of(
        package_of(items),
        (#[trigger] items[k]).0,
    ) == Ok::<Seq<u8>, ZipError>(items[k].1) by {
        lemma_records(items, k, n);
        assert(local_record(items[k].0, items[k].1).len() <= records_of(items, n).len());
        law_stored_entry_is_read_back(items, k);
    }
    assert forall|wanted: Seq<char>|
        (forall|i: int| 0 <= i < items.len() ==> (#[trigger] items[i]).0
            != wanted) implies #[trigger] entry_of(package_of(items), wanted) == Err::<
        Seq<u8>,
        ZipError,
    >(ZipError::Missing) by {
        law_other_name_is_missing(items, wanted);
    }
}

} // verus!
