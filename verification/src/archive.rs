//! Writing and reading ZIP archives through the `zip` crate.

use std::io::{Cursor, Read, Write};

use zip::write::SimpleFileOptions;
use zip::{CompressionMethod, ZipArchive, ZipWriter};

use vstd::prelude::*;
use vstd::utf8::*;

verus! {

/// A `zip::ZipWriter`, which takes the parts of an archive one by one.
#[verifier::external_body]
pub struct ArchiveWriter {
    writer: ZipWriter<Cursor<Vec<u8>>>,
}

/// The names and contents of the parts that a writer has taken.
pub uninterp spec fn written_parts(writer: &ArchiveWriter) -> Seq<(Seq<char>, Seq<u8>)>;

/// No call on a writer has failed.
pub uninterp spec fn is_sound(writer: &ArchiveWriter) -> bool;

/// The name of a part has fewer bytes.
pub const NAME_BOUND: usize = 65_505;

/// The content of a part has fewer bytes, and so have a moderate archive's parts
/// together.
pub const CONTENT_BOUND: u64 = 0xffff_ffff;

/// One of the parts has that name.
pub open spec fn is_used(parts: Seq<(Seq<char>, Seq<u8>)>, name: Seq<char>) -> bool {
    exists|i: int| 0 <= i < parts.len() && (#[trigger] parts[i]).0 == name
}

/// A writer takes one more part: no other has its name, and the name and the
/// content are not too long.
pub open spec fn takes(
    parts: Seq<(Seq<char>, Seq<u8>)>,
    name: Seq<char>,
    content: Seq<u8>,
) -> bool {
    &&& !is_used(parts, name)
    &&& encode_utf8(name).len() < NAME_BOUND
    &&& content.len() < CONTENT_BOUND
}

/// Why a part of an archive cannot be read.
#[derive(Debug)]
pub enum PartError {
    /// The archive is none, or has no such part.
    Zip(String),
    /// The part cannot be decompressed.
    Io(String),
}

/// What contracts say of a `PartError`.
pub enum PartTrouble {
    Zip(Seq<char>),
    Io(Seq<char>),
}

impl View for PartError {
    type V = PartTrouble;

    open spec fn view(&self) -> PartTrouble {
        match *self {
            PartError::Zip(message) => PartTrouble::Zip(message@),
            PartError::Io(message) => PartTrouble::Io(message@),
        }
    }
}

/// What `zip::ZipArchive::by_name` finds under a name: the size that the archive
/// tells, and the content, of which no more than one byte beyond `limit` is read.
pub uninterp spec fn part_of(b: Seq<u8>, name: Seq<char>, limit: u64) -> Result<
    (u64, Seq<u8>),
    PartTrouble,
>;

/// What contracts say of a part that was read.
pub open spec fn seen_part(r: Result<(u64, Vec<u8>), PartError>) -> Result<
    (u64, Seq<u8>),
    PartTrouble,
> {
    match r {
        Ok((size, content)) => Ok((size, content@)),
        Err(error) => Err(error@),
    }
}

/// A name of visible ASCII characters, without `\\` and with no `/` at its end.
pub open spec fn is_plain_name(name: Seq<char>) -> bool {
    &&& name.len() > 0
    &&& name.last() != '/'
    &&& forall|i: int|
        0 <= i < name.len() ==> '!' <= #[trigger] name[i] <= '~' && name[i] != '\\'
}

/// An archive has fewer parts than this, or tells its numbers in longer records.
pub const COUNT_BOUND: usize = 65_535;

/// The bytes of the parts with what stands before each of them.
pub open spec fn records_size(parts: Seq<(Seq<char>, Seq<u8>)>) -> int
    decreases parts.len(),
{
    if parts.len() == 0 {
        0
    } else {
        records_size(parts.drop_last()) + 30 + encode_utf8(parts.last().0).len()
            + parts.last().1.len()
    }
}

/// The bytes of the table that lists the parts.
pub open spec fn table_size(parts: Seq<(Seq<char>, Seq<u8>)>) -> int
    decreases parts.len(),
{
    if parts.len() == 0 {
        0
    } else {
        table_size(parts.drop_last()) + 46 + encode_utf8(parts.last().0).len()
    }
}

/// The numbers of an archive of these parts fit into its short records.
pub open spec fn is_moderate(parts: Seq<(Seq<char>, Seq<u8>)>) -> bool {
    &&& parts.len() < COUNT_BOUND
    &&& records_size(parts) < CONTENT_BOUND
    &&& table_size(parts) < CONTENT_BOUND
}

/// Every part is found in the archive `b` under its name.
pub open spec fn holds_parts(b: Seq<u8>, parts: Seq<(Seq<char>, Seq<u8>)>) -> bool {
    forall|i: int, limit: u64|
        0 <= i < parts.len() && is_plain_name(parts[i].0) && parts[i].1.len() <= limit && limit
            < u64::MAX ==> #[trigger] part_of(b, parts[i].0, limit) == Ok::<
            (u64, Seq<u8>),
            PartTrouble,
        >((parts[i].1.len() as u64, parts[i].1))
}

/// Calls `zip::ZipWriter::new`.
#[verifier::external_body]
pub(crate) fn new_archive() -> (r: ArchiveWriter)
    ensures
        written_parts(&r) == Seq::<(Seq<char>, Seq<u8>)>::empty(),
        is_sound(&r),
{
    ArchiveWriter { writer: ZipWriter::new(Cursor::new(Vec::new())) }
}

/// Calls `zip::ZipWriter::start_file` and writes an uncompressed part into
/// memory, which does not fail of itself. It fails for a name that another part
/// has, and for a name or a content that is too long. Nothing is said of a writer
/// that has failed.
#[verifier::external_body]
pub(crate) fn add_part(writer: &mut ArchiveWriter, name: &str, content: &[u8]) -> (r:
    Result<(), String>)
    requires
        is_sound(old(writer)),
    ensures
        r is Ok <==> takes(written_parts(old(writer)), name@, content@),
        r is Ok ==> written_parts(final(writer)) == written_parts(old(writer)).push(
            (name@, content@),
        ),
        r is Ok ==> is_sound(final(writer)),
{
    let options = SimpleFileOptions::default().compression_method(CompressionMethod::Stored);
    writer.writer.start_file(name, options).map_err(|error| error.to_string())?;
    writer.writer.write_all(content).map_err(|error| error.to_string())
}

/// Calls `zip::ZipWriter::finish` on a writer into memory, which does not fail
/// of itself. Where the numbers of the archive fit into its short records, the
/// parts are found in it by their names. Nothing is said of where they do not: a
/// count or a size that is just at the bound is written as in a short record and
/// read as a sign of long ones. The archive also tells when it was written.
#[verifier::external_body]
pub(crate) fn finish_archive(writer: ArchiveWriter) -> (r: Result<Vec<u8>, String>)
    requires
        is_sound(&writer),
    ensures
        r is Ok,
        is_moderate(written_parts(&writer)) ==> holds_parts(r->Ok_0@, written_parts(&writer)),
{
    writer.writer.finish().map(|cursor| cursor.into_inner()).map_err(|error| error.to_string())
}

/// Calls `zip::ZipArchive::new` and `zip::ZipArchive::by_name`, and reads the
/// part.
#[verifier::external_body]
pub(crate) fn read_part(b: &[u8], name: &str, limit: u64) -> (r: Result<
    (u64, Vec<u8>),
    PartError,
>)
    requires
        limit < u64::MAX,
    ensures
        seen_part(r) == part_of(b@, name@, limit),
{
    let mut archive = ZipArchive::new(Cursor::new(b)).map_err(|error| PartError::Zip(error.to_string()))?;
    let mut part = archive.by_name(name).map_err(|error| PartError::Zip(error.to_string()))?;
    let size = part.size();
    let mut content = Vec::new();
    part.by_ref().take(limit + 1).read_to_end(&mut content).map_err(|error| PartError::Io(error.to_string()))?;
    Ok((size, content))
}

} // verus!
