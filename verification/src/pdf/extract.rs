//! The text of a PDF file, page by page.

use vstd::prelude::*;
use vstd::utf8::*;

use crate::bytes;
use crate::pdf::content;
use crate::pdf::content::extract_page_content;
use crate::pdf::document;
use crate::pdf::document::parse_document;
use crate::pdf::error::{stopped, Failure, PdfError};
use crate::pdf::object;
use crate::pdf::object::{Objects, Thing};
use crate::pdf::pages;
use crate::pdf::pages::{ordered_pages, page_size};
use crate::pdf::selection::{PageSelection, Wanted, MAX_PAGES};
use crate::pdf::value::PdfRef;
use crate::stopping;
use crate::text;

verus! {

/// The most bytes of a file that are read at once.
pub const FILE_READ_BUFFER_BYTES: usize = 65_536;

/// The text of a page, and its size in points.
#[derive(Debug, Clone, PartialEq, Eq)]
pub struct TextPage {
    pub text: String,
    pub width_points: u32,
    pub height_points: u32,
    pub text_object_count: usize,
}

/// What contracts say of a `TextPage`.
pub struct PageText {
    pub text: Seq<char>,
    pub width: u32,
    pub height: u32,
    pub count: int,
}

impl View for TextPage {
    type V = PageText;

    open spec fn view(&self) -> PageText {
        PageText {
            text: self.text@,
            width: self.width_points,
            height: self.height_points,
            count: self.text_object_count as int,
        }
    }
}

pub open spec fn page_texts(pages: Seq<TextPage>) -> Seq<PageText> {
    Seq::new(pages.len(), |i: int| pages[i]@)
}

/// The text of the selected pages of a file.
#[derive(Debug, Clone, PartialEq, Eq)]
pub struct ExtractionResult {
    pub text: String,
    pub page_count: usize,
    pub selected_page_count: usize,
    pub text_object_count: usize,
    pub pages: Vec<TextPage>,
}

/// Failures of an extraction with limits.
#[derive(Debug)]
pub enum BoundedPageExtractionError {
    Pdf(PdfError),
    InputLimitExceeded,
    TextLimitExceeded,
}

/// What contracts say of a `BoundedPageExtractionError`.
pub enum Trouble {
    Pdf(Failure),
    InputLimitExceeded,
    TextLimitExceeded,
}

impl View for BoundedPageExtractionError {
    type V = Trouble;

    open spec fn view(&self) -> Trouble {
        match *self {
            BoundedPageExtractionError::Pdf(error) => Trouble::Pdf(error@),
            BoundedPageExtractionError::InputLimitExceeded => Trouble::InputLimitExceeded,
            BoundedPageExtractionError::TextLimitExceeded => Trouble::TextLimitExceeded,
        }
    }
}

/// The selected pages of a file.
#[derive(Debug)]
pub struct ExtractedPages {
    pub page_count: usize,
    pub selected_page_count: usize,
    pub text_object_count: usize,
    pub text_bytes: usize,
    pub pages: Vec<TextPage>,
}

/// What contracts say of `ExtractedPages`.
pub struct Extracted {
    pub page_count: int,
    pub count: int,
    pub bytes: int,
    pub pages: Seq<PageText>,
}

impl View for ExtractedPages {
    type V = Extracted;

    open spec fn view(&self) -> Extracted {
        Extracted {
            page_count: self.page_count as int,
            count: self.text_object_count as int,
            bytes: self.text_bytes as int,
            pages: page_texts(self.pages@),
        }
    }
}

/// A length of text that is allowed.
pub open spec fn text_fits(bytes: int, limit: Option<usize>) -> bool {
    bytes <= usize::MAX && match limit {
        Some(limit) => bytes <= limit,
        None => true,
    }
}

/// The wanted pages from the `i`-th on, put behind those found so far.
pub open spec fn wanted_pages(
    objects: Seq<(u32, Thing)>,
    pages: Seq<PdfRef>,
    i: int,
    wanted: Wanted,
    limit: Option<usize>,
    found: Extracted,
) -> Result<Extracted, Trouble>
    decreases pages.len() - i,
{
    if i < 0 || i >= pages.len() {
        Ok(found)
    } else if !wanted.has(i + 1) {
        wanted_pages(objects, pages, i + 1, wanted, limit, found)
    } else {
        match content::page_shown(objects, pages[i]) {
            Err(failure) => Err(Trouble::Pdf(failure)),
            Ok(shown) => {
                let bytes = found.bytes + encode_utf8(shown.text).len();
                if !text_fits(bytes, limit) {
                    Err(Trouble::TextLimitExceeded)
                } else if found.count + shown.count > usize::MAX {
                    Err(Trouble::Pdf(Failure::CorruptedPdf))
                } else {
                    let (width, height) = pages::size_from(
                        objects,
                        Some(pages[i]),
                        Set::empty(),
                        objects.len(),
                    );
                    let page = PageText { text: shown.text, width, height, count: shown.count };
                    wanted_pages(
                        objects,
                        pages,
                        i + 1,
                        wanted,
                        limit,
                        Extracted {
                            page_count: found.page_count,
                            count: found.count + shown.count,
                            bytes,
                            pages: found.pages.push(page),
                        },
                    )
                }
            },
        }
    }
}

/// The file begins as a PDF file does.
pub open spec fn has_magic(b: Seq<u8>) -> bool {
    bytes::occurs(b, 0, encode_utf8("%PDF-"@))
}

/// The wanted pages of a file.
pub open spec fn extracted(b: Seq<u8>, wanted: Wanted, limit: Option<usize>) -> Result<
    Extracted,
    Trouble,
> {
    if !has_magic(b) {
        Err(Trouble::Pdf(Failure::InvalidPdf))
    } else {
        match document::document(b) {
            Err(failure) => Err(Trouble::Pdf(failure)),
            Ok((objects, root)) => match pages::pages_of(objects, root) {
                Err(failure) => Err(Trouble::Pdf(failure)),
                Ok(pages) => if pages.len() == 0 {
                    Err(Trouble::Pdf(Failure::CorruptedPdf))
                } else if pages.len() > MAX_PAGES {
                    Err(Trouble::Pdf(Failure::PageLimitExceeded))
                } else if !wanted.within(pages.len() as int) {
                    Err(Trouble::Pdf(Failure::InvalidPageRange))
                } else {
                    wanted_pages(
                        objects,
                        pages,
                        0,
                        wanted,
                        limit,
                        Extracted {
                            page_count: pages.len() as int,
                            count: 0,
                            bytes: 0,
                            pages: Seq::empty(),
                        },
                    )
                },
            },
        }
    }
}

/// `r` reports a cancellation, and `stop` has asked for one.
pub open spec fn bounded_stopped<T, F: Fn() -> bool>(
    r: Result<T, BoundedPageExtractionError>,
    stop: F,
) -> bool {
    &&& r is Err
    &&& r->Err_0@ == Trouble::Pdf(Failure::Cancelled)
    &&& stop.ensures((), true)
}

/// `r` is the outcome `expected`, unless it reports a cancellation that `stop`
/// has asked for.
pub open spec fn bounded_settles<F: Fn() -> bool>(
    r: Result<ExtractedPages, BoundedPageExtractionError>,
    expected: Result<Extracted, Trouble>,
    stop: F,
) -> bool {
    bounded_stopped(r, stop) || match expected {
        Ok(found) => r is Ok && r->Ok_0@ == found && r->Ok_0.selected_page_count
            == found.pages.len(),
        Err(trouble) => r is Err && r->Err_0@ == trouble,
    }
}

fn extract_wanted_pages<F: Fn() -> bool>(
    objects: &Objects,
    pages: &Vec<PdfRef>,
    selection: &PageSelection,
    max_text_bytes: Option<usize>,
    should_stop: &F,
) -> (r: Result<ExtractedPages, BoundedPageExtractionError>)
    requires
        object::objects_wf(*objects),
        should_stop.requires(()),
        pages@.len() <= MAX_PAGES,
    ensures
        bounded_settles(
            r,
            wanted_pages(
                objects@,
                pages@,
                0,
                selection@,
                max_text_bytes,
                Extracted {
                    page_count: pages@.len() as int,
                    count: 0,
                    bytes: 0,
                    pages: Seq::empty(),
                },
            ),
            *should_stop,
        ),
{
    let mut found = ExtractedPages {
        page_count: pages.len(),
        selected_page_count: 0,
        text_object_count: 0,
        text_bytes: 0,
        pages: Vec::new(),
    };
    assert(found@.pages =~= Seq::<PageText>::empty());
    let ghost goal = wanted_pages(objects@, pages@, 0, selection@, max_text_bytes, found@);
    let mut i: usize = 0;
    while i < pages.len()
        invariant
            i <= pages@.len(),
            pages@.len() <= MAX_PAGES,
            object::objects_wf(*objects),
            should_stop.requires(()),
            goal == wanted_pages(
                objects@,
                pages@,
                0,
                selection@,
                max_text_bytes,
                Extracted {
                    page_count: pages@.len() as int,
                    count: 0,
                    bytes: 0,
                    pages: Seq::empty(),
                },
            ),
            wanted_pages(objects@, pages@, i as int, selection@, max_text_bytes, found@) == goal,
            found.selected_page_count == found.pages@.len(),
            found.selected_page_count <= i,
        decreases pages@.len() - i,
    {
        if should_stop() {
            return Err(BoundedPageExtractionError::Pdf(PdfError::Cancelled));
        }
        if selection.includes(i + 1) {
            let shown = match extract_page_content(objects, pages[i], should_stop) {
                Err(error) => {
                    return Err(BoundedPageExtractionError::Pdf(error));
                },
                Ok(shown) => shown,
            };
            let text = text::string_of(shown.text.as_slice());
            let more: usize = text.as_str().as_bytes().len();
            if more > usize::MAX - found.text_bytes {
                return Err(BoundedPageExtractionError::TextLimitExceeded);
            }
            let total: usize = found.text_bytes + more;
            if let Some(limit) = max_text_bytes {
                if total > limit {
                    return Err(BoundedPageExtractionError::TextLimitExceeded);
                }
            }
            if shown.text_object_count > usize::MAX - found.text_object_count {
                return Err(BoundedPageExtractionError::Pdf(PdfError::CorruptedPdf));
            }
            let (width_points, height_points) = page_size(objects, pages[i]);
            let page = TextPage {
                text,
                width_points,
                height_points,
                text_object_count: shown.text_object_count,
            };
            let ghost before = found@.pages;
            let ghost added = page@;
            found.text_bytes = total;
            found.text_object_count = found.text_object_count + shown.text_object_count;
            found.selected_page_count = found.selected_page_count + 1;
            found.pages.push(page);
            assert(found@.pages =~= before.push(added));
        }
        i += 1;
    }
    Ok(found)
}

/// Reads the selected pages of a file.
pub fn extract_selected_pages<F: Fn() -> bool>(
    bytes: &[u8],
    selection: &PageSelection,
    max_text_bytes: Option<usize>,
    should_stop: &F,
) -> (r: Result<ExtractedPages, BoundedPageExtractionError>)
    requires
        should_stop.requires(()),
    ensures
        stopping::always(*should_stop) ==> bounded_stopped(r, *should_stop),
        bounded_settles(r, extracted(bytes@, selection@, max_text_bytes), *should_stop),
{
    if should_stop() {
        return Err(BoundedPageExtractionError::Pdf(PdfError::Cancelled));
    }
    if !bytes::occurs_at(bytes, 0, "%PDF-".as_bytes()) {
        return Err(BoundedPageExtractionError::Pdf(PdfError::InvalidPdf));
    }
    let document = match parse_document(bytes, should_stop) {
        Err(error) => {
            return Err(BoundedPageExtractionError::Pdf(error));
        },
        Ok(document) => document,
    };
    if should_stop() {
        return Err(BoundedPageExtractionError::Pdf(PdfError::Cancelled));
    }
    let pages = match ordered_pages(&document.objects, document.root) {
        Err(error) => {
            return Err(BoundedPageExtractionError::Pdf(error));
        },
        Ok(pages) => pages,
    };
    if pages.len() == 0 {
        return Err(BoundedPageExtractionError::Pdf(PdfError::CorruptedPdf));
    }
    if pages.len() > MAX_PAGES {
        return Err(BoundedPageExtractionError::Pdf(PdfError::PageLimitExceeded));
    }
    if !selection.fits(pages.len()) {
        return Err(BoundedPageExtractionError::Pdf(PdfError::InvalidPageRange));
    }
    extract_wanted_pages(&document.objects, &pages, selection, max_text_bytes, should_stop)
}

/// The texts of pages.
pub open spec fn texts_of(pages: Seq<PageText>) -> Seq<Seq<char>> {
    Seq::new(pages.len(), |i: int| pages[i].text)
}

/// The texts of all pages, with an empty line between them.
pub open spec fn joined(pages: Seq<PageText>) -> Seq<char> {
    text::joined(texts_of(pages), "\n\n"@, pages.len() as int)
}

fn join_pages(pages: &Vec<TextPage>) -> (r: String)
    ensures
        r@ == joined(page_texts(pages@)),
{
    let mut parts: Vec<String> = Vec::new();
    let ghost all = texts_of(page_texts(pages@));
    let mut i: usize = 0;
    while i < pages.len()
        invariant
            i <= pages@.len(),
            all == texts_of(page_texts(pages@)),
            text::strings(parts@) == all.take(i as int),
        decreases pages@.len() - i,
    {
        let ghost before = text::strings(parts@);
        let part: String = pages[i].text.clone();
        let ghost added = part@;
        assert(added == all[i as int]);
        parts.push(part);
        assert(text::strings(parts@) =~= before.push(added));
        i += 1;
        assert(text::strings(parts@) =~= all.take(i as int));
    }
    assert(all.take(i as int) =~= all);
    text::join(&parts, "\n\n")
}

/// An extraction without limits never meets one.
pub open spec fn plain_failure(trouble: Trouble) -> Failure {
    match trouble {
        Trouble::Pdf(failure) => failure,
        _ => Failure::StreamLimitExceeded,
    }
}

fn plain_error(error: BoundedPageExtractionError) -> (r: PdfError)
    ensures
        r@ == plain_failure(error@),
{
    match error {
        BoundedPageExtractionError::Pdf(error) => error,
        _ => PdfError::StreamLimitExceeded,
    }
}

/// The text of the wanted pages of a file.
pub open spec fn text_of(b: Seq<u8>, wanted: Wanted) -> Result<Extracted, Failure> {
    match extracted(b, wanted, None) {
        Err(trouble) => Err(plain_failure(trouble)),
        Ok(found) => if found.count == 0 {
            Err(Failure::NoTextLayer)
        } else {
            Ok(found)
        },
    }
}

impl ExtractionResult {
    /// This is the outcome `found`.
    pub open spec fn tells(&self, found: Extracted) -> bool {
        &&& page_texts(self.pages@) == found.pages
        &&& self.page_count == found.page_count
        &&& self.selected_page_count == found.pages.len()
        &&& self.text_object_count == found.count
        &&& self.text@ == joined(found.pages)
    }
}

/// `r` is the text that `expected` gives.
pub open spec fn tells(
    r: Result<ExtractionResult, PdfError>,
    expected: Result<Extracted, Failure>,
) -> bool {
    match expected {
        Ok(found) => r is Ok && r->Ok_0.tells(found),
        Err(failure) => r is Err && r->Err_0@ == failure,
    }
}

/// Reads the text of the selected pages of a file, unless `should_stop` asks
/// to stop.
pub fn extract_text_with_control<F: Fn() -> bool>(
    bytes: &[u8],
    selection: &PageSelection,
    should_stop: F,
) -> (r: Result<ExtractionResult, PdfError>)
    requires
        should_stop.requires(()),
    ensures
        stopping::always(should_stop) ==> stopped(r, should_stop),
        stopped(r, should_stop) || tells(r, text_of(bytes@, selection@)),
{
    let extracted = match extract_selected_pages(bytes, selection, None, &should_stop) {
        Err(error) => {
            return Err(plain_error(error));
        },
        Ok(extracted) => extracted,
    };
    if extracted.text_object_count == 0 {
        return Err(PdfError::NoTextLayer);
    }
    let text = join_pages(&extracted.pages);
    Ok(
        ExtractionResult {
            text,
            page_count: extracted.page_count,
            selected_page_count: extracted.selected_page_count,
            text_object_count: extracted.text_object_count,
            pages: extracted.pages,
        },
    )
}

/// Reads the text of the selected pages of a file.
pub fn extract_text(bytes: &[u8], selection: &PageSelection) -> (r: Result<
    ExtractionResult,
    PdfError,
>)
    ensures
        tells(r, text_of(bytes@, selection@)),
{
    let never = || -> (b: bool) ensures !b, { false };
    extract_text_with_control(bytes, selection, never)
}

/// Failures while the bytes of a file are read.
#[derive(Debug)]
pub enum ControlledReadError {
    Pdf(PdfError),
    LimitExceeded,
}

/// What contracts say of a `ControlledReadError`.
pub enum ReadFailure {
    Pdf(Failure),
    LimitExceeded,
}

impl View for ControlledReadError {
    type V = ReadFailure;

    open spec fn view(&self) -> ReadFailure {
        match *self {
            ControlledReadError::Pdf(error) => ReadFailure::Pdf(error@),
            ControlledReadError::LimitExceeded => ReadFailure::LimitExceeded,
        }
    }
}

/// The bytes of a file while it is read chunk by chunk.
#[derive(Debug)]
pub struct PathReader {
    bytes: Vec<u8>,
    max_bytes: Option<u64>,
}

pub open spec fn allowed(length: int, max_bytes: Option<u64>) -> bool {
    match max_bytes {
        Some(limit) => length <= limit,
        None => true,
    }
}

impl PathReader {
    /// What has been read so far.
    pub closed spec fn read(&self) -> Seq<u8> {
        self.bytes@
    }

    pub closed spec fn limit(&self) -> Option<u64> {
        self.max_bytes
    }

    /// No more was read than is allowed.
    pub open spec fn wf(&self) -> bool {
        allowed(self.read().len() as int, self.limit()) || self.read().len() == 0
    }

    /// Begins to read a file. `stop` tells whether to stop before that, and
    /// `size` is the length that the file reports, or why it could not be
    /// opened.
    pub fn open(stop: bool, size: Result<u64, String>, max_bytes: Option<u64>) -> (r: Result<
        PathReader,
        ControlledReadError,
    >)
        ensures
            match r {
                Ok(reader) => {
                    &&& !stop
                    &&& size is Ok
                    &&& allowed(size->Ok_0 as int, max_bytes)
                    &&& reader.wf()
                    &&& reader.read() == Seq::<u8>::empty()
                    &&& reader.limit() == max_bytes
                },
                Err(error) => if stop {
                    error@ == ReadFailure::Pdf(Failure::Cancelled)
                } else {
                    match size {
                        Err(message) => error@ == ReadFailure::Pdf(Failure::Io(message@)),
                        Ok(size) => !allowed(size as int, max_bytes) && error@
                            == ReadFailure::LimitExceeded,
                    }
                },
            },
    {
        if stop {
            return Err(ControlledReadError::Pdf(PdfError::Cancelled));
        }
        let size: u64 = match size {
            Err(message) => {
                return Err(ControlledReadError::Pdf(PdfError::Io(message)));
            },
            Ok(size) => size,
        };
        if let Some(limit) = max_bytes {
            if size > limit {
                return Err(ControlledReadError::LimitExceeded);
            }
        }
        Ok(PathReader { bytes: Vec::new(), max_bytes })
    }

    /// Takes the next chunk of the file, or why it could not be read; tells
    /// whether there may be more. An empty chunk is the end.
    pub fn accept(&mut self, stop: bool, chunk: Result<&[u8], String>) -> (r: Result<
        bool,
        ControlledReadError,
    >)
        requires
            old(self).wf(),
        ensures
            final(self).wf(),
            final(self).limit() == old(self).limit(),
            match r {
                Ok(more) => {
                    &&& !stop
                    &&& chunk is Ok
                    &&& more == (chunk->Ok_0@.len() > 0)
                    &&& final(self).read() == old(self).read() + chunk->Ok_0@
                },
                Err(error) => {
                    &&& final(self).read() == old(self).read()
                    &&& if stop {
                        error@ == ReadFailure::Pdf(Failure::Cancelled)
                    } else {
                        match chunk {
                            Err(message) => error@ == ReadFailure::Pdf(Failure::Io(message@)),
                            Ok(chunk) => {
                                &&& chunk@.len() > 0
                                &&& error@ == ReadFailure::LimitExceeded
                                &&& {
                                    let length = old(self).read().len() + chunk@.len();
                                    length > usize::MAX || !allowed(
                                        length as int,
                                        old(self).limit(),
                                    )
                                }
                            },
                        }
                    }
                },
            },
    {
        if stop {
            return Err(ControlledReadError::Pdf(PdfError::Cancelled));
        }
        let chunk = match chunk {
            Err(message) => {
                return Err(ControlledReadError::Pdf(PdfError::Io(message)));
            },
            Ok(chunk) => chunk,
        };
        if chunk.len() == 0 {
            assert(self.read() =~= old(self).read() + chunk@);
            return Ok(false);
        }
        if chunk.len() > usize::MAX - self.bytes.len() {
            return Err(ControlledReadError::LimitExceeded);
        }
        let length: usize = self.bytes.len() + chunk.len();
        if let Some(limit) = self.max_bytes {
            if length as u64 > limit {
                return Err(ControlledReadError::LimitExceeded);
            }
        }
        bytes::append(&mut self.bytes, chunk);
        Ok(true)
    }

    /// The bytes that were read.
    pub fn finish(self) -> (r: Vec<u8>)
        ensures
            r@ == self.read(),
    {
        self.bytes
    }
}

/// What failing to read a file means where there is no limit.
pub open spec fn read_failure(failure: ReadFailure) -> Failure {
    match failure {
        ReadFailure::Pdf(failure) => failure,
        ReadFailure::LimitExceeded => Failure::StreamLimitExceeded,
    }
}

fn read_error(error: ControlledReadError) -> (r: PdfError)
    ensures
        r@ == read_failure(error@),
{
    match error {
        ControlledReadError::Pdf(error) => error,
        ControlledReadError::LimitExceeded => PdfError::StreamLimitExceeded,
    }
}

/// Reads the text of the selected pages of a file whose bytes are `input`,
/// unless reading them failed.
pub fn extract_text_from_path(
    input: Result<Vec<u8>, ControlledReadError>,
    selection: &PageSelection,
) -> (r: Result<ExtractionResult, PdfError>)
    ensures
        match input {
            Ok(bytes) => tells(r, text_of(bytes@, selection@)),
            Err(error) => r is Err && r->Err_0@ == read_failure(error@),
        },
{
    let never = || -> (b: bool) ensures !b, { false };
    extract_text_from_path_with_control(input, selection, never)
}

/// Reads the text of the selected pages of a file whose bytes are `input`,
/// unless reading them failed or `should_stop` asks to stop.
pub fn extract_text_from_path_with_control<F: Fn() -> bool>(
    input: Result<Vec<u8>, ControlledReadError>,
    selection: &PageSelection,
    should_stop: F,
) -> (r: Result<ExtractionResult, PdfError>)
    requires
        should_stop.requires(()),
    ensures
        input is Ok && stopping::always(should_stop) ==> stopped(r, should_stop),
        match input {
            Ok(bytes) => stopped(r, should_stop) || tells(r, text_of(bytes@, selection@)),
            Err(error) => r is Err && r->Err_0@ == read_failure(error@),
        },
{
    match input {
        Err(error) => Err(read_error(error)),
        Ok(bytes) => extract_text_with_control(bytes.as_slice(), selection, should_stop),
    }
}

/// Reads the selected pages of a file whose bytes are `input`, unless reading
/// them failed or `should_stop` asks to stop.
pub fn extract_pages_from_path_with_control<F: Fn() -> bool>(
    input: Result<Vec<u8>, ControlledReadError>,
    selection: &PageSelection,
    should_stop: F,
) -> (r: Result<Vec<TextPage>, PdfError>)
    requires
        should_stop.requires(()),
    ensures
        input is Ok && stopping::always(should_stop) ==> stopped(r, should_stop),
        match input {
            Ok(bytes) => stopped(r, should_stop) || match extracted(bytes@, selection@, None) {
                Ok(found) => r is Ok && page_texts(r->Ok_0@) == found.pages,
                Err(trouble) => r is Err && r->Err_0@ == plain_failure(trouble),
            },
            Err(error) => r is Err && r->Err_0@ == read_failure(error@),
        },
{
    match input {
        Err(error) => Err(read_error(error)),
        Ok(bytes) => match extract_selected_pages(bytes.as_slice(), selection, None, &should_stop) {
            Err(error) => Err(plain_error(error)),
            Ok(extracted) => Ok(extracted.pages),
        },
    }
}

/// The same with limits on the file, which reading it keeps, and on the text.
pub fn extract_pages_from_path_bounded_with_control<F: Fn() -> bool>(
    input: Result<Vec<u8>, ControlledReadError>,
    selection: &PageSelection,
    max_text_bytes: usize,
    should_stop: F,
) -> (r: Result<Vec<TextPage>, BoundedPageExtractionError>)
    requires
        should_stop.requires(()),
    ensures
        input is Ok && stopping::always(should_stop) ==> bounded_stopped(r, should_stop),
        match input {
            Ok(bytes) => bounded_stopped(r, should_stop) || match extracted(
                bytes@,
                selection@,
                Some(max_text_bytes),
            ) {
                Ok(found) => if found.count == 0 || found.bytes == 0 {
                    r is Err && r->Err_0@ == Trouble::Pdf(Failure::NoTextLayer)
                } else {
                    r is Ok && page_texts(r->Ok_0@) == found.pages
                },
                Err(trouble) => r is Err && r->Err_0@ == trouble,
            },
            Err(error) => r is Err && r->Err_0@ == match error@ {
                ReadFailure::Pdf(failure) => Trouble::Pdf(failure),
                ReadFailure::LimitExceeded => Trouble::InputLimitExceeded,
            },
        },
{
    match input {
        Err(error) => match error {
            ControlledReadError::Pdf(error) => Err(BoundedPageExtractionError::Pdf(error)),
            ControlledReadError::LimitExceeded => Err(
                BoundedPageExtractionError::InputLimitExceeded,
            ),
        },
        Ok(bytes) => {
            let extracted = match extract_selected_pages(
                bytes.as_slice(),
                selection,
                Some(max_text_bytes),
                &should_stop,
            ) {
                Err(error) => {
                    return Err(error);
                },
                Ok(extracted) => extracted,
            };
            if extracted.text_object_count == 0 || extracted.text_bytes == 0 {
                return Err(BoundedPageExtractionError::Pdf(PdfError::NoTextLayer));
            }
            Ok(extracted.pages)
        },
    }
}

proof fn lemma_wanted_pages(
    objects: Seq<(u32, Thing)>,
    pages: Seq<PdfRef>,
    i: int,
    wanted: Wanted,
    limit: Option<usize>,
    found: Extracted,
)
    requires
        0 <= i <= pages.len(),
        found.pages.len() <= i,
        0 <= found.bytes <= usize::MAX,
        limit is Some ==> found.bytes <= limit->0,
    ensures
        wanted_pages(objects, pages, i, wanted, limit, found) matches Ok(all) ==> {
            &&& all.page_count == found.page_count
            &&& all.pages.len() <= pages.len()
            &&& text_fits(all.bytes, limit)
            &&& found.pages.is_prefix_of(all.pages)
            &&& wanted is All ==> all.pages.len() == found.pages.len() + pages.len() - i
        },
    decreases pages.len() - i,
{
    if i < pages.len() {
        if !wanted.has(i + 1) {
            lemma_wanted_pages(objects, pages, i + 1, wanted, limit, found);
        } else if let Ok(shown) = content::page_shown(objects, pages[i]) {
            let bytes = found.bytes + encode_utf8(shown.text).len();
            if text_fits(bytes, limit) && found.count + shown.count <= usize::MAX {
                let (width, height) = pages::size_from(
                    objects,
                    Some(pages[i]),
                    Set::empty(),
                    objects.len(),
                );
                let page = PageText { text: shown.text, width, height, count: shown.count };
                let next = Extracted {
                    page_count: found.page_count,
                    count: found.count + shown.count,
                    bytes,
                    pages: found.pages.push(page),
                };
                lemma_wanted_pages(objects, pages, i + 1, wanted, limit, next);
                assert(found.pages.is_prefix_of(next.pages));
            }
        }
    }
}

/// An extraction keeps the limit on the text, and gives at most as many pages
/// as the file has: all of them where every page is asked for.
pub proof fn law_extraction_is_bounded(b: Seq<u8>, wanted: Wanted, limit: Option<usize>)
    ensures
        extracted(b, wanted, limit) matches Ok(found) ==> {
            &&& text_fits(found.bytes, limit)
            &&& 0 < found.page_count <= MAX_PAGES
            &&& found.pages.len() <= found.page_count
            &&& wanted is All ==> found.pages.len() == found.page_count
        },
{
    if let Ok((objects, root)) = document::document(b) {
        if let Ok(pages) = pages::pages_of(objects, root) {
            lemma_wanted_pages(
                objects,
                pages,
                0,
                wanted,
                limit,
                Extracted {
                    page_count: pages.len() as int,
                    count: 0,
                    bytes: 0,
                    pages: Seq::empty(),
                },
            );
        }
    }
}

/// Those of the first `n` pages whose numbers are in a set.
pub open spec fn picked(pages: Seq<PageText>, numbers: Set<usize>, n: int) -> Seq<PageText>
    decreases n,
{
    if n <= 0 {
        Seq::empty()
    } else if numbers.contains(n as usize) {
        picked(pages, numbers, n - 1).push(pages[n - 1])
    } else {
        picked(pages, numbers, n - 1)
    }
}

proof fn lemma_same_picked(a: Seq<PageText>, b: Seq<PageText>, numbers: Set<usize>, n: int)
    requires
        0 <= n <= a.len(),
        a.is_prefix_of(b),
    ensures
        picked(a, numbers, n) == picked(b, numbers, n),
    decreases n,
{
    if n > 0 {
        lemma_same_picked(a, b, numbers, n - 1);
        assert(a[n - 1] == b[n - 1]);
    }
}

/// Some pages are found as they are found among all pages.
proof fn lemma_picked(
    objects: Seq<(u32, Thing)>,
    pages: Seq<PdfRef>,
    i: int,
    numbers: Set<usize>,
    all: Extracted,
    some: Extracted,
)
    requires
        0 <= i <= pages.len() <= MAX_PAGES,
        all.pages.len() == i,
        wanted_pages(objects, pages, i, Wanted::All, None, all) is Ok,
        some.pages == picked(all.pages, numbers, i),
        0 <= some.bytes <= all.bytes,
        0 <= some.count <= all.count,
        some.page_count == all.page_count,
    ensures
        ({
            let whole = wanted_pages(objects, pages, i, Wanted::All, None, all);
            let part = wanted_pages(objects, pages, i, Wanted::Pages(numbers), None, some);
            &&& part is Ok
            &&& part->Ok_0.page_count == whole->Ok_0.page_count
            &&& part->Ok_0.pages == picked(
                whole->Ok_0.pages,
                numbers,
                pages.len() as int,
            )
        }),
    decreases pages.len() - i,
{
    if i < pages.len() {
        content::lemma_page_count(objects, pages[i]);
        let shown = content::page_shown(objects, pages[i])->Ok_0;
        let (width, height) = pages::size_from(objects, Some(pages[i]), Set::empty(), objects.len());
        let page = PageText { text: shown.text, width, height, count: shown.count };
        let length = encode_utf8(shown.text).len();
        let next = Extracted {
            page_count: all.page_count,
            count: all.count + shown.count,
            bytes: all.bytes + length,
            pages: all.pages.push(page),
        };
        lemma_same_picked(all.pages, next.pages, numbers, i);
        assert(next.pages[i] == page);
        if numbers.contains((i + 1) as usize) {
            let more = Extracted {
                page_count: some.page_count,
                count: some.count + shown.count,
                bytes: some.bytes + length,
                pages: some.pages.push(page),
            };
            assert(Wanted::Pages(numbers).has(i + 1));
            lemma_picked(objects, pages, i + 1, numbers, next, more);
        } else {
            assert(!Wanted::Pages(numbers).has(i + 1));
            lemma_picked(objects, pages, i + 1, numbers, next, some);
        }
    }
}

/// Pages that are asked for by their numbers are those of all the pages that have
/// these numbers, in their order, whether they show any text or not. A number that
/// no page has is refused.
pub proof fn law_selected_pages_are_among_all(b: Seq<u8>, numbers: Set<usize>)
    requires
        extracted(b, Wanted::All, None) is Ok,
    ensures
        ({
            let all = extracted(b, Wanted::All, None)->Ok_0.pages;
            let some = extracted(b, Wanted::Pages(numbers), None);
            if exists|n: usize| numbers.contains(n) && n > all.len() {
                some == Err::<Extracted, Trouble>(Trouble::Pdf(Failure::InvalidPageRange))
            } else {
                some is Ok && some->Ok_0.pages == picked(all, numbers, all.len() as int)
            }
        }),
{
    law_extraction_is_bounded(b, Wanted::All, None);
    let (objects, root) = document::document(b)->Ok_0;
    let pages = pages::pages_of(objects, root)->Ok_0;
    let none = Extracted { page_count: pages.len() as int, count: 0, bytes: 0, pages: Seq::empty() };
    lemma_wanted_pages(objects, pages, 0, Wanted::All, None, none);
    let all = extracted(b, Wanted::All, None)->Ok_0.pages;
    assert(all.len() == pages.len());
    if exists|n: usize| numbers.contains(n) && n > all.len() {
        let n = choose|n: usize| numbers.contains(n) && n > all.len();
        assert(!Wanted::Pages(numbers).within(pages.len() as int)) by {
            let wanted = Wanted::Pages(numbers);
            if wanted.within(pages.len() as int) {
                assert(wanted->Pages_0.contains(n));
            }
        }
    } else {
        assert(Wanted::Pages(numbers).within(pages.len() as int));
        assert(picked(none.pages, numbers, 0) =~= none.pages);
        lemma_picked(objects, pages, 0, numbers, none, none);
    }
}

/// The pages that are found among all from the `i`-th on are those of the
/// document, in order.
proof fn lemma_read(
    objects: Seq<(u32, Thing)>,
    pages: Seq<PdfRef>,
    i: int,
    found: Extracted,
    k: int,
)
    requires
        0 <= i <= k < pages.len(),
        found.pages.len() == i,
        0 <= found.bytes <= usize::MAX,
        wanted_pages(objects, pages, i, Wanted::All, None, found) is Ok,
    ensures
        ({
            let all = wanted_pages(objects, pages, i, Wanted::All, None, found)->Ok_0;
            let shown = content::page_shown(objects, pages[k]);
            &&& all.pages.len() == pages.len()
            &&& found.pages.is_prefix_of(all.pages)
            &&& shown is Ok
            &&& all.pages[k].text == shown->Ok_0.text
            &&& all.pages[k].count == shown->Ok_0.count
            &&& (all.pages[k].width, all.pages[k].height) == pages::size_from(
                objects,
                Some(pages[k]),
                Set::empty(),
                objects.len(),
            )
        }),
    decreases pages.len() - i,
{
    lemma_wanted_pages(objects, pages, i, Wanted::All, None, found);
    let shown = content::page_shown(objects, pages[i])->Ok_0;
    let (width, height) = pages::size_from(objects, Some(pages[i]), Set::empty(), objects.len());
    let page = PageText { text: shown.text, width, height, count: shown.count };
    let next = Extracted {
        page_count: found.page_count,
        count: found.count + shown.count,
        bytes: found.bytes + encode_utf8(shown.text).len(),
        pages: found.pages.push(page),
    };
    if i < k {
        lemma_read(objects, pages, i + 1, next, k);
    } else {
        lemma_wanted_pages(objects, pages, i + 1, Wanted::All, None, next);
        assert(next.pages[k] == page);
    }
}

/// Where all pages are asked for, the `k`-th that is found is the `k`-th of the
/// document, with the text that it shows and its size.
pub proof fn law_pages_are_read_in_order(b: Seq<u8>, k: int)
    requires
        extracted(b, Wanted::All, None) is Ok,
        0 <= k < extracted(b, Wanted::All, None)->Ok_0.pages.len(),
    ensures
        document::document(b) is Ok,
        ({
            let found = extracted(b, Wanted::All, None)->Ok_0;
            let (objects, root) = document::document(b)->Ok_0;
            let pages = pages::pages_of(objects, root)->Ok_0;
            let shown = content::page_shown(objects, pages[k]);
            &&& pages.len() == found.pages.len() == found.page_count
            &&& shown is Ok
            &&& found.pages[k].text == shown->Ok_0.text
            &&& found.pages[k].count == shown->Ok_0.count
            &&& (found.pages[k].width, found.pages[k].height) == pages::size_from(
                objects,
                Some(pages[k]),
                Set::empty(),
                objects.len(),
            )
        }),
{
    law_extraction_is_bounded(b, Wanted::All, None);
    let (objects, root) = document::document(b)->Ok_0;
    let pages = pages::pages_of(objects, root)->Ok_0;
    let none = Extracted { page_count: pages.len() as int, count: 0, bytes: 0, pages: Seq::empty() };
    lemma_wanted_pages(objects, pages, 0, Wanted::All, None, none);
    lemma_read(objects, pages, 0, none, k);
}

proof fn lemma_joined(a: Seq<Seq<char>>, b: Seq<Seq<char>>, n: int)
    requires
        n <= a.len(),
        n <= b.len(),
        forall|i: int| 0 <= i < n ==> a[i] == b[i],
    ensures
        text::joined(a, "\n\n"@, n) == text::joined(b, "\n\n"@, n),
    decreases n,
{
    if n > 1 {
        lemma_joined(a, b, n - 1);
    }
}

/// The text of a file is that of its pages, one behind the other, with an empty
/// line before each but the first.
pub proof fn law_pages_have_an_empty_line_between_them(pages: Seq<PageText>, page: PageText)
    ensures
        joined(seq![page]) == page.text,
        pages.len() > 0 ==> joined(pages.push(page)) == joined(pages) + seq!['\n', '\n']
            + page.text,
{
    reveal_strlit("\n\n");
    assert("\n\n"@ =~= seq!['\n', '\n']);
    lemma_joined(texts_of(pages), texts_of(pages.push(page)), pages.len() as int);
}

} // verus!
