//! Word documents: writing plain pages, and reading their text back.

use vstd::prelude::*;
use vstd::utf8::*;

use crate::bytes;
use crate::docx_marks;
use crate::pdf::content;
use crate::text;
use crate::xml;
use crate::xml::{
    attribute_value, next_resolved, push_referred, resolved_reader, Piece, Tag, XmlEvent, XmlTag,
};
use crate::xml_marks;
use crate::zip_store;
use crate::zip_store::{read_zip_entry, ZipError, ZipPackage};

verus! {

/// Failures while writing or reading a document.
#[derive(Debug)]
pub enum DocxError {
    InvalidPackage,
    InvalidDocument,
    UnsupportedVisualContent,
    LegacyDocUnsupported,
    Io(String),
    Decompression,
}

/// What contracts say of a `DocxError`.
pub enum Wrong {
    InvalidPackage,
    InvalidDocument,
    UnsupportedVisualContent,
    LegacyDocUnsupported,
    Io(Seq<char>),
    Decompression,
}

impl View for DocxError {
    type V = Wrong;

    open spec fn view(&self) -> Wrong {
        match *self {
            DocxError::InvalidPackage => Wrong::InvalidPackage,
            DocxError::InvalidDocument => Wrong::InvalidDocument,
            DocxError::UnsupportedVisualContent => Wrong::UnsupportedVisualContent,
            DocxError::LegacyDocUnsupported => Wrong::LegacyDocUnsupported,
            DocxError::Io(message) => Wrong::Io(message@),
            DocxError::Decompression => Wrong::Decompression,
        }
    }
}

impl DocxError {
    pub open spec fn message_spec(self) -> Seq<char> {
        match self {
            DocxError::InvalidPackage => "DOCX package structure is invalid"@,
            DocxError::InvalidDocument => "DOCX content could not be read"@,
            DocxError::UnsupportedVisualContent =>
                "DOCX to PDF does not support images, drawings, embedded objects, headers, or footnotes"@,
            DocxError::LegacyDocUnsupported => "Legacy binary DOC files are not supported"@,
            DocxError::Io(message) => "DOCX read/write failed: "@ + message@,
            DocxError::Decompression => "DOCX extraction failed"@,
        }
    }

    /// The sentence that tells a user what went wrong.
    pub fn message(&self) -> (r: String)
        ensures
            r@ == self.message_spec(),
    {
        match self {
            DocxError::InvalidPackage => "DOCX package structure is invalid".to_owned(),
            DocxError::InvalidDocument => "DOCX content could not be read".to_owned(),
            DocxError::UnsupportedVisualContent =>
                "DOCX to PDF does not support images, drawings, embedded objects, headers, or footnotes".to_owned(),
            DocxError::LegacyDocUnsupported =>
                "Legacy binary DOC files are not supported".to_owned(),
            DocxError::Io(message) => {
                let mut text = "DOCX read/write failed: ".to_owned();
                text.push_str(message.as_str());
                text
            },
            DocxError::Decompression => "DOCX extraction failed".to_owned(),
        }
    }
}

pub const CONTENT_TYPES: &'static str = "<?xml version=\"1.0\" encoding=\"UTF-8\" standalone=\"yes\"?>\n<Types xmlns=\"http://schemas.openxmlformats.org/package/2006/content-types\">\n<Default Extension=\"rels\" ContentType=\"application/vnd.openxmlformats-package.relationships+xml\"/>\n<Default Extension=\"xml\" ContentType=\"application/xml\"/>\n<Override PartName=\"/word/document.xml\" ContentType=\"application/vnd.openxmlformats-officedocument.wordprocessingml.document.main+xml\"/>\n</Types>";

pub const ROOT_RELS: &'static str = "<?xml version=\"1.0\" encoding=\"UTF-8\" standalone=\"yes\"?>\n<Relationships xmlns=\"http://schemas.openxmlformats.org/package/2006/relationships\">\n<Relationship Id=\"rId1\" Type=\"http://schemas.openxmlformats.org/officeDocument/2006/relationships/officeDocument\" Target=\"word/document.xml\"/>\n</Relationships>";

pub const DOCUMENT_RELS: &'static str = "<?xml version=\"1.0\" encoding=\"UTF-8\" standalone=\"yes\"?>\n<Relationships xmlns=\"http://schemas.openxmlformats.org/package/2006/relationships\"></Relationships>";

pub const WORD_NAMESPACE: &'static str = "http://schemas.openxmlformats.org/wordprocessingml/2006/main";

pub const STRICT_WORD_NAMESPACE: &'static str = "http://purl.oclc.org/ooxml/wordprocessingml/main";

/// What stands for a character in XML text.
pub open spec fn escaped_char(c: char) -> Seq<char> {
    if c == '&' {
        "&amp;"@
    } else if c == '<' {
        "&lt;"@
    } else if c == '>' {
        "&gt;"@
    } else if c == '"' {
        "&quot;"@
    } else if c == '\'' {
        "&apos;"@
    } else {
        seq![c]
    }
}

/// The XML text for the first `n` characters.
pub open spec fn escaped(s: Seq<char>, n: int) -> Seq<char>
    decreases n,
{
    if n <= 0 {
        Seq::empty()
    } else {
        escaped(s, n - 1) + escaped_char(s[n - 1])
    }
}

fn push_char(out: &mut Vec<char>, c: char)
    ensures
        final(out)@ == old(out)@ + seq![c],
{
    let ghost before = out@;
    out.push(c);
    assert(out@ =~= before + seq![c]);
}

fn push_escaped(out: &mut Vec<char>, s: &[char])
    ensures
        final(out)@ == old(out)@ + escaped(s@, s@.len() as int),
{
    let ghost before = out@;
    let mut i: usize = 0;
    assert(out@ =~= before + escaped(s@, 0));
    while i < s.len()
        invariant
            i <= s@.len(),
            out@ == before + escaped(s@, i as int),
        decreases s@.len() - i,
    {
        let c: char = s[i];
        if c == '&' {
            text::push_string(out, "&amp;");
        } else if c == '<' {
            text::push_string(out, "&lt;");
        } else if c == '>' {
            text::push_string(out, "&gt;");
        } else if c == '"' {
            text::push_string(out, "&quot;");
        } else if c == '\'' {
            text::push_string(out, "&apos;");
        } else {
            push_char(out, c);
        }
        i += 1;
        assert(out@ =~= before + escaped(s@, i as int));
    }
}

/// The text with the characters that mean something to XML replaced.
pub fn escape_xml(value: &str) -> (r: String)
    ensures
        r@ == escaped(value@, value@.len() as int),
{
    let mut out: Vec<char> = Vec::new();
    push_escaped(&mut out, text::chars_of(value).as_slice());
    assert(out@ =~= escaped(value@, value@.len() as int));
    text::string_of(out.as_slice())
}

pub open spec fn paragraph(line: Seq<char>) -> Seq<char> {
    "<w:p><w:r><w:t xml:space=\"preserve\">"@ + escaped(line, line.len() as int)
        + "</w:t></w:r></w:p>"@
}

/// The paragraphs for the first `n` lines.
pub open spec fn paragraphs(lines: Seq<Seq<char>>, n: int) -> Seq<char>
    decreases n,
{
    if n <= 0 {
        Seq::empty()
    } else {
        paragraphs(lines, n - 1) + paragraph(lines[n - 1])
    }
}

/// The paragraphs of a page; an empty page has an empty one.
pub open spec fn page_xml(page: Seq<char>) -> Seq<char> {
    let lines = text::lines_from(page, 0);
    paragraphs(lines, lines.len() as int) + if page.len() == 0 {
        "<w:p/>"@
    } else {
        Seq::empty()
    }
}

/// The first `n` pages, with a page break behind each but the last of all.
pub open spec fn pages_xml(pages: Seq<Seq<char>>, n: int) -> Seq<char>
    decreases n,
{
    if n <= 0 {
        Seq::empty()
    } else {
        pages_xml(pages, n - 1) + page_xml(pages[n - 1]) + if n < pages.len() {
            "<w:p><w:r><w:br w:type=\"page\"/></w:r></w:p>"@
        } else {
            Seq::empty()
        }
    }
}

pub const DOCUMENT_START: &'static str = "<?xml version=\"1.0\" encoding=\"UTF-8\" standalone=\"yes\"?>\n<w:document xmlns:w=\"http://schemas.openxmlformats.org/wordprocessingml/2006/main\">\n<w:body>";

/// The main part of a document with these pages.
pub open spec fn document_text(pages: Seq<Seq<char>>) -> Seq<char> {
    DOCUMENT_START@ + pages_xml(pages, pages.len() as int) + "</w:body></w:document>"@
}

fn push_page(body: &mut Vec<char>, page: &str)
    ensures
        final(body)@ == old(body)@ + page_xml(page@),
{
    let ghost before = body@;
    let chars = text::chars_of(page);
    let lines = text::lines_of(chars.as_slice());
    let ghost all = text::texts(lines@);
    let mut i: usize = 0;
    assert(body@ =~= before + paragraphs(all, 0));
    while i < lines.len()
        invariant
            i <= lines@.len(),
            all == text::texts(lines@),
            body@ == before + paragraphs(all, i as int),
        decreases lines@.len() - i,
    {
        text::push_string(body, "<w:p><w:r><w:t xml:space=\"preserve\">");
        push_escaped(body, lines[i].as_slice());
        text::push_string(body, "</w:t></w:r></w:p>");
        assert(all[i as int] == lines@[i as int]@);
        i += 1;
        assert(body@ =~= before + paragraphs(all, i as int));
    }
    if chars.len() == 0 {
        text::push_string(body, "<w:p/>");
    }
    assert(body@ =~= before + page_xml(page@));
}

/// The main part of a document with these pages.
pub fn document_xml(pages: &Vec<String>) -> (r: String)
    ensures
        r@ == document_text(text::strings(pages@)),
{
    let mut body: Vec<char> = Vec::new();
    text::push_string(&mut body, DOCUMENT_START);
    let ghost all = text::strings(pages@);
    let mut i: usize = 0;
    assert(body@ =~= DOCUMENT_START@ + pages_xml(all, 0));
    while i < pages.len()
        invariant
            i <= pages@.len(),
            all == text::strings(pages@),
            body@ == DOCUMENT_START@ + pages_xml(all, i as int),
        decreases pages@.len() - i,
    {
        push_page(&mut body, pages[i].as_str());
        i += 1;
        if i < pages.len() {
            text::push_string(&mut body, "<w:p><w:r><w:br w:type=\"page\"/></w:r></w:p>");
        }
        assert(body@ =~= DOCUMENT_START@ + pages_xml(all, i as int));
    }
    text::push_string(&mut body, "</w:body></w:document>");
    text::string_of(body.as_slice())
}

/// The parts of a document with these pages, in order.
pub open spec fn document_parts(pages: Seq<Seq<char>>) -> Seq<(Seq<char>, Seq<u8>)> {
    seq![
        ("[Content_Types].xml"@, encode_utf8(CONTENT_TYPES@)),
        ("_rels/.rels"@, encode_utf8(ROOT_RELS@)),
        ("word/document.xml"@, encode_utf8(document_text(pages))),
        ("word/_rels/document.xml.rels"@, encode_utf8(DOCUMENT_RELS@)),
    ]
}

/// Every part but the last ends within what a package can number, and no part
/// is larger.
pub open spec fn parts_fit(parts: Seq<(Seq<char>, Seq<u8>)>) -> bool {
    forall|i: int|
        0 <= i < parts.len() ==> (#[trigger] parts[i]).1.len() <= u32::MAX && zip_store::records_of(
            parts,
            i,
        ).len() <= u32::MAX
}

/// Writes a document with these pages.
pub fn write_text_docx(pages: &Vec<String>) -> (r: Result<Vec<u8>, DocxError>)
    ensures
        ({
            let parts = document_parts(text::strings(pages@));
            if parts_fit(parts) {
                r is Ok && r->Ok_0@ == zip_store::package_of(parts)
            } else {
                r is Err && r->Err_0@ == Wrong::InvalidPackage
            }
        }),
{
    let document = document_xml(pages);
    let mut package = ZipPackage::new();
    let ghost parts = document_parts(text::strings(pages@));
    proof {
        reveal_strlit("[Content_Types].xml");
        reveal_strlit("_rels/.rels");
        reveal_strlit("word/document.xml");
        reveal_strlit("word/_rels/document.xml.rels");
        is_ascii_chars_encode_utf8("[Content_Types].xml"@);
        is_ascii_chars_encode_utf8("_rels/.rels"@);
        is_ascii_chars_encode_utf8("word/document.xml"@);
        is_ascii_chars_encode_utf8("word/_rels/document.xml.rels"@);
        reveal_with_fuel(zip_store::records_of, 5);
        assert(parts[0].1 == encode_utf8(CONTENT_TYPES@));
        assert(parts[1].1 == encode_utf8(ROOT_RELS@));
        assert(parts[2].1 == encode_utf8(document_text(text::strings(pages@))));
        assert(parts[3].1 == encode_utf8(DOCUMENT_RELS@));
    }
    if package.add_stored("[Content_Types].xml", CONTENT_TYPES.as_bytes()).is_err() {
        return Err(DocxError::InvalidPackage);
    }
    assert(package.records() =~= zip_store::records_of(parts, 1));
    if package.add_stored("_rels/.rels", ROOT_RELS.as_bytes()).is_err() {
        return Err(DocxError::InvalidPackage);
    }
    assert(package.records() =~= zip_store::records_of(parts, 2));
    if package.add_stored("word/document.xml", document.as_str().as_bytes()).is_err() {
        return Err(DocxError::InvalidPackage);
    }
    assert(package.records() =~= zip_store::records_of(parts, 3));
    if package.add_stored("word/_rels/document.xml.rels", DOCUMENT_RELS.as_bytes()).is_err() {
        return Err(DocxError::InvalidPackage);
    }
    assert(package.records() =~= zip_store::records_of(parts, 4));
    assert(package.entries() =~= zip_store::listings_of(parts));
    Ok(package.finish())
}

/// A tag belongs to a word processing document.
pub open spec fn is_word(tag: Tag) -> bool {
    tag.namespace == Some(WORD_NAMESPACE@) || tag.namespace == Some(STRICT_WORD_NAMESPACE@)
}

/// Content that has no text to stand for it.
pub open spec fn is_visual(name: Seq<char>) -> bool {
    name == "drawing"@ || name == "pict"@ || name == "object"@ || name == "headerReference"@
        || name == "footerReference"@ || name == "footnoteReference"@ || name
        == "endnoteReference"@
}

/// Where the reading of a document stands.
pub struct Reading {
    pub pages: Seq<Seq<char>>,
    pub saw_body: bool,
    pub in_body: bool,
    pub in_text: bool,
}

/// Nothing has been read.
pub open spec fn unread() -> Reading {
    Reading { pages: seq![Seq::empty()], saw_body: false, in_body: false, in_text: false }
}

/// `s` without the line feeds at its end.
pub open spec fn without_line_feeds(s: Seq<char>) -> Seq<char>
    decreases s.len(),
{
    if s.len() > 0 && s.last() == '\n' {
        without_line_feeds(s.drop_last())
    } else {
        s
    }
}

/// A row of a table has ended.
pub open spec fn row_ended(s: Seq<char>) -> Seq<char> {
    let s = if s.len() > 0 && s.last() == '\t' {
        s.drop_last()
    } else {
        s
    };
    if s.len() > 0 && s.last() != '\n' {
        s.push('\n')
    } else {
        s
    }
}

/// A tag that begins a new page.
pub open spec fn is_page_break(tag: Tag) -> bool {
    &&& is_word(tag)
    &&& tag.name == "br"@
    &&& tag.attributes == xml_marks::attribute_text(Some(("w:type"@, "page"@)))
}

impl Reading {
    /// The last page is `page`.
    pub open spec fn with_page(self, page: Seq<char>) -> Reading {
        Reading { pages: self.pages.drop_last().push(page), ..self }
    }

    pub open spec fn page(self) -> Seq<char> {
        self.pages.last()
    }

    /// A page ends; an empty one only if it is forced to.
    pub open spec fn page_ended(self, force: bool) -> Reading {
        let page = text::trimmed_end(self.page());
        let ended = self.with_page(page);
        if force || page.len() > 0 {
            Reading { pages: ended.pages.push(Seq::empty()), ..ended }
        } else {
            ended
        }
    }

    /// What a start tag does.
    pub open spec fn opened(self, tag: Tag, empty: bool) -> Result<Reading, Wrong> {
        if !is_word(tag) {
            Ok(self)
        } else if tag.name == "body"@ {
            Ok(Reading { saw_body: true, in_body: true, ..self })
        } else if !self.in_body {
            Ok(self)
        } else if tag.name == "t"@ {
            Ok(Reading { in_text: !empty, ..self })
        } else if is_visual(tag.name) {
            Err(Wrong::UnsupportedVisualContent)
        } else if tag.name == "br"@ {
            match xml::value_from(xml::attributes_in(tag.attributes), "type"@, 0) {
                None => Err(Wrong::InvalidDocument),
                Some(kind) => if kind == Some("page"@) {
                    Ok(self.page_ended(true))
                } else {
                    Ok(self.with_page(self.page().push('\n')))
                },
            }
        } else if tag.name == "pageBreakBefore"@ {
            match xml::value_from(xml::attributes_in(tag.attributes), "val"@, 0) {
                None => Err(Wrong::InvalidDocument),
                Some(value) => if value == Some("0"@) || value == Some("false"@) || value == Some(
                    "off"@,
                ) {
                    Ok(self)
                } else {
                    Ok(self.page_ended(false))
                },
            }
        } else if tag.name == "cr"@ {
            Ok(self.with_page(self.page().push('\n')))
        } else if tag.name == "tab"@ {
            Ok(self.with_page(self.page().push('\t')))
        } else {
            Ok(self)
        }
    }

    /// What an end tag does.
    pub open spec fn closed(self, tag: Tag) -> Reading {
        if !is_word(tag) {
            self
        } else if tag.name == "t"@ {
            Reading { in_text: false, ..self }
        } else if tag.name == "body"@ {
            Reading { in_body: false, ..self }
        } else if !self.in_body {
            self
        } else if tag.name == "p"@ {
            self.with_page(content::line_ended(self.page()))
        } else if tag.name == "tc"@ {
            self.with_page(without_line_feeds(self.page()).push('\t'))
        } else if tag.name == "tr"@ {
            self.with_page(row_ended(self.page()))
        } else {
            self
        }
    }

    /// What a piece of the text does.
    pub open spec fn after(self, piece: Piece) -> Result<Reading, Wrong> {
        match piece {
            Piece::Start(tag) => self.opened(tag, false),
            Piece::Empty(tag) => self.opened(tag, true),
            Piece::End(tag) => Ok(self.closed(tag)),
            Piece::Text(s) | Piece::CData(s) => if self.in_text {
                Ok(self.with_page(self.page() + s))
            } else {
                Ok(self)
            },
            Piece::Reference(name) => if self.in_text {
                match xml::referred(name) {
                    Some(s) => Ok(self.with_page(self.page() + s)),
                    None => Err(Wrong::InvalidDocument),
                }
            } else {
                Ok(self)
            },
            Piece::DocType => Err(Wrong::InvalidDocument),
            _ => Ok(self),
        }
    }

    /// The pages, when the text is at its end.
    pub open spec fn finished(self) -> Result<Seq<Seq<char>>, Wrong> {
        if !self.saw_body || self.in_body || self.in_text || forall|i: int|
            0 <= i < self.pages.len() ==> text::trimmed(#[trigger] self.pages[i]).len() == 0 {
            Err(Wrong::InvalidDocument)
        } else {
            Ok(Seq::new(self.pages.len(), |i: int| text::trimmed_end(self.pages[i])))
        }
    }
}

/// The pages that the pieces from the `i`-th on lead to.
pub open spec fn pages_from(pieces: Seq<Option<Piece>>, i: int, reading: Reading) -> Result<
    Seq<Seq<char>>,
    Wrong,
>
    decreases pieces.len() - i,
{
    if i < 0 || i >= pieces.len() {
        Err(Wrong::InvalidDocument)
    } else {
        match pieces[i] {
            None => Err(Wrong::InvalidDocument),
            Some(Piece::Eof) => reading.finished(),
            Some(piece) => match reading.after(piece) {
                Err(wrong) => Err(wrong),
                Ok(reading) => pages_from(pieces, i + 1, reading),
            },
        }
    }
}

/// The reading of a document, event by event.
#[derive(Debug)]
pub struct PageReader {
    pages: Vec<Vec<char>>,
    saw_body: bool,
    in_body: bool,
    in_text: bool,
}

impl View for PageReader {
    type V = Reading;

    closed spec fn view(&self) -> Reading {
        Reading {
            pages: text::texts(self.pages@),
            saw_body: self.saw_body,
            in_body: self.in_body,
            in_text: self.in_text,
        }
    }
}

proof fn lemma_page_break(tag: Tag)
    requires
        is_page_break(tag),
    ensures
        tag.name != "body"@,
        tag.name != "t"@,
        !is_visual(tag.name),
        xml_marks::single(tag.attributes, "w:type"@, "page"@),
        xml::value_from(seq![Some(xml::plain_attribute("w:type"@, "page"@))], "type"@, 0) == Some(
            Some("page"@),
        ),
{
    reveal_strlit("br");
    reveal_strlit("body");
    reveal_strlit("t");
    reveal_strlit("drawing");
    reveal_strlit("pict");
    reveal_strlit("object");
    reveal_strlit("headerReference");
    reveal_strlit("footerReference");
    reveal_strlit("footnoteReference");
    reveal_strlit("endnoteReference");
    reveal_strlit("w:type");
    reveal_strlit("type");
    reveal_strlit("page");
    assert(tag.name.len() == 2 && "body"@.len() == 4 && "t"@.len() == 1);
    text::lemma_index_of("w:type"@, ':', 0);
    assert("w:type"@[1] == ':');
    assert("w:type"@.skip(2) =~= "type"@);
    assert(xml::local_part("w:type"@) == "type"@);
}

fn is_word_tag(tag: &XmlTag) -> (r: bool)
    ensures
        r == is_word(tag@),
{
    match &tag.namespace {
        Some(name) => text::same(name.as_str(), WORD_NAMESPACE) || text::same(
            name.as_str(),
            STRICT_WORD_NAMESPACE,
        ),
        None => false,
    }
}

fn is_visual_name(name: &str) -> (r: bool)
    ensures
        r == is_visual(name@),
{
    text::same(name, "drawing") || text::same(name, "pict") || text::same(name, "object")
        || text::same(name, "headerReference") || text::same(name, "footerReference")
        || text::same(name, "footnoteReference") || text::same(name, "endnoteReference")
}

fn drop_line_feeds(page: &mut Vec<char>)
    ensures
        final(page)@ == without_line_feeds(old(page)@),
{
    while page.len() > 0
        invariant_except_break
            without_line_feeds(page@) == without_line_feeds(old(page)@),
        ensures
            page@ == without_line_feeds(old(page)@),
        decreases page@.len(),
    {
        if page[page.len() - 1] != '\n' {
            break;
        }
        page.pop();
    }
}

fn end_row(page: &mut Vec<char>)
    ensures
        final(page)@ == row_ended(old(page)@),
{
    if page.len() > 0 {
        if page[page.len() - 1] == '\t' {
            page.pop();
        }
    }
    if page.len() > 0 {
        if page[page.len() - 1] != '\n' {
            page.push('\n');
        }
    }
}

fn is_blank(page: &Vec<char>) -> (r: bool)
    ensures
        r == (text::trimmed(page@).len() == 0),
{
    text::trim(page.as_slice()).len() == 0
}

impl PageReader {
    /// There is a page to read into.
    pub closed spec fn wf(&self) -> bool {
        self.pages@.len() > 0
    }

    pub fn new() -> (r: PageReader)
        ensures
            r.wf(),
            r@ == unread(),
    {
        let first: Vec<char> = Vec::new();
        let mut pages: Vec<Vec<char>> = Vec::new();
        pages.push(first);
        let r = PageReader { pages, saw_body: false, in_body: false, in_text: false };
        assert(r@.pages =~= unread().pages);
        r
    }

    fn take_page(&mut self) -> (r: Vec<char>)
        requires
            old(self).wf(),
        ensures
            r@ == old(self)@.page(),
            text::texts(final(self).pages@) == old(self)@.pages.drop_last(),
            final(self).saw_body == old(self).saw_body,
            final(self).in_body == old(self).in_body,
            final(self).in_text == old(self).in_text,
    {
        let page = match self.pages.pop() {
            Some(page) => page,
            None => Vec::new(),
        };
        assert(text::texts(self.pages@) =~= old(self)@.pages.drop_last());
        page
    }

    fn put_page(&mut self, page: Vec<char>)
        ensures
            final(self).wf(),
            text::texts(final(self).pages@) == text::texts(old(self).pages@).push(page@),
            final(self).saw_body == old(self).saw_body,
            final(self).in_body == old(self).in_body,
            final(self).in_text == old(self).in_text,
    {
        let ghost before = text::texts(self.pages@);
        let ghost added = page@;
        self.pages.push(page);
        assert(text::texts(self.pages@) =~= before.push(added));
    }

    fn push(&mut self, c: char)
        requires
            old(self).wf(),
        ensures
            final(self).wf(),
            final(self)@ == old(self)@.with_page(old(self)@.page().push(c)),
    {
        let mut page = self.take_page();
        page.push(c);
        self.put_page(page);
    }

    fn push_text(&mut self, s: &str)
        requires
            old(self).wf(),
        ensures
            final(self).wf(),
            final(self)@ == old(self)@.with_page(old(self)@.page() + s@),
    {
        let mut page = self.take_page();
        text::push_string(&mut page, s);
        self.put_page(page);
    }

    fn finish_page(&mut self, force: bool)
        requires
            old(self).wf(),
        ensures
            final(self).wf(),
            final(self)@ == old(self)@.page_ended(force),
    {
        let mut page = self.take_page();
        text::trim_end(&mut page);
        let more = force || page.len() > 0;
        self.put_page(page);
        if more {
            let next: Vec<char> = Vec::new();
            assert(next@ =~= Seq::<char>::empty());
            self.put_page(next);
        }
    }

    fn open_tag(&mut self, tag: &XmlTag, empty: bool) -> (r: Result<(), DocxError>)
        requires
            old(self).wf(),
        ensures
            final(self).wf(),
            match old(self)@.opened(tag@, empty) {
                Ok(reading) => r is Ok && final(self)@ == reading,
                Err(wrong) => r is Err && r->Err_0@ == wrong,
            },
            old(self)@.in_body && is_page_break(tag@) ==> r is Ok && final(self)@ == old(
                self,
            )@.page_ended(true),
    {
        proof {
            if is_page_break(tag@) {
                lemma_page_break(tag@);
            }
        }
        let name = tag.name.as_str();
        if !is_word_tag(tag) {
        } else if text::same(name, "body") {
            self.saw_body = true;
            self.in_body = true;
        } else if !self.in_body {
        } else if text::same(name, "t") {
            self.in_text = !empty;
        } else if is_visual_name(name) {
            return Err(DocxError::UnsupportedVisualContent);
        } else if text::same(name, "br") {
            match attribute_value(tag.attributes.as_str(), "type") {
                None => {
                    return Err(DocxError::InvalidDocument);
                },
                Some(kind) => {
                    let page = match &kind {
                        Some(kind) => text::same(kind.as_str(), "page"),
                        None => false,
                    };
                    if page {
                        self.finish_page(true);
                    } else {
                        self.push('\n');
                    }
                },
            }
        } else if text::same(name, "pageBreakBefore") {
            match attribute_value(tag.attributes.as_str(), "val") {
                None => {
                    return Err(DocxError::InvalidDocument);
                },
                Some(value) => {
                    let off = match &value {
                        Some(value) => text::same(value.as_str(), "0") || text::same(
                            value.as_str(),
                            "false",
                        ) || text::same(value.as_str(), "off"),
                        None => false,
                    };
                    if !off {
                        self.finish_page(false);
                    }
                },
            }
        } else if text::same(name, "cr") {
            self.push('\n');
        } else if text::same(name, "tab") {
            self.push('\t');
        }
        Ok(())
    }

    fn close_tag(&mut self, tag: &XmlTag)
        requires
            old(self).wf(),
        ensures
            final(self).wf(),
            final(self)@ == old(self)@.closed(tag@),
    {
        let name = tag.name.as_str();
        if !is_word_tag(tag) {
        } else if text::same(name, "t") {
            self.in_text = false;
        } else if text::same(name, "body") {
            self.in_body = false;
        } else if !self.in_body {
        } else if text::same(name, "p") {
            let mut page = self.take_page();
            content::ensure_line_break(&mut page);
            self.put_page(page);
        } else if text::same(name, "tc") {
            let mut page = self.take_page();
            drop_line_feeds(&mut page);
            page.push('\t');
            self.put_page(page);
        } else if text::same(name, "tr") {
            let mut page = self.take_page();
            end_row(&mut page);
            self.put_page(page);
        }
    }

    /// Takes the next event of the text.
    pub fn accept(&mut self, event: &XmlEvent) -> (r: Result<(), DocxError>)
        requires
            old(self).wf(),
        ensures
            final(self).wf(),
            match old(self)@.after(event@) {
                Ok(reading) => r is Ok && final(self)@ == reading,
                Err(wrong) => r is Err && r->Err_0@ == wrong,
            },
            old(self)@.in_body && event@ is Empty && is_page_break(event@->Empty_0) ==> r is Ok
                && final(self)@ == old(self)@.page_ended(true),
    {
        match event {
            XmlEvent::Start(tag) => self.open_tag(tag, false),
            XmlEvent::Empty(tag) => self.open_tag(tag, true),
            XmlEvent::End(tag) => {
                self.close_tag(tag);
                Ok(())
            },
            XmlEvent::Text(s) | XmlEvent::CData(s) => {
                if self.in_text {
                    self.push_text(s.as_str());
                }
                Ok(())
            },
            XmlEvent::Reference(name) => {
                if self.in_text {
                    let mut page = self.take_page();
                    let known = push_referred(&mut page, name.as_str());
                    self.put_page(page);
                    if !known {
                        return Err(DocxError::InvalidDocument);
                    }
                }
                Ok(())
            },
            XmlEvent::DocType => Err(DocxError::InvalidDocument),
            _ => Ok(()),
        }
    }

    /// The pages, when the text is at its end.
    pub fn finish(self) -> (r: Result<Vec<String>, DocxError>)
        requires
            self.wf(),
        ensures
            match self@.finished() {
                Ok(pages) => r is Ok && text::strings(r->Ok_0@) == pages,
                Err(wrong) => r is Err && r->Err_0@ == wrong,
            },
    {
        let ghost reading = self@;
        let mut out: Vec<String> = Vec::new();
        let mut blank = true;
        let mut i: usize = 0;
        while i < self.pages.len()
            invariant
                i <= self.pages@.len(),
                reading == self@,
                blank == forall|k: int|
                    0 <= k < i ==> text::trimmed(#[trigger] reading.pages[k]).len() == 0,
                text::strings(out@) == Seq::new(
                    i as nat,
                    |k: int| text::trimmed_end(reading.pages[k]),
                ),
            decreases self.pages@.len() - i,
        {
            assert(reading.pages[i as int] == self.pages@[i as int]@);
            if !is_blank(&self.pages[i]) {
                blank = false;
            }
            let mut page: Vec<char> = vstd::slice::slice_to_vec(self.pages[i].as_slice());
            text::trim_end(&mut page);
            let line = text::string_of(page.as_slice());
            let ghost before = text::strings(out@);
            let ghost added = line@;
            out.push(line);
            assert(text::strings(out@) =~= before.push(added));
            i += 1;
            assert(text::strings(out@) =~= Seq::new(
                i as nat,
                |k: int| text::trimmed_end(reading.pages[k]),
            ));
        }
        if !self.saw_body || self.in_body || self.in_text || blank {
            return Err(DocxError::InvalidDocument);
        }
        assert(text::strings(out@) =~= reading.finished()->Ok_0);
        Ok(out)
    }
}

/// The pages of the main part of a document.
pub open spec fn pages_in(b: Seq<u8>) -> Result<Seq<Seq<char>>, Wrong> {
    if valid_utf8(b) {
        pages_from(xml::resolved_pieces(decode_utf8(b)), 0, unread())
    } else {
        Err(Wrong::InvalidDocument)
    }
}

pub open spec fn reads(r: Result<Vec<String>, DocxError>, expected: Result<Seq<Seq<char>>, Wrong>) -> bool {
    match expected {
        Ok(pages) => r is Ok && text::strings(r->Ok_0@) == pages,
        Err(wrong) => r is Err && r->Err_0@ == wrong,
    }
}

/// Where the reading of a document that was written with these pages stands after
/// `i` pieces.
pub open spec fn expected(pages: Seq<Seq<char>>, i: int) -> Option<Reading> {
    docx_marks::effects(unread(), docx_marks::document_marks(pages).take(i))
}

/// The events are those of the pieces of a document with these pages.
pub open spec fn is_written(events: Seq<Option<xml::RawPiece>>, pages: Seq<Seq<char>>) -> bool {
    xml_marks::are_events(events, 'w', WORD_NAMESPACE@, docx_marks::document_marks(pages))
}

/// The next event is the next piece of a document with these pages.
pub open spec fn is_next(
    events: Seq<Option<xml::RawPiece>>,
    pages: Seq<Seq<char>>,
    i: int,
    reading: Reading,
) -> bool {
    let piece = xml::piece_of(events[i]->0, true);
    &&& events[i] is Some
    &&& (events[i]->0.kind == xml::XmlKind::Eof) == (i == events.len() - 1)
    &&& i == events.len() - 1 ==> reading.finished() == docx_marks::read_back(pages)
    &&& i < events.len() - 1 ==> expected(pages, i + 1) is Some && if piece is Empty
        && reading.in_body && is_page_break(piece->Empty_0) {
        expected(pages, i + 1) == Some(reading.page_ended(true))
    } else {
        reading.after(piece) == Ok::<Reading, Wrong>(expected(pages, i + 1)->0)
    }
}

proof fn lemma_next_piece(
    events: Seq<Option<xml::RawPiece>>,
    pages: Seq<Seq<char>>,
    i: int,
    reading: Reading,
)
    requires
        is_written(events, pages),
        0 <= i < events.len(),
        expected(pages, i) == Some(reading),
    ensures
        is_next(events, pages, i, reading),
{
    let marks = docx_marks::document_marks(pages);
    docx_marks::lemma_document_effects(pages);
    docx_marks::lemma_is_document(pages);
    if i == events.len() - 1 {
        assert(marks.take(i) =~= marks);
    } else {
        let uri = WORD_NAMESPACE@;
        docx_marks::lemma_effects_prefix(unread(), marks, i);
        docx_marks::lemma_effect(reading, marks[i]);
        xml_marks::lemma_nested_prefix(xml_marks::unopened(), marks, i, 'w', uri);
        xml_marks::lemma_open_names(xml_marks::unopened(), marks.take(i), 'w', uri);
        assert(xml_marks::is_event(events[i], 'w', uri, marks[i]));
        xml_marks::lemma_event_is_piece(
            events[i],
            'w',
            uri,
            xml_marks::nested_all(xml_marks::unopened(), marks.take(i), 'w', uri)->0,
            marks[i],
        );
    }
}

/// Reads the pages of the main part of a document. What was written as such a
/// part is read back.
pub fn parse_document_pages(bytes: &[u8]) -> (r: Result<Vec<String>, DocxError>)
    ensures
        reads(r, pages_in(bytes@)),
        forall|pages: Seq<Seq<char>>|
            bytes@ == encode_utf8(#[trigger] document_text(pages)) ==> reads(
                r,
                docx_marks::read_back(pages),
            ),
{
    proof {
        assert forall|pages: Seq<Seq<char>>|
            bytes@ == encode_utf8(#[trigger] document_text(pages)) implies valid_utf8(bytes@) by {
            encode_utf8_valid_utf8(document_text(pages));
        }
    }
    let source = match text::from_utf8(bytes) {
        None => {
            return Err(DocxError::InvalidDocument);
        },
        Some(source) => source,
    };
    let mut reader = resolved_reader(source.as_str());
    let mut pages = PageReader::new();
    let ghost events = xml::resolved_events(source@);
    let ghost pieces = xml::resolved_pieces(source@);
    let ghost mut i: int = 0;
    proof {
        xml::lemma_ends(xml::resolved_left(&reader), true);
        assert(pieces.skip(0) =~= pieces);
        assert forall|written: Seq<Seq<char>>|
            bytes@ == encode_utf8(#[trigger] document_text(written)) implies is_written(
            events,
            written,
        ) && expected(written, 0) == Some(pages@) by {
            encode_utf8_decode_utf8(document_text(written));
            docx_marks::lemma_is_document(written);
            docx_marks::lemma_document_text(written);
            assert(docx_marks::document_marks(written).take(0) =~= Seq::<
                xml_marks::Mark,
            >::empty());
        }
    }
    loop
        invariant
            0 <= i < pieces.len(),
            events == xml::resolved_events(source@),
            pieces == xml::resolved_pieces(source@),
            xml::ends(pieces),
            xml::resolved_rest(&reader) == pieces.skip(i),
            pages.wf(),
            pages_from(pieces, i, pages@) == pages_in(bytes@),
            forall|written: Seq<Seq<char>>|
                bytes@ == encode_utf8(#[trigger] document_text(written)) ==> is_written(
                    events,
                    written,
                ) && expected(written, i) == Some(pages@),
        decreases pieces.len() - i,
    {
        let ghost before = pages@;
        let event = next_resolved(&mut reader);
        proof {
            assert forall|written: Seq<Seq<char>>|
                bytes@ == encode_utf8(#[trigger] document_text(written)) implies is_next(
                events,
                written,
                i,
                before,
            ) by {
                lemma_next_piece(events, written, i, before);
            }
        }
        let event = match event {
            None => {
                return Err(DocxError::InvalidDocument);
            },
            Some(event) => event,
        };
        assert(pieces[i] == Some(event@));
        assert(pieces.skip(i).drop_first() =~= pieces.skip(i + 1));
        if let XmlEvent::Eof = event {
            return pages.finish();
        }
        assert(!xml::is_last(pieces[i]));
        match pages.accept(&event) {
            Err(error) => {
                return Err(error);
            },
            Ok(()) => {},
        }
        proof {
            i = i + 1;
        }
    }
}

/// Reads the text of the main part of a document.
pub fn parse_document_text(bytes: &[u8]) -> (r: Result<String, DocxError>)
    ensures
        match pages_in(bytes@) {
            Ok(pages) => r is Ok && r->Ok_0@ == text::joined(pages, "\n"@, pages.len() as int),
            Err(wrong) => r is Err && r->Err_0@ == wrong,
        },
{
    match parse_document_pages(bytes) {
        Err(error) => Err(error),
        Ok(pages) => Ok(text::join(&pages, "\n")),
    }
}

/// What a failure to read a package means for a document.
pub open spec fn package_failure(error: ZipError) -> Wrong {
    match error {
        ZipError::Invalid => Wrong::InvalidPackage,
        ZipError::Missing => Wrong::InvalidDocument,
        ZipError::Decompression => Wrong::Decompression,
    }
}

/// The pages of a document.
pub open spec fn document_pages(b: Seq<u8>) -> Result<Seq<Seq<char>>, Wrong> {
    if !bytes::occurs(b, 0, encode_utf8("PK"@)) {
        Err(Wrong::LegacyDocUnsupported)
    } else {
        match zip_store::entry_of(b, "word/document.xml"@) {
            Err(error) => Err(package_failure(error)),
            Ok(document) => pages_in(document),
        }
    }
}

/// Reads the pages of a document whose bytes are `input`, unless reading them
/// failed. A document that was written is read back.
pub fn extract_pages_from_path(input: Result<Vec<u8>, String>) -> (r: Result<
    Vec<String>,
    DocxError,
>)
    ensures
        match input {
            Ok(bytes) => reads(r, document_pages(bytes@)),
            Err(message) => r is Err && r->Err_0@ == Wrong::Io(message@),
        },
        forall|pages: Seq<Seq<char>>|
            input is Ok && encode_utf8(document_text(pages)).len() <= zip_store::MAX_ENTRY_BYTES
                && input->Ok_0@ == zip_store::package_of(#[trigger] document_parts(pages)) ==> reads(r, docx_marks::read_back(pages)),
{
    proof {
        assert forall|pages: Seq<Seq<char>>|
            input is Ok && encode_utf8(document_text(pages)).len() <= zip_store::MAX_ENTRY_BYTES
                && input->Ok_0@ == zip_store::package_of(#[trigger] document_parts(pages)) implies bytes::occurs(input->Ok_0@, 0, encode_utf8("PK"@)) && zip_store::entry_of(
            input->Ok_0@,
            "word/document.xml"@,
        ) == Ok::<Seq<u8>, ZipError>(encode_utf8(document_text(pages))) by {
            law_written_document_is_read_back(pages);
        }
    }
    let bytes = match input {
        Err(message) => {
            return Err(DocxError::Io(message));
        },
        Ok(bytes) => bytes,
    };
    if !bytes::occurs_at(bytes.as_slice(), 0, "PK".as_bytes()) {
        return Err(DocxError::LegacyDocUnsupported);
    }
    match read_zip_entry(bytes.as_slice(), "word/document.xml") {
        Err(ZipError::Invalid) => Err(DocxError::InvalidPackage),
        Err(ZipError::Missing) => Err(DocxError::InvalidDocument),
        Err(ZipError::Decompression) => Err(DocxError::Decompression),
        Ok(document) => parse_document_pages(document.as_slice()),
    }
}

/// Reads the text of a document whose bytes are `input`, unless reading them
/// failed.
pub fn extract_text_from_path(input: Result<Vec<u8>, String>) -> (r: Result<String, DocxError>)
    ensures
        match input {
            Ok(bytes) => match document_pages(bytes@) {
                Ok(pages) => r is Ok && r->Ok_0@ == text::joined(
                    pages,
                    "\n"@,
                    pages.len() as int,
                ),
                Err(wrong) => r is Err && r->Err_0@ == wrong,
            },
            Err(message) => r is Err && r->Err_0@ == Wrong::Io(message@),
        },
{
    match extract_pages_from_path(input) {
        Err(error) => Err(error),
        Ok(pages) => Ok(text::join(&pages, "\n")),
    }
}

/// The text that XML text stands for: references resolved, the rest as it is.
pub open spec fn unescaped(s: Seq<char>) -> Option<Seq<char>>
    decreases s.len(),
{
    if s.len() == 0 {
        Some(Seq::empty())
    } else if s[0] == '&' {
        let end = text::index_of(s, ';', 0);
        if 0 < end < s.len() {
            match (xml::referred(s.subrange(1, end)), unescaped(s.skip(end + 1))) {
                (Some(first), Some(rest)) => Some(first + rest),
                _ => None,
            }
        } else {
            None
        }
    } else {
        match unescaped(s.skip(1)) {
            Some(rest) => Some(seq![s[0]] + rest),
            None => None,
        }
    }
}

/// No character of XML text opens or closes a tag or an attribute value.
pub open spec fn is_plain(s: Seq<char>) -> bool {
    forall|i: int|
        0 <= i < s.len() ==> #[trigger] s[i] != '<' && s[i] != '>' && s[i] != '"' && s[i] != '\''
}

proof fn lemma_escaped_first(s: Seq<char>, n: int)
    requires
        0 < n <= s.len(),
    ensures
        escaped(s, n) == escaped_char(s[0]) + escaped(s.skip(1), n - 1),
    decreases n,
{
    if n == 1 {
        assert(escaped(s, 0) =~= Seq::empty());
        assert(escaped(s, 1) =~= escaped_char(s[0]) + escaped(s.skip(1), 0));
    } else {
        lemma_escaped_first(s, n - 1);
        assert(s.skip(1)[n - 2] == s[n - 1]);
        assert(escaped(s, n) =~= escaped_char(s[0]) + (escaped(s.skip(1), n - 2) + escaped_char(
            s[n - 1],
        )));
    }
}

proof fn lemma_unescape_name(name: Seq<char>, c: char, rest: Seq<char>)
    requires
        name.len() > 0,
        forall|i: int| 0 <= i < name.len() ==> #[trigger] name[i] != ';',
        xml::referred(name) == Some(seq![c]),
    ensures
        unescaped(seq!['&'] + name + seq![';'] + rest) == match unescaped(rest) {
            Some(rest) => Some(seq![c] + rest),
            None => None,
        },
{
    let s = seq!['&'] + name + seq![';'] + rest;
    let end = name.len() as int + 1;
    text::lemma_index_of(s, ';', 0);
    assert(s[end] == ';');
    assert forall|i: int| 0 <= i < end implies s[i] != ';' by {
        if i > 0 {
            assert(s[i] == name[i - 1]);
        }
    }
    assert(text::index_of(s, ';', 0) == end);
    assert(s.subrange(1, end) =~= name);
    assert(s.skip(end + 1) =~= rest);
}

proof fn lemma_unescape_char(c: char, rest: Seq<char>)
    ensures
        is_plain(escaped_char(c)),
        unescaped(escaped_char(c) + rest) == match unescaped(rest) {
            Some(rest) => Some(seq![c] + rest),
            None => None,
        },
{
    reveal_strlit("&amp;");
    reveal_strlit("&lt;");
    reveal_strlit("&gt;");
    reveal_strlit("&quot;");
    reveal_strlit("&apos;");
    reveal_strlit("amp");
    reveal_strlit("lt");
    reveal_strlit("gt");
    reveal_strlit("quot");
    reveal_strlit("apos");
    reveal_strlit("&");
    reveal_strlit("<");
    reveal_strlit(">");
    reveal_strlit("\"");
    reveal_strlit("'");
    assert("lt"@[0] != "gt"@[0] && "apos"@[1] != "quot"@[1]);
    if c == '&' {
        assert("&amp;"@ =~= seq!['&'] + "amp"@ + seq![';']);
        assert("&"@ =~= seq!['&']);
        lemma_unescape_name("amp"@, c, rest);
    } else if c == '<' {
        assert("&lt;"@ =~= seq!['&'] + "lt"@ + seq![';']);
        assert("<"@ =~= seq!['<']);
        lemma_unescape_name("lt"@, c, rest);
    } else if c == '>' {
        assert("&gt;"@ =~= seq!['&'] + "gt"@ + seq![';']);
        assert(">"@ =~= seq!['>']);
        lemma_unescape_name("gt"@, c, rest);
    } else if c == '"' {
        assert("&quot;"@ =~= seq!['&'] + "quot"@ + seq![';']);
        assert("\""@ =~= seq!['"']);
        lemma_unescape_name("quot"@, c, rest);
    } else if c == '\'' {
        assert("&apos;"@ =~= seq!['&'] + "apos"@ + seq![';']);
        assert("'"@ =~= seq!['\'']);
        lemma_unescape_name("apos"@, c, rest);
    } else {
        assert((escaped_char(c) + rest).skip(1) =~= rest);
    }
}

/// Escaping hides every character that means something to XML, and resolving
/// the references gives the text back.
pub proof fn law_escape_is_reversible(s: Seq<char>)
    ensures
        is_plain(escaped(s, s.len() as int)),
        unescaped(escaped(s, s.len() as int)) == Some(s),
    decreases s.len(),
{
    if s.len() > 0 {
        let rest = s.skip(1);
        law_escape_is_reversible(rest);
        lemma_escaped_first(s, s.len() as int);
        lemma_unescape_char(s[0], escaped(rest, rest.len() as int));
        let first = escaped_char(s[0]);
        let all = escaped(s, s.len() as int);
        assert forall|i: int| 0 <= i < all.len() implies #[trigger] all[i] != '<' && all[i] != '>'
            && all[i] != '"' && all[i] != '\'' by {
            if i < first.len() {
                assert(all[i] == first[i]);
            } else {
                assert(all[i] == escaped(rest, rest.len() as int)[i - first.len()]);
            }
        }
        assert(seq![s[0]] + rest =~= s);
    } else {
        assert(s =~= Seq::empty());
    }
}

/// The parts of a document take little room but for the main one.
proof fn lemma_small_parts(pages: Seq<Seq<char>>)
    ensures
        ({
            let parts = document_parts(pages);
            let document = encode_utf8(document_text(pages)).len();
            &&& zip_store::records_of(parts, 4).len() <= document + 10_000
            &&& zip_store::directory(zip_store::listings_of(parts), 4).len() <= 10_000
            &&& zip_store::package_of(parts).len() <= document + 20_022
        }),
{
    let parts = document_parts(pages);
    reveal_strlit("[Content_Types].xml");
    reveal_strlit("_rels/.rels");
    reveal_strlit("word/document.xml");
    reveal_strlit("word/_rels/document.xml.rels");
    reveal_strlit("<?xml version=\"1.0\" encoding=\"UTF-8\" standalone=\"yes\"?>\n<Types xmlns=\"http://schemas.openxmlformats.org/package/2006/content-types\">\n<Default Extension=\"rels\" ContentType=\"application/vnd.openxmlformats-package.relationships+xml\"/>\n<Default Extension=\"xml\" ContentType=\"application/xml\"/>\n<Override PartName=\"/word/document.xml\" ContentType=\"application/vnd.openxmlformats-officedocument.wordprocessingml.document.main+xml\"/>\n</Types>");
    reveal_strlit("<?xml version=\"1.0\" encoding=\"UTF-8\" standalone=\"yes\"?>\n<Relationships xmlns=\"http://schemas.openxmlformats.org/package/2006/relationships\">\n<Relationship Id=\"rId1\" Type=\"http://schemas.openxmlformats.org/officeDocument/2006/relationships/officeDocument\" Target=\"word/document.xml\"/>\n</Relationships>");
    reveal_strlit("<?xml version=\"1.0\" encoding=\"UTF-8\" standalone=\"yes\"?>\n<Relationships xmlns=\"http://schemas.openxmlformats.org/package/2006/relationships\"></Relationships>");
    is_ascii_chars_encode_utf8("[Content_Types].xml"@);
    is_ascii_chars_encode_utf8("_rels/.rels"@);
    is_ascii_chars_encode_utf8("word/document.xml"@);
    is_ascii_chars_encode_utf8("word/_rels/document.xml.rels"@);
    is_ascii_chars_encode_utf8(CONTENT_TYPES@);
    is_ascii_chars_encode_utf8(ROOT_RELS@);
    is_ascii_chars_encode_utf8(DOCUMENT_RELS@);
    reveal(zip_store::local_header);
    reveal(zip_store::listing_header);
    reveal(zip_store::end_record);
    reveal_with_fuel(zip_store::records_of, 5);
    reveal_with_fuel(zip_store::directory, 5);
}

/// The main part of a document that was written is what reading the document
/// begins with, where it is not above the size that is read.
pub proof fn law_written_document_is_read_back(pages: Seq<Seq<char>>)
    requires
        encode_utf8(document_text(pages)).len() <= zip_store::MAX_ENTRY_BYTES,
    ensures
        bytes::occurs(zip_store::package_of(document_parts(pages)), 0, encode_utf8("PK"@)),
        zip_store::entry_of(zip_store::package_of(document_parts(pages)), "word/document.xml"@)
            == Ok::<Seq<u8>, ZipError>(encode_utf8(document_text(pages))),
        document_pages(zip_store::package_of(document_parts(pages))) == pages_in(
            encode_utf8(document_text(pages)),
        ),
{
    let parts = document_parts(pages);
    let b = zip_store::package_of(parts);
    lemma_small_parts(pages);
    reveal_strlit("[Content_Types].xml");
    reveal_strlit("_rels/.rels");
    reveal_strlit("word/document.xml");
    reveal_strlit("word/_rels/document.xml.rels");
    reveal_strlit("PK");
    is_ascii_chars_encode_utf8("[Content_Types].xml"@);
    is_ascii_chars_encode_utf8("_rels/.rels"@);
    is_ascii_chars_encode_utf8("word/document.xml"@);
    is_ascii_chars_encode_utf8("word/_rels/document.xml.rels"@);
    is_ascii_chars_encode_utf8("PK"@);
    assert(parts[0].0 == "[Content_Types].xml"@ && parts[1].0 == "_rels/.rels"@ && parts[2].0
        == "word/document.xml"@ && parts[3].0 == "word/_rels/document.xml.rels"@);
    assert(parts[0].0.len() != parts[2].0.len() && parts[1].0.len() != parts[2].0.len());
    zip_store::law_stored_entry_is_read_back(parts, 2);
    zip_store::lemma_package_start(parts);
    assert(b.subrange(0, 2) =~= encode_utf8("PK"@));
}

/// A package without a main part is no document.
pub proof fn law_package_without_document_is_refused(items: Seq<(Seq<char>, Seq<u8>)>)
    requires
        items.len() > 0,
        zip_store::can_be_read(items),
        forall|i: int| 0 <= i < items.len() ==> (#[trigger] items[i]).0 != "word/document.xml"@,
    ensures
        document_pages(zip_store::package_of(items)) == Err::<Seq<Seq<char>>, Wrong>(
            Wrong::InvalidDocument,
        ),
{
    reveal_strlit("PK");
    is_ascii_chars_encode_utf8("PK"@);
    zip_store::lemma_package_start(items);
    assert(zip_store::package_of(items).subrange(0, 2) =~= encode_utf8("PK"@));
    zip_store::law_other_name_is_missing(items, "word/document.xml"@);
}

} // verus!
