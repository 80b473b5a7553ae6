//! Looking at how a DOCX document is laid out, to judge how its paragraphs would
//! flow.

use vstd::prelude::*;
use vstd::utf8::*;

use crate::archive;
use crate::archive::{read_part, PartError, PartTrouble};
use crate::text;
use crate::text::{from_utf8, same, string_of};
use crate::xml;
use crate::xml::{
    next_resolved, push_referred, read_attributes, resolved_reader, Attribute, Piece, Tag, XmlEvent,
    XmlTag,
};

verus! {

/// The most bytes that the main part of a document may have.
pub const MAX_DOCUMENT_XML_BYTES: u64 = 16_777_216;

pub const WORD_NS: &'static str = "http://schemas.openxmlformats.org/wordprocessingml/2006/main";

pub const MARKUP_NS: &'static str = "http://schemas.openxmlformats.org/markup-compatibility/2006";

pub const DRAWING_NS: &'static str =
    "http://schemas.openxmlformats.org/drawingml/2006/wordprocessingDrawing";

/// Why a document cannot be looked at.
#[derive(Debug)]
pub enum ProbeError {
    Io(String),
    Zip(String),
    TooLarge,
    InvalidDocument,
}

/// What contracts say of a `ProbeError`.
pub enum ProbeTrouble {
    Io(Seq<char>),
    Zip(Seq<char>),
    TooLarge,
    InvalidDocument,
}

impl View for ProbeError {
    type V = ProbeTrouble;

    open spec fn view(&self) -> ProbeTrouble {
        match *self {
            ProbeError::Io(message) => ProbeTrouble::Io(message@),
            ProbeError::Zip(message) => ProbeTrouble::Zip(message@),
            ProbeError::TooLarge => ProbeTrouble::TooLarge,
            ProbeError::InvalidDocument => ProbeTrouble::InvalidDocument,
        }
    }
}

impl ProbeError {
    pub open spec fn message_spec(self) -> Seq<char> {
        match self {
            ProbeError::Io(message) => "cannot read DOCX: "@ + message@,
            ProbeError::Zip(message) => "DOCX ZIP is invalid: "@ + message@,
            ProbeError::TooLarge => "DOCX document XML exceeds inspection limit"@,
            ProbeError::InvalidDocument => "DOCX document XML is invalid"@,
        }
    }

    /// The sentence that tells a user what went wrong.
    pub fn message(&self) -> (r: String)
        ensures
            r@ == self.message_spec(),
    {
        match self {
            ProbeError::Io(message) => {
                let mut text = "cannot read DOCX: ".to_owned();
                text.push_str(message.as_str());
                text
            },
            ProbeError::Zip(message) => {
                let mut text = "DOCX ZIP is invalid: ".to_owned();
                text.push_str(message.as_str());
                text
            },
            ProbeError::TooLarge => "DOCX document XML exceeds inspection limit".to_owned(),
            ProbeError::InvalidDocument => "DOCX document XML is invalid".to_owned(),
        }
    }
}

/// What a document holds.
#[derive(Debug, Clone, Copy, PartialEq, Eq, Structural)]
pub struct Tally {
    pub paragraphs: usize,
    pub floating_anchors: usize,
    pub inline_drawings: usize,
    pub text_boxes: usize,
    pub fallback_text_boxes: usize,
    pub alternate_content: usize,
    pub section_properties: usize,
    pub explicit_page_breaks: usize,
    pub numbered_paragraphs: usize,
}

pub open spec fn no_tally() -> Tally {
    Tally {
        paragraphs: 0,
        floating_anchors: 0,
        inline_drawings: 0,
        text_boxes: 0,
        fallback_text_boxes: 0,
        alternate_content: 0,
        section_properties: 0,
        explicit_page_breaks: 0,
        numbered_paragraphs: 0,
    }
}

/// One more, as far as numbers go.
pub open spec fn more(n: usize) -> usize {
    if n < usize::MAX {
        (n + 1) as usize
    } else {
        n
    }
}

fn one_more(n: usize) -> (r: usize)
    ensures
        r == more(n),
{
    n.saturating_add(1)
}

/// What has been seen of a document.
pub struct Survey {
    pub tally: Tally,
    pub text: Seq<char>,
    pub in_body: bool,
    pub saw_body: bool,
    pub in_text: bool,
    pub in_fallback: bool,
}

/// The breaks of pages that the attributes of a break from the `i`-th on tell;
/// nothing if one cannot be read.
pub open spec fn page_breaks(list: Seq<Option<Attribute>>, i: int, count: usize) -> Option<usize>
    decreases list.len() - i,
{
    if i < 0 || i >= list.len() {
        Some(count)
    } else {
        match list[i] {
            None => None,
            Some(attribute) => page_breaks(
                list,
                i + 1,
                if attribute.local == "type"@ && attribute.raw == "page"@ {
                    more(count)
                } else {
                    count
                },
            ),
        }
    }
}

pub open spec fn is_in(tag: Tag, namespace: Seq<char>) -> bool {
    tag.namespace == Some(namespace)
}

impl Survey {
    pub open spec fn unseen() -> Survey {
        Survey {
            tally: no_tally(),
            text: Seq::empty(),
            in_body: false,
            saw_body: false,
            in_text: false,
            in_fallback: false,
        }
    }

    pub open spec fn tallied(self, tally: Tally) -> Option<Survey> {
        Some(Survey { tally, ..self })
    }

    /// An element of the body that belongs to the text, outside a fallback.
    pub open spec fn with_word(self, tag: Tag, empty: bool) -> Option<Survey> {
        let tally = self.tally;
        if tag.name == "p"@ {
            self.tallied(Tally { paragraphs: more(tally.paragraphs), ..tally })
        } else if tag.name == "t"@ {
            Some(Survey { in_text: !empty, ..self })
        } else if tag.name == "sectPr"@ {
            self.tallied(Tally { section_properties: more(tally.section_properties), ..tally })
        } else if tag.name == "numPr"@ {
            self.tallied(Tally { numbered_paragraphs: more(tally.numbered_paragraphs), ..tally })
        } else if tag.name == "br"@ {
            match page_breaks(
                xml::attributes_in(tag.attributes),
                0,
                tally.explicit_page_breaks,
            ) {
                None => None,
                Some(count) => self.tallied(Tally { explicit_page_breaks: count, ..tally }),
            }
        } else {
            Some(self)
        }
    }

    /// An element of the body.
    pub open spec fn with_element(self, tag: Tag, empty: bool) -> Option<Survey> {
        let tally = self.tally;
        if is_in(tag, MARKUP_NS@) && tag.name == "Fallback"@ {
            Some(Survey { in_fallback: !empty, ..self })
        } else if is_in(tag, MARKUP_NS@) && tag.name == "AlternateContent"@ && !self.in_fallback {
            self.tallied(Tally { alternate_content: more(tally.alternate_content), ..tally })
        } else if is_in(tag, WORD_NS@) && tag.name == "txbxContent"@ {
            if self.in_fallback {
                self.tallied(
                    Tally { fallback_text_boxes: more(tally.fallback_text_boxes), ..tally },
                )
            } else {
                self.tallied(Tally { text_boxes: more(tally.text_boxes), ..tally })
            }
        } else if self.in_fallback {
            Some(self)
        } else if is_in(tag, WORD_NS@) {
            self.with_word(tag, empty)
        } else if is_in(tag, DRAWING_NS@) && tag.name == "anchor"@ {
            self.tallied(Tally { floating_anchors: more(tally.floating_anchors), ..tally })
        } else if is_in(tag, DRAWING_NS@) && tag.name == "inline"@ {
            self.tallied(Tally { inline_drawings: more(tally.inline_drawings), ..tally })
        } else {
            Some(self)
        }
    }

    /// An element begins.
    pub open spec fn with_start(self, tag: Tag, empty: bool) -> Option<Survey> {
        let next = if is_in(tag, WORD_NS@) && tag.name == "body"@ {
            Survey { saw_body: true, in_body: !empty, ..self }
        } else {
            self
        };
        if next.in_body {
            next.with_element(tag, empty)
        } else {
            Some(next)
        }
    }

    /// An element ends.
    pub open spec fn with_end(self, tag: Tag) -> Survey {
        if is_in(tag, MARKUP_NS@) && tag.name == "Fallback"@ {
            Survey { in_fallback: false, ..self }
        } else if is_in(tag, WORD_NS@) && tag.name == "t"@ {
            Survey { in_text: false, ..self }
        } else if is_in(tag, WORD_NS@) && tag.name == "p"@ && self.in_body && !self.in_fallback {
            if self.text.len() > 0 && self.text.last() == '\n' {
                self
            } else {
                Survey { text: self.text.push('\n'), ..self }
            }
        } else if is_in(tag, WORD_NS@) && tag.name == "body"@ {
            Survey { in_body: false, ..self }
        } else {
            self
        }
    }

    /// The next piece of the document; nothing if it is not well-formed.
    pub open spec fn with_piece(self, piece: Piece) -> Option<Survey> {
        let shown = self.in_text && !self.in_fallback;
        match piece {
            Piece::Start(tag) => self.with_start(tag, false),
            Piece::Empty(tag) => self.with_start(tag, true),
            Piece::End(tag) => Some(self.with_end(tag)),
            Piece::Text(content) => if shown {
                Some(Survey { text: self.text + content, ..self })
            } else {
                Some(self)
            },
            Piece::Reference(name) => if shown {
                match xml::referred(name) {
                    None => None,
                    Some(content) => Some(Survey { text: self.text + content, ..self }),
                }
            } else {
                Some(self)
            },
            Piece::DocType => None,
            _ => Some(self),
        }
    }
}

/// What the pieces from the `i`-th on tell of a document.
pub open spec fn surveyed(pieces: Seq<Option<Piece>>, i: int, seen: Survey) -> Option<Survey>
    decreases pieces.len() - i,
{
    if i < 0 || i >= pieces.len() {
        None
    } else {
        match pieces[i] {
            None => None,
            Some(Piece::Eof) => if !seen.saw_body || seen.in_body || seen.in_fallback
                || seen.in_text {
                None
            } else {
                Some(seen)
            },
            Some(piece) => match seen.with_piece(piece) {
                None => None,
                Some(next) => surveyed(pieces, i + 1, next),
            },
        }
    }
}

/// What a document holds: how many of each thing, and its text in the order of
/// the document, which need not be the order in which it is read.
#[derive(Debug)]
pub struct DocxLayoutProbe {
    pub tally: Tally,
    pub visible_text_in_xml_order: String,
}

/// What the main part of a document tells.
pub open spec fn probed(b: Seq<u8>) -> Result<Survey, ProbeTrouble> {
    if b.len() > MAX_DOCUMENT_XML_BYTES {
        Err(ProbeTrouble::TooLarge)
    } else if !valid_utf8(b) {
        Err(ProbeTrouble::InvalidDocument)
    } else {
        match surveyed(xml::resolved_pieces(decode_utf8(b)), 0, Survey::unseen()) {
            None => Err(ProbeTrouble::InvalidDocument),
            Some(seen) => Ok(seen),
        }
    }
}

struct Surveyor {
    tally: Tally,
    text: Vec<char>,
    in_body: bool,
    saw_body: bool,
    in_text: bool,
    in_fallback: bool,
}

impl View for Surveyor {
    type V = Survey;

    closed spec fn view(&self) -> Survey {
        Survey {
            tally: self.tally,
            text: self.text@,
            in_body: self.in_body,
            saw_body: self.saw_body,
            in_text: self.in_text,
            in_fallback: self.in_fallback,
        }
    }
}

fn belongs(tag: &XmlTag, namespace: &str) -> (r: bool)
    ensures
        r == is_in(tag@, namespace@),
{
    match &tag.namespace {
        None => false,
        Some(found) => same(found.as_str(), namespace),
    }
}

fn count_page_breaks(source: &str, before: usize) -> (r: Option<usize>)
    ensures
        r == page_breaks(xml::attributes_in(source@), 0, before),
{
    let list = read_attributes(source);
    let ghost all = xml::attribute_list(list@);
    let mut count: usize = before;
    let mut i: usize = 0;
    while i < list.len()
        invariant
            i <= list@.len(),
            all == xml::attribute_list(list@),
            page_breaks(all, i as int, count) == page_breaks(
                xml::attributes_in(source@),
                0,
                before,
            ),
        decreases list@.len() - i,
    {
        assert(all[i as int] == match list@[i as int] {
            None => None,
            Some(attribute) => Some(attribute@),
        });
        match &list[i] {
            None => {
                return None;
            },
            Some(attribute) => {
                if same(attribute.local.as_str(), "type") && same(attribute.raw.as_str(), "page") {
                    count = one_more(count);
                }
            },
        }
        i += 1;
    }
    Some(count)
}

impl Surveyor {
    fn accept_word(&mut self, tag: &XmlTag, empty: bool) -> (r: bool)
        ensures
            match old(self)@.with_word(tag@, empty) {
                None => !r,
                Some(next) => r && final(self)@ == next,
            },
    {
        let name = tag.name.as_str();
        if same(name, "p") {
            self.tally.paragraphs = one_more(self.tally.paragraphs);
        } else if same(name, "t") {
            self.in_text = !empty;
        } else if same(name, "sectPr") {
            self.tally.section_properties = one_more(self.tally.section_properties);
        } else if same(name, "numPr") {
            self.tally.numbered_paragraphs = one_more(self.tally.numbered_paragraphs);
        } else if same(name, "br") {
            match count_page_breaks(tag.attributes.as_str(), self.tally.explicit_page_breaks) {
                None => {
                    return false;
                },
                Some(count) => {
                    self.tally.explicit_page_breaks = count;
                },
            }
        }
        true
    }

    fn accept_start(&mut self, tag: &XmlTag, empty: bool) -> (r: bool)
        ensures
            match old(self)@.with_start(tag@, empty) {
                None => !r,
                Some(next) => r && final(self)@ == next,
            },
    {
        let name = tag.name.as_str();
        let word = belongs(tag, WORD_NS);
        let markup = belongs(tag, MARKUP_NS);
        let drawing = belongs(tag, DRAWING_NS);
        if word && same(name, "body") {
            self.saw_body = true;
            self.in_body = !empty;
        }
        if !self.in_body {
            return true;
        }
        if markup && same(name, "Fallback") {
            self.in_fallback = !empty;
        } else if markup && same(name, "AlternateContent") && !self.in_fallback {
            self.tally.alternate_content = one_more(self.tally.alternate_content);
        } else if word && same(name, "txbxContent") {
            if self.in_fallback {
                self.tally.fallback_text_boxes = one_more(self.tally.fallback_text_boxes);
            } else {
                self.tally.text_boxes = one_more(self.tally.text_boxes);
            }
        } else if self.in_fallback {
            return true;
        } else if word {
            return self.accept_word(tag, empty);
        } else if drawing && same(name, "anchor") {
            self.tally.floating_anchors = one_more(self.tally.floating_anchors);
        } else if drawing && same(name, "inline") {
            self.tally.inline_drawings = one_more(self.tally.inline_drawings);
        }
        true
    }

    fn accept_end(&mut self, tag: &XmlTag)
        ensures
            final(self)@ == old(self)@.with_end(tag@),
    {
        let name = tag.name.as_str();
        let word = belongs(tag, WORD_NS);
        if belongs(tag, MARKUP_NS) && same(name, "Fallback") {
            self.in_fallback = false;
        } else if word && same(name, "t") {
            self.in_text = false;
        } else if word && same(name, "p") && self.in_body && !self.in_fallback {
            if self.text.len() == 0 || self.text[self.text.len() - 1] != '\n' {
                self.text.push('\n');
            }
        } else if word && same(name, "body") {
            self.in_body = false;
        }
    }

    /// The next piece of the document; `false` if it is not well-formed.
    fn accept(&mut self, event: &XmlEvent) -> (r: bool)
        ensures
            match old(self)@.with_piece(event@) {
                None => !r,
                Some(next) => r && final(self)@ == next,
            },
    {
        match event {
            XmlEvent::Start(tag) => self.accept_start(tag, false),
            XmlEvent::Empty(tag) => self.accept_start(tag, true),
            XmlEvent::End(tag) => {
                self.accept_end(tag);
                true
            },
            XmlEvent::Text(content) => {
                if self.in_text && !self.in_fallback {
                    text::push_string(&mut self.text, content.as_str());
                }
                true
            },
            XmlEvent::Reference(name) => {
                if self.in_text && !self.in_fallback {
                    push_referred(&mut self.text, name.as_str())
                } else {
                    true
                }
            },
            XmlEvent::DocType => false,
            _ => true,
        }
    }
}

/// `r` is the outcome `expected`.
pub open spec fn shows(
    r: Result<DocxLayoutProbe, ProbeError>,
    expected: Result<Survey, ProbeTrouble>,
) -> bool {
    match expected {
        Err(trouble) => r is Err && r->Err_0@ == trouble,
        Ok(seen) => r is Ok && r->Ok_0.tally == seen.tally
            && r->Ok_0.visible_text_in_xml_order@ == seen.text,
    }
}

/// Looks at the main part of a document.
pub fn inspect_xml(bytes: &[u8]) -> (r: Result<DocxLayoutProbe, ProbeError>)
    ensures
        shows(r, probed(bytes@)),
{
    if bytes.len() as u64 > MAX_DOCUMENT_XML_BYTES {
        return Err(ProbeError::TooLarge);
    }
    let source = match from_utf8(bytes) {
        None => {
            return Err(ProbeError::InvalidDocument);
        },
        Some(source) => source,
    };
    let mut reader = resolved_reader(source.as_str());
    let tally = Tally {
        paragraphs: 0,
        floating_anchors: 0,
        inline_drawings: 0,
        text_boxes: 0,
        fallback_text_boxes: 0,
        alternate_content: 0,
        section_properties: 0,
        explicit_page_breaks: 0,
        numbered_paragraphs: 0,
    };
    let mut seen = Surveyor {
        tally,
        text: Vec::new(),
        in_body: false,
        saw_body: false,
        in_text: false,
        in_fallback: false,
    };
    assert(seen@.text =~= Seq::<char>::empty());
    assert(seen@ == Survey::unseen());
    let ghost pieces = xml::resolved_pieces(source@);
    let ghost goal = surveyed(pieces, 0, Survey::unseen());
    let ghost mut i: int = 0;
    proof {
        xml::lemma_ends(xml::resolved_left(&reader), true);
        assert(pieces.skip(0) =~= pieces);
    }
    loop
        invariant
            0 <= i < pieces.len(),
            xml::ends(pieces),
            xml::resolved_rest(&reader) == pieces.skip(i),
            surveyed(pieces, i, seen@) == goal,
            match goal {
                None => probed(bytes@) == Err::<Survey, ProbeTrouble>(
                    ProbeTrouble::InvalidDocument,
                ),
                Some(seen) => probed(bytes@) == Ok::<Survey, ProbeTrouble>(seen),
            },
        decreases pieces.len() - i,
    {
        let event = match next_resolved(&mut reader) {
            None => {
                assert(pieces[i] is None);
                return Err(ProbeError::InvalidDocument);
            },
            Some(event) => event,
        };
        assert(pieces[i] == Some(event@));
        assert(pieces.skip(i).drop_first() =~= pieces.skip(i + 1));
        if let XmlEvent::Eof = event {
            if !seen.saw_body || seen.in_body || seen.in_fallback || seen.in_text {
                return Err(ProbeError::InvalidDocument);
            }
            return Ok(
                DocxLayoutProbe {
                    tally: seen.tally,
                    visible_text_in_xml_order: string_of(seen.text.as_slice()),
                },
            );
        }
        assert(!xml::is_last(pieces[i]));
        if !seen.accept(&event) {
            return Err(ProbeError::InvalidDocument);
        }
        proof {
            i = i + 1;
        }
    }
}

/// What a document tells.
pub open spec fn inspected(b: Seq<u8>) -> Result<Survey, ProbeTrouble> {
    judged(archive::part_of(b, "word/document.xml"@, MAX_DOCUMENT_XML_BYTES))
}

/// What the main part of a document tells, once it was looked for.
pub open spec fn judged(part: Result<(u64, Seq<u8>), PartTrouble>) -> Result<
    Survey,
    ProbeTrouble,
> {
    match part {
        Err(PartTrouble::Zip(message)) => Err(ProbeTrouble::Zip(message)),
        Err(PartTrouble::Io(message)) => Err(ProbeTrouble::Io(message)),
        Ok((size, content)) => if size > MAX_DOCUMENT_XML_BYTES {
            Err(ProbeTrouble::TooLarge)
        } else {
            probed(content)
        },
    }
}

/// Looks at the main part of a document, once it was looked for.
pub fn inspect_part(part: Result<(u64, Vec<u8>), PartError>) -> (r: Result<
    DocxLayoutProbe,
    ProbeError,
>)
    ensures
        shows(r, judged(archive::seen_part(part))),
{
    match part {
        Err(PartError::Zip(message)) => Err(ProbeError::Zip(message)),
        Err(PartError::Io(message)) => Err(ProbeError::Io(message)),
        Ok((size, content)) => if size > MAX_DOCUMENT_XML_BYTES {
            Err(ProbeError::TooLarge)
        } else {
            inspect_xml(content.as_slice())
        },
    }
}

/// Looks at a document.
pub fn inspect_docx(bytes: &[u8]) -> (r: Result<DocxLayoutProbe, ProbeError>)
    ensures
        shows(r, inspected(bytes@)),
{
    inspect_part(read_part(bytes, "word/document.xml", MAX_DOCUMENT_XML_BYTES))
}

} // verus!
