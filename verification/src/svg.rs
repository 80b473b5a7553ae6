//! Which SVG files are drawn: static ones that need nothing from elsewhere.

use vstd::prelude::*;
use vstd::utf8::*;

use crate::bytes;
use crate::stopping;
use crate::text;
use crate::text::{chars_of, contains, from_utf8, same, string_of, to_lower, trim};
use crate::xml;
use crate::xml::{
    next_plain, plain_reader, read_attributes, resolve_char, resolve_name, Attribute, Piece, Tag,
    XmlAttribute, XmlEvent, XmlTag,
};

verus! {

/// The most bytes that an SVG file may have.
pub const MAX_INPUT_BYTES: u64 = 2_097_152;

/// The most bytes that the PDF file may have.
pub const MAX_OUTPUT_BYTES: usize = 33_554_432;

/// The most elements.
pub const MAX_NODES: usize = 10_000;

/// The most elements within each other.
pub const MAX_DEPTH: usize = 32;

/// The most bytes that the value of an attribute may have.
pub const MAX_ATTRIBUTE_BYTES: usize = 131_072;

/// The most characters that the name of a part of the file may have.
pub const MAX_ID_CHARS: usize = 128;

/// Why an SVG file is not drawn.
#[derive(Debug)]
pub enum SvgPdfError {
    InvalidInput,
    InvalidOutputPath,
    InvalidSvg,
    UnsupportedSvg,
    TooLarge,
    OutputTooLarge,
    Cancelled,
    InputIo(String),
    OutputIo(String),
}

/// What contracts say of an `SvgPdfError`.
pub enum Fault {
    InvalidInput,
    InvalidOutputPath,
    InvalidSvg,
    UnsupportedSvg,
    TooLarge,
    OutputTooLarge,
    Cancelled,
    InputIo(Seq<char>),
    OutputIo(Seq<char>),
}

impl View for SvgPdfError {
    type V = Fault;

    open spec fn view(&self) -> Fault {
        match *self {
            SvgPdfError::InvalidInput => Fault::InvalidInput,
            SvgPdfError::InvalidOutputPath => Fault::InvalidOutputPath,
            SvgPdfError::InvalidSvg => Fault::InvalidSvg,
            SvgPdfError::UnsupportedSvg => Fault::UnsupportedSvg,
            SvgPdfError::TooLarge => Fault::TooLarge,
            SvgPdfError::OutputTooLarge => Fault::OutputTooLarge,
            SvgPdfError::Cancelled => Fault::Cancelled,
            SvgPdfError::InputIo(message) => Fault::InputIo(message@),
            SvgPdfError::OutputIo(message) => Fault::OutputIo(message@),
        }
    }
}

impl SvgPdfError {
    pub open spec fn code_spec(self) -> Seq<char> {
        match self {
            SvgPdfError::InvalidInput => "PATH_NOT_ALLOWED"@,
            SvgPdfError::InvalidOutputPath => "OUTPUT_PATH_NOT_ALLOWED"@,
            SvgPdfError::InvalidSvg => "CORRUPTED_SVG"@,
            SvgPdfError::UnsupportedSvg => "UNSUPPORTED_FORMAT"@,
            SvgPdfError::TooLarge => "INPUT_TOO_LARGE"@,
            SvgPdfError::OutputTooLarge => "OUTPUT_SIZE_EXCEEDED"@,
            SvgPdfError::Cancelled => "CANCELLED"@,
            SvgPdfError::InputIo(_) => "INPUT_READ_FAILED"@,
            SvgPdfError::OutputIo(_) => "OUTPUT_WRITE_FAILED"@,
        }
    }

    /// The stable code of this class of failures.
    pub fn code(&self) -> (r: &'static str)
        ensures
            r@ == self.code_spec(),
    {
        match self {
            SvgPdfError::InvalidInput => "PATH_NOT_ALLOWED",
            SvgPdfError::InvalidOutputPath => "OUTPUT_PATH_NOT_ALLOWED",
            SvgPdfError::InvalidSvg => "CORRUPTED_SVG",
            SvgPdfError::UnsupportedSvg => "UNSUPPORTED_FORMAT",
            SvgPdfError::TooLarge => "INPUT_TOO_LARGE",
            SvgPdfError::OutputTooLarge => "OUTPUT_SIZE_EXCEEDED",
            SvgPdfError::Cancelled => "CANCELLED",
            SvgPdfError::InputIo(_) => "INPUT_READ_FAILED",
            SvgPdfError::OutputIo(_) => "OUTPUT_WRITE_FAILED",
        }
    }

    pub open spec fn message_spec(self) -> Seq<char> {
        match self {
            SvgPdfError::InvalidInput =>
                "The input must be a regular SVG file at an absolute path and cannot be a symlink"@,
            SvgPdfError::InvalidOutputPath =>
                "PDF output must be an absolute path in an existing directory"@,
            SvgPdfError::InvalidSvg => "The SVG file is invalid or corrupted"@,
            SvgPdfError::UnsupportedSvg =>
                "The SVG contains unsupported elements, attributes, or external resources"@,
            SvgPdfError::TooLarge =>
                "The SVG file, complexity, or page size exceeds the limit"@,
            SvgPdfError::OutputTooLarge => "The generated PDF exceeds the size limit"@,
            SvgPdfError::Cancelled => "SVG to PDF conversion cancelled"@,
            SvgPdfError::InputIo(message) => "Could not read the SVG: "@ + message@,
            SvgPdfError::OutputIo(message) => "Could not write the PDF: "@ + message@,
        }
    }

    /// The sentence that tells a user what went wrong.
    pub fn message(&self) -> (r: String)
        ensures
            r@ == self.message_spec(),
    {
        match self {
            SvgPdfError::InvalidInput =>
                "The input must be a regular SVG file at an absolute path and cannot be a symlink".to_owned(),
            SvgPdfError::InvalidOutputPath =>
                "PDF output must be an absolute path in an existing directory".to_owned(),
            SvgPdfError::InvalidSvg => "The SVG file is invalid or corrupted".to_owned(),
            SvgPdfError::UnsupportedSvg =>
                "The SVG contains unsupported elements, attributes, or external resources".to_owned(),
            SvgPdfError::TooLarge =>
                "The SVG file, complexity, or page size exceeds the limit".to_owned(),
            SvgPdfError::OutputTooLarge => "The generated PDF exceeds the size limit".to_owned(),
            SvgPdfError::Cancelled => "SVG to PDF conversion cancelled".to_owned(),
            SvgPdfError::InputIo(message) => {
                let mut text = "Could not read the SVG: ".to_owned();
                text.push_str(message.as_str());
                text
            },
            SvgPdfError::OutputIo(message) => {
                let mut text = "Could not write the PDF: ".to_owned();
                text.push_str(message.as_str());
                text
            },
        }
    }
}

/// `r` is as `fault` says.
pub open spec fn refused(r: Result<(), SvgPdfError>, fault: Option<Fault>) -> bool {
    match fault {
        None => r is Ok,
        Some(fault) => r is Err && r->Err_0@ == fault,
    }
}

/// `r` reports a cancellation, and `stop` has asked for one.
pub open spec fn halted<T, F: Fn() -> bool>(r: Result<T, SvgPdfError>, stop: F) -> bool {
    &&& r is Err
    &&& r->Err_0@ == Fault::Cancelled
    &&& stop.ensures((), true)
}

/// The elements that are drawn.
pub open spec fn elements() -> Seq<Seq<char>> {
    seq![
        "svg"@,
        "g"@,
        "defs"@,
        "title"@,
        "desc"@,
        "rect"@,
        "circle"@,
        "ellipse"@,
        "line"@,
        "polyline"@,
        "polygon"@,
        "path"@,
        "linearGradient"@,
        "radialGradient"@,
        "stop"@,
        "clipPath"@,
        "text"@,
        "tspan"@,
    ]
}

/// The attributes that are drawn.
pub open spec fn attributes() -> Seq<Seq<char>> {
    seq![
        "id"@,
        "version"@,
        "width"@,
        "height"@,
        "viewBox"@,
        "preserveAspectRatio"@,
        "x"@,
        "y"@,
        "x1"@,
        "y1"@,
        "x2"@,
        "y2"@,
        "cx"@,
        "cy"@,
        "r"@,
        "rx"@,
        "ry"@,
        "d"@,
        "points"@,
        "transform"@,
        "fill"@,
        "fill-opacity"@,
        "fill-rule"@,
        "stroke"@,
        "stroke-width"@,
        "stroke-linecap"@,
        "stroke-linejoin"@,
        "stroke-miterlimit"@,
        "stroke-dasharray"@,
        "stroke-dashoffset"@,
        "stroke-opacity"@,
        "opacity"@,
        "color"@,
        "clip-path"@,
        "clip-rule"@,
        "display"@,
        "visibility"@,
        "font-family"@,
        "font-size"@,
        "font-weight"@,
        "font-style"@,
        "text-anchor"@,
        "dominant-baseline"@,
        "letter-spacing"@,
        "dx"@,
        "dy"@,
        "offset"@,
        "stop-color"@,
        "stop-opacity"@,
        "gradientUnits"@,
        "gradientTransform"@,
        "spreadMethod"@,
        "xml:space"@,
    ]
}

fn known_elements() -> (r: Vec<&'static str>)
    ensures
        r@.len() == elements().len(),
        forall|i: int| 0 <= i < r@.len() ==> (#[trigger] r@[i])@ == elements()[i],
{
    vec![
        "svg",
        "g",
        "defs",
        "title",
        "desc",
        "rect",
        "circle",
        "ellipse",
        "line",
        "polyline",
        "polygon",
        "path",
        "linearGradient",
        "radialGradient",
        "stop",
        "clipPath",
        "text",
        "tspan",
    ]
}

fn known_attributes() -> (r: Vec<&'static str>)
    ensures
        r@.len() == attributes().len(),
        forall|i: int| 0 <= i < r@.len() ==> (#[trigger] r@[i])@ == attributes()[i],
{
    vec![
        "id",
        "version",
        "width",
        "height",
        "viewBox",
        "preserveAspectRatio",
        "x",
        "y",
        "x1",
        "y1",
        "x2",
        "y2",
        "cx",
        "cy",
        "r",
        "rx",
        "ry",
        "d",
        "points",
        "transform",
        "fill",
        "fill-opacity",
        "fill-rule",
        "stroke",
        "stroke-width",
        "stroke-linecap",
        "stroke-linejoin",
        "stroke-miterlimit",
        "stroke-dasharray",
        "stroke-dashoffset",
        "stroke-opacity",
        "opacity",
        "color",
        "clip-path",
        "clip-rule",
        "display",
        "visibility",
        "font-family",
        "font-size",
        "font-weight",
        "font-style",
        "text-anchor",
        "dominant-baseline",
        "letter-spacing",
        "dx",
        "dy",
        "offset",
        "stop-color",
        "stop-opacity",
        "gradientUnits",
        "gradientTransform",
        "spreadMethod",
        "xml:space",
    ]
}

fn is_among(name: &str, known: &Vec<&'static str>, Ghost(all): Ghost<Seq<Seq<char>>>) -> (r: bool)
    requires
        known@.len() == all.len(),
        forall|i: int| 0 <= i < all.len() ==> (#[trigger] known@[i])@ == all[i],
    ensures
        r == all.contains(name@),
{
    let mut i: usize = 0;
    while i < known.len()
        invariant
            i <= known@.len(),
            known@.len() == all.len(),
            forall|k: int| 0 <= k < all.len() ==> (#[trigger] known@[k])@ == all[k],
            forall|k: int| 0 <= k < i ==> #[trigger] all[k] != name@,
        decreases known@.len() - i,
    {
        if same(name, known[i]) {
            assert(all[i as int] == name@);
            return true;
        }
        assert(known@[i as int]@ == all[i as int]);
        i += 1;
    }
    false
}

/// An element that is drawn.
pub fn allowed_element(name: &str) -> (r: bool)
    ensures
        r == elements().contains(name@),
{
    let known = known_elements();
    is_among(name, &known, Ghost(elements()))
}

/// An attribute that is drawn.
pub fn allowed_attribute(name: &str) -> (r: bool)
    ensures
        r == attributes().contains(name@),
{
    let known = known_attributes();
    is_among(name, &known, Ghost(attributes()))
}

pub open spec fn is_id_char(c: char) -> bool {
    'a' <= c <= 'z' || 'A' <= c <= 'Z' || '0' <= c <= '9' || c == '_' || c == '-' || c == '.'
}

/// `value` refers to another part of the file, by a plain name.
pub open spec fn is_local_resource(value: Seq<char>) -> bool {
    let id = value.subrange(5, value.len() - 1);
    &&& value.len() > 6
    &&& value.take(5) == "url(#"@
    &&& value.last() == ')'
    &&& id.len() <= MAX_ID_CHARS
    &&& forall|i: int| 0 <= i < id.len() ==> is_id_char(#[trigger] id[i])
}

/// `value` refers to another part of the file, by a plain name.
pub fn matches_local_resource(value: &str) -> (r: bool)
    ensures
        r == is_local_resource(value@),
{
    let chars = chars_of(value);
    proof {
        reveal_strlit("url(#");
    }
    if chars.len() <= 6 || chars.len() - 6 > MAX_ID_CHARS || chars[chars.len() - 1] != ')' {
        return false;
    }
    let ghost id = value@.subrange(5, value@.len() - 1);
    let begins = chars[0] == 'u' && chars[1] == 'r' && chars[2] == 'l' && chars[3] == '(' && chars[4]
        == '#';
    assert(begins == (value@.take(5) == "url(#"@)) by {
        if begins {
            assert(value@.take(5) =~= "url(#"@);
        } else {
            assert(value@.take(5)[0] == value@[0] && value@.take(5)[1] == value@[1]
                && value@.take(5)[2] == value@[2] && value@.take(5)[3] == value@[3] && value@.take(
                5,
            )[4] == value@[4]);
        }
    }
    if !begins {
        return false;
    }
    let mut i: usize = 5;
    while i < chars.len() - 1
        invariant
            5 <= i <= chars@.len() - 1,
            chars@ == value@,
            id == value@.subrange(5, value@.len() - 1),
            forall|k: int| 0 <= k < i - 5 ==> is_id_char(#[trigger] id[k]),
        decreases chars@.len() - i,
    {
        let c: char = chars[i];
        let ok = (c >= 'a' && c <= 'z') || (c >= 'A' && c <= 'Z') || (c >= '0' && c <= '9') || c
            == '_' || c == '-' || c == '.';
        assert(id[i - 5] == c);
        if !ok {
            return false;
        }
        i += 1;
    }
    true
}

/// `value` could lead somewhere else.
pub open spec fn leads_away(value: Seq<char>) -> bool {
    let small = text::lowered(value);
    ||| text::holds(small, "://"@)
    ||| text::holds(small, "file:"@)
    ||| text::holds(small, "data:"@)
    ||| text::holds(small, "javascript:"@)
}

/// The value of an attribute is drawn.
pub open spec fn is_safe(name: Seq<char>, value: Seq<char>) -> bool {
    &&& !leads_away(value)
    &&& text::holds(text::lowered(value), "url("@) ==> (name == "fill"@ || name == "stroke"@ || name
        == "clip-path"@) && is_local_resource(value)
}

fn value_is_safe(name: &str, value: &str) -> (r: bool)
    ensures
        r == is_safe(name@, value@),
{
    let small = to_lower(value);
    let small = small.as_str();
    if contains(small, "://") || contains(small, "file:") || contains(small, "data:") || contains(
        small,
        "javascript:",
    ) {
        return false;
    }
    if contains(small, "url(") {
        (same(name, "fill") || same(name, "stroke") || same(name, "clip-path"))
            && matches_local_resource(value)
    } else {
        true
    }
}

/// An attribute of the outermost element that names a vocabulary.
pub open spec fn is_namespace(name: Seq<char>, value: Seq<char>) -> bool {
    ||| name == "xmlns"@ && value == "http://www.w3.org/2000/svg"@
    ||| name == "xmlns:xlink"@ && value == "http://www.w3.org/1999/xlink"@
}

/// What is wrong with an attribute.
pub open spec fn attribute_fault(attribute: Option<Attribute>, root: bool) -> Option<Fault> {
    match attribute {
        None => Some(Fault::InvalidSvg),
        Some(attribute) => if encode_utf8(attribute.raw).len() > MAX_ATTRIBUTE_BYTES {
            Some(Fault::TooLarge)
        } else {
            match attribute.value {
                None => Some(Fault::InvalidSvg),
                Some(value) => if root && is_namespace(attribute.name, value) {
                    None
                } else if !attributes().contains(attribute.name) || encode_utf8(value).len()
                    > MAX_ATTRIBUTE_BYTES || !is_safe(attribute.name, value) {
                    Some(Fault::UnsupportedSvg)
                } else {
                    None
                },
            }
        },
    }
}

/// What is wrong with the first of the attributes from the `i`-th on with which
/// something is.
pub open spec fn attributes_fault(list: Seq<Option<Attribute>>, root: bool, i: int) -> Option<Fault>
    decreases list.len() - i,
{
    if i < 0 || i >= list.len() {
        None
    } else {
        match attribute_fault(list[i], root) {
            Some(fault) => Some(fault),
            None => attributes_fault(list, root, i + 1),
        }
    }
}

fn validate_attribute(attribute: &Option<XmlAttribute>, root: bool) -> (r: Result<(), SvgPdfError>)
    ensures
        refused(
            r,
            attribute_fault(
                match *attribute {
                    None => None,
                    Some(attribute) => Some(attribute@),
                },
                root,
            ),
        ),
{
    let attribute = match attribute {
        None => {
            return Err(SvgPdfError::InvalidSvg);
        },
        Some(attribute) => attribute,
    };
    if attribute.raw.as_str().as_bytes().len() > MAX_ATTRIBUTE_BYTES {
        return Err(SvgPdfError::TooLarge);
    }
    let value = match &attribute.value {
        None => {
            return Err(SvgPdfError::InvalidSvg);
        },
        Some(value) => value.as_str(),
    };
    let name = attribute.name.as_str();
    if root && ((same(name, "xmlns") && same(value, "http://www.w3.org/2000/svg")) || (same(
        name,
        "xmlns:xlink",
    ) && same(value, "http://www.w3.org/1999/xlink"))) {
        return Ok(());
    }
    if !allowed_attribute(name) || value.as_bytes().len() > MAX_ATTRIBUTE_BYTES || !value_is_safe(
        name,
        value,
    ) {
        return Err(SvgPdfError::UnsupportedSvg);
    }
    Ok(())
}

/// Refuses a tag with an attribute that is not drawn.
pub fn validate_attributes(source: &str, root: bool) -> (r: Result<(), SvgPdfError>)
    ensures
        refused(r, attributes_fault(xml::attributes_in(source@), root, 0)),
{
    let list = read_attributes(source);
    let ghost all = xml::attribute_list(list@);
    let mut i: usize = 0;
    while i < list.len()
        invariant
            i <= list@.len(),
            all == xml::attribute_list(list@),
            attributes_fault(all, root, i as int) == attributes_fault(
                xml::attributes_in(source@),
                root,
                0,
            ),
        decreases list@.len() - i,
    {
        assert(all[i as int] == match list@[i as int] {
            None => None,
            Some(attribute) => Some(attribute@),
        });
        match validate_attribute(&list[i], root) {
            Err(error) => {
                return Err(error);
            },
            Ok(()) => {},
        }
        i += 1;
    }
    Ok(())
}

/// What is known of a file, as far as it has been looked through.
#[derive(Debug, Clone, Copy, PartialEq, Eq, Structural)]
pub struct Preflight {
    pub depth: usize,
    pub nodes: usize,
    pub saw_root: bool,
    pub has_text: bool,
}

impl Preflight {
    pub open spec fn wf(self) -> bool {
        self.depth <= MAX_DEPTH && self.nodes <= MAX_NODES
    }

    /// An element begins.
    pub open spec fn with_tag(self, tag: Tag) -> Result<Preflight, Fault> {
        let root = self.depth == 0;
        if root && (self.saw_root || tag.name != "svg"@) {
            Err(Fault::InvalidSvg)
        } else if !elements().contains(tag.name) {
            Err(Fault::UnsupportedSvg)
        } else if self.nodes + 1 > MAX_NODES {
            Err(Fault::TooLarge)
        } else {
            match attributes_fault(xml::attributes_in(tag.attributes), root, 0) {
                Some(fault) => Err(fault),
                None => Ok(
                    Preflight {
                        depth: self.depth,
                        nodes: (self.nodes + 1) as usize,
                        saw_root: true,
                        has_text: self.has_text || tag.name == "text"@ || tag.name == "tspan"@,
                    },
                ),
            }
        }
    }

    /// The next piece of the file.
    pub open spec fn with_piece(self, piece: Piece) -> Result<Preflight, Fault> {
        match piece {
            Piece::Start(tag) => match self.with_tag(tag) {
                Err(fault) => Err(fault),
                Ok(next) => if self.depth + 1 > MAX_DEPTH {
                    Err(Fault::TooLarge)
                } else {
                    Ok(Preflight { depth: (self.depth + 1) as usize, ..next })
                },
            },
            Piece::Empty(tag) => self.with_tag(tag),
            Piece::End(_) => if self.depth == 0 {
                Err(Fault::InvalidSvg)
            } else {
                Ok(Preflight { depth: (self.depth - 1) as usize, ..self })
            },
            Piece::Text(content) => if self.depth == 0 && text::trimmed(content).len() > 0 {
                Err(Fault::InvalidSvg)
            } else {
                Ok(self)
            },
            Piece::CData(_) | Piece::DocType | Piece::Instruction => Err(Fault::UnsupportedSvg),
            Piece::Reference(name) => match xml::referred_char(name) {
                None => Err(Fault::InvalidSvg),
                Some(Some(_)) => Ok(self),
                Some(None) => if xml::predefined(name) is Some {
                    Ok(self)
                } else {
                    Err(Fault::UnsupportedSvg)
                },
            },
            Piece::Declaration(encoding) => match encoding {
                None => Ok(self),
                Some(None) => Err(Fault::InvalidSvg),
                Some(Some(name)) => if text::lowered(name) == "utf-8"@ {
                    Ok(self)
                } else {
                    Err(Fault::UnsupportedSvg)
                },
            },
            _ => Ok(self),
        }
    }
}

/// What looking through the pieces from the `i`-th on gives: whether there is
/// text to draw.
pub open spec fn preflight_from(pieces: Seq<Option<Piece>>, i: int, seen: Preflight) -> Result<
    bool,
    Fault,
>
    decreases pieces.len() - i,
{
    if i < 0 || i >= pieces.len() {
        Err(Fault::InvalidSvg)
    } else {
        match pieces[i] {
            None => Err(Fault::InvalidSvg),
            Some(Piece::Eof) => if !seen.saw_root || seen.depth != 0 {
                Err(Fault::InvalidSvg)
            } else {
                Ok(seen.has_text)
            },
            Some(piece) => match seen.with_piece(piece) {
                Err(fault) => Err(fault),
                Ok(next) => preflight_from(pieces, i + 1, next),
            },
        }
    }
}

pub open spec fn unseen() -> Preflight {
    Preflight { depth: 0, nodes: 0, saw_root: false, has_text: false }
}

impl Preflight {
    /// An element begins.
    fn accept_tag(&self, tag: &XmlTag) -> (r: Result<Preflight, SvgPdfError>)
        requires
            self.wf(),
        ensures
            match self.with_tag(tag@) {
                Err(fault) => r is Err && r->Err_0@ == fault,
                Ok(next) => r is Ok && r->Ok_0 == next && next.wf(),
            },
    {
        let name = tag.name.as_str();
        let root = self.depth == 0;
        if root && (self.saw_root || !same(name, "svg")) {
            return Err(SvgPdfError::InvalidSvg);
        }
        if !allowed_element(name) {
            return Err(SvgPdfError::UnsupportedSvg);
        }
        if self.nodes + 1 > MAX_NODES {
            return Err(SvgPdfError::TooLarge);
        }
        match validate_attributes(tag.attributes.as_str(), root) {
            Err(error) => {
                return Err(error);
            },
            Ok(()) => {},
        }
        Ok(
            Preflight {
                depth: self.depth,
                nodes: self.nodes + 1,
                saw_root: true,
                has_text: self.has_text || same(name, "text") || same(name, "tspan"),
            },
        )
    }

    /// The next piece of the file.
    fn accept(&self, event: &XmlEvent) -> (r: Result<Preflight, SvgPdfError>)
        requires
            self.wf(),
            self.depth > 0 ==> self.saw_root,
        ensures
            match self.with_piece(event@) {
                Err(fault) => r is Err && r->Err_0@ == fault,
                Ok(next) => r is Ok && r->Ok_0 == next && next.wf() && (next.depth > 0
                    ==> next.saw_root),
            },
    {
        match event {
            XmlEvent::Start(tag) => match self.accept_tag(tag) {
                Err(error) => Err(error),
                Ok(next) => if self.depth + 1 > MAX_DEPTH {
                    Err(SvgPdfError::TooLarge)
                } else {
                    Ok(
                        Preflight {
                            depth: self.depth + 1,
                            nodes: next.nodes,
                            saw_root: next.saw_root,
                            has_text: next.has_text,
                        },
                    )
                },
            },
            XmlEvent::Empty(tag) => self.accept_tag(tag),
            XmlEvent::End(_) => if self.depth == 0 {
                Err(SvgPdfError::InvalidSvg)
            } else {
                Ok(
                    Preflight {
                        depth: self.depth - 1,
                        nodes: self.nodes,
                        saw_root: self.saw_root,
                        has_text: self.has_text,
                    },
                )
            },
            XmlEvent::Text(content) => {
                let chars = chars_of(content.as_str());
                if self.depth == 0 && trim(chars.as_slice()).len() > 0 {
                    Err(SvgPdfError::InvalidSvg)
                } else {
                    Ok(*self)
                }
            },
            XmlEvent::CData(_) | XmlEvent::DocType | XmlEvent::Instruction => Err(
                SvgPdfError::UnsupportedSvg,
            ),
            XmlEvent::Reference(name) => match resolve_char(name.as_str()) {
                None => Err(SvgPdfError::InvalidSvg),
                Some(Some(_)) => Ok(*self),
                Some(None) => if resolve_name(name.as_str()).is_some() {
                    Ok(*self)
                } else {
                    Err(SvgPdfError::UnsupportedSvg)
                },
            },
            XmlEvent::Declaration(encoding) => match encoding {
                None => Ok(*self),
                Some(None) => Err(SvgPdfError::InvalidSvg),
                Some(Some(name)) => if same(to_lower(name.as_str()).as_str(), "utf-8") {
                    Ok(*self)
                } else {
                    Err(SvgPdfError::UnsupportedSvg)
                },
            },
            XmlEvent::Comment | XmlEvent::Eof => Ok(*self),
        }
    }
}

/// What looking through a file gives: whether there is text to draw.
pub open spec fn preflight(xml: Seq<char>) -> Result<bool, Fault> {
    preflight_from(xml::plain_pieces(xml), 0, unseen())
}

/// Looks through a file before it is drawn.
pub fn preflight_svg<F: Fn() -> bool>(xml: &str, should_stop: &F) -> (r: Result<
    bool,
    SvgPdfError,
>)
    requires
        should_stop.requires(()),
    ensures
        stopping::always(*should_stop) ==> halted(r, *should_stop),
        halted(r, *should_stop) || match preflight(xml@) {
            Err(fault) => r is Err && r->Err_0@ == fault,
            Ok(has_text) => r is Ok && r->Ok_0 == has_text,
        },
{
    let mut reader = plain_reader(xml);
    let mut seen = Preflight { depth: 0, nodes: 0, saw_root: false, has_text: false };
    let ghost pieces = xml::plain_pieces(xml@);
    let ghost mut i: int = 0;
    proof {
        xml::lemma_ends(xml::plain_left(&reader), false);
        assert(pieces.skip(0) =~= pieces);
    }
    loop
        invariant
            0 <= i < pieces.len(),
            xml::ends(pieces),
            xml::plain_rest(&reader) == pieces.skip(i),
            should_stop.requires(()),
            seen.wf(),
            seen.depth > 0 ==> seen.saw_root,
            preflight_from(pieces, i, seen) == preflight(xml@),
        decreases pieces.len() - i,
    {
        if should_stop() {
            return Err(SvgPdfError::Cancelled);
        }
        let event = match next_plain(&mut reader) {
            None => {
                assert(pieces[i] is None);
                return Err(SvgPdfError::InvalidSvg);
            },
            Some(event) => event,
        };
        assert(pieces[i] == Some(event@));
        assert(pieces.skip(i).drop_first() =~= pieces.skip(i + 1));
        if let XmlEvent::Eof = event {
            if !seen.saw_root || seen.depth != 0 {
                return Err(SvgPdfError::InvalidSvg);
            }
            return Ok(seen.has_text);
        }
        assert(!xml::is_last(pieces[i]));
        match seen.accept(&event) {
            Err(error) => {
                return Err(error);
            },
            Ok(next) => {
                seen = next;
            },
        }
        proof {
            i = i + 1;
        }
    }
}

/// A text without the byte order marks at its start.
pub open spec fn unmarked(s: Seq<char>) -> Seq<char>
    decreases s.len(),
{
    if s.len() > 0 && s[0] == '\u{feff}' {
        unmarked(s.skip(1))
    } else {
        s
    }
}

fn without_marks(s: &str) -> (r: String)
    ensures
        r@ == unmarked(s@),
{
    let chars = chars_of(s);
    let mut i: usize = 0;
    assert(chars@.skip(0) =~= chars@);
    while i < chars.len() && chars[i] == '\u{feff}'
        invariant
            i <= chars@.len(),
            unmarked(chars@.skip(i as int)) == unmarked(chars@),
        decreases chars@.len() - i,
    {
        assert(chars@.skip(i as int).skip(1) =~= chars@.skip(i + 1));
        i += 1;
    }
    let rest = vstd::slice::slice_subrange(chars.as_slice(), i, chars.len());
    assert(rest@ =~= chars@.skip(i as int));
    string_of(rest)
}

/// What is known of the paths of a conversion.
#[derive(Debug)]
pub struct SvgPaths {
    pub input_absolute: bool,
    pub input_extension: Option<String>,
    pub output_absolute: bool,
    pub output_extension: Option<String>,
    /// The output goes to a directory.
    pub output_parent: bool,
}

pub open spec fn has_extension(extension: Option<String>, name: Seq<char>) -> bool {
    match extension {
        None => false,
        Some(extension) => text::lowered(extension@) == name,
    }
}

fn is_extension(extension: &Option<String>, name: &str) -> (r: bool)
    ensures
        r == has_extension(*extension, name@),
{
    match extension {
        None => false,
        Some(extension) => same(to_lower(extension.as_str()).as_str(), name),
    }
}

/// Refuses paths that must not be read or written.
pub fn validate_paths(paths: &SvgPaths) -> (r: Result<(), SvgPdfError>)
    ensures
        refused(r, paths_fault(*paths)),
{
    if !paths.input_absolute || !is_extension(&paths.input_extension, "svg") {
        return Err(SvgPdfError::InvalidInput);
    }
    if !paths.output_absolute || !is_extension(&paths.output_extension, "pdf")
        || !paths.output_parent {
        return Err(SvgPdfError::InvalidOutputPath);
    }
    Ok(())
}

/// Refuses what is no regular file, and empty and overlong files.
pub fn admit_file(regular: bool, length: u64) -> (r: Result<(), SvgPdfError>)
    ensures
        refused(r, file_fault(regular, length)),
{
    if !regular || length == 0 {
        return Err(SvgPdfError::InvalidInput);
    }
    if length > MAX_INPUT_BYTES {
        return Err(SvgPdfError::TooLarge);
    }
    Ok(())
}

/// A file that may be drawn: its text, and whether it holds text to draw.
#[derive(Debug)]
pub struct SvgSource {
    pub xml: String,
    pub contains_text: bool,
}

/// What the bytes of a file give that was announced with `length` bytes.
pub open spec fn source_of(data: Seq<u8>, length: u64) -> Result<(Seq<char>, bool), Fault> {
    if data.len() > MAX_INPUT_BYTES {
        Err(Fault::TooLarge)
    } else if data.len() != length {
        Err(Fault::InvalidInput)
    } else if !valid_utf8(data) {
        Err(Fault::InvalidSvg)
    } else {
        let xml = unmarked(decode_utf8(data));
        match preflight(xml) {
            Err(fault) => Err(fault),
            Ok(contains_text) => Ok((xml, contains_text)),
        }
    }
}

/// Reads a file and looks through it.
pub fn read_svg<F: Fn() -> bool>(data: &[u8], length: u64, should_stop: &F) -> (r: Result<
    SvgSource,
    SvgPdfError,
>)
    requires
        should_stop.requires(()),
    ensures
        halted(r, *should_stop) || match source_of(data@, length) {
            Err(fault) => r is Err && r->Err_0@ == fault,
            Ok((xml, contains_text)) => r is Ok && r->Ok_0.xml@ == xml && r->Ok_0.contains_text
                == contains_text,
        },
{
    if data.len() as u64 > MAX_INPUT_BYTES {
        return Err(SvgPdfError::TooLarge);
    }
    if data.len() as u64 != length {
        return Err(SvgPdfError::InvalidInput);
    }
    let source = match from_utf8(data) {
        None => {
            return Err(SvgPdfError::InvalidSvg);
        },
        Some(source) => source,
    };
    let xml = without_marks(source.as_str());
    match preflight_svg(xml.as_str(), should_stop) {
        Err(error) => Err(error),
        Ok(contains_text) => Ok(SvgSource { xml, contains_text }),
    }
}

/// What is wrong with a PDF file that was drawn.
pub open spec fn output_fault(pdf: Seq<u8>) -> Option<Fault> {
    if pdf.len() > MAX_OUTPUT_BYTES {
        Some(Fault::OutputTooLarge)
    } else if !bytes::occurs(pdf, 0, encode_utf8("%PDF-"@)) || bytes::first_at(
        pdf,
        0,
        encode_utf8("/Subtype /Image"@),
    ) is Some {
        Some(Fault::UnsupportedSvg)
    } else {
        None
    }
}

/// Refuses a PDF file that is too large or holds an image of pixels.
pub fn check_output(pdf: &[u8]) -> (r: Result<(), SvgPdfError>)
    ensures
        refused(r, output_fault(pdf@)),
{
    if pdf.len() > MAX_OUTPUT_BYTES {
        return Err(SvgPdfError::OutputTooLarge);
    }
    if !bytes::occurs_at(pdf, 0, "%PDF-".as_bytes()) || bytes::contains(
        pdf,
        "/Subtype /Image".as_bytes(),
    ) {
        return Err(SvgPdfError::UnsupportedSvg);
    }
    Ok(())
}

/// What opening and reading a file gave.
#[derive(Debug)]
pub struct SvgInput {
    pub regular: bool,
    /// The length that was announced.
    pub length: u64,
    pub data: Vec<u8>,
}

/// What drawing a file as a page gave.
#[derive(Debug)]
pub enum Drawing {
    /// There are no fonts for the text in it.
    NoFonts,
    /// It is not what it should be.
    Unreadable,
    /// Its page has no size, or one beyond the limit.
    BadPage,
    /// It holds what cannot be drawn.
    Undrawable,
    Pdf(Vec<u8>),
}

/// What keeps a drawing from being written.
pub open spec fn drawing_fault(drawing: Drawing) -> Option<Fault> {
    match drawing {
        Drawing::NoFonts | Drawing::Undrawable => Some(Fault::UnsupportedSvg),
        Drawing::Unreadable => Some(Fault::InvalidSvg),
        Drawing::BadPage => Some(Fault::TooLarge),
        Drawing::Pdf(pdf) => output_fault(pdf@),
    }
}

/// The PDF file of a drawing, unless something is wrong with it.
pub fn drawn_pdf(drawing: Drawing) -> (r: Result<Vec<u8>, SvgPdfError>)
    ensures
        match drawing_fault(drawing) {
            Some(fault) => r is Err && r->Err_0@ == fault,
            None => r is Ok && drawing == Drawing::Pdf(r->Ok_0),
        },
{
    match drawing {
        Drawing::NoFonts | Drawing::Undrawable => Err(SvgPdfError::UnsupportedSvg),
        Drawing::Unreadable => Err(SvgPdfError::InvalidSvg),
        Drawing::BadPage => Err(SvgPdfError::TooLarge),
        Drawing::Pdf(pdf) => match check_output(pdf.as_slice()) {
            Err(error) => Err(error),
            Ok(()) => Ok(pdf),
        },
    }
}

/// What is wrong with the paths of a conversion.
pub open spec fn paths_fault(paths: SvgPaths) -> Option<Fault> {
    if !paths.input_absolute || !has_extension(paths.input_extension, "svg"@) {
        Some(Fault::InvalidInput)
    } else if !paths.output_absolute || !has_extension(paths.output_extension, "pdf"@)
        || !paths.output_parent {
        Some(Fault::InvalidOutputPath)
    } else {
        None
    }
}

/// What is wrong with a file, going by its kind and its length.
pub open spec fn file_fault(regular: bool, length: u64) -> Option<Fault> {
    if !regular || length == 0 {
        Some(Fault::InvalidInput)
    } else if length > MAX_INPUT_BYTES {
        Some(Fault::TooLarge)
    } else {
        None
    }
}

/// What there is to draw, or what stands in the way of drawing.
pub open spec fn drawable(paths: SvgPaths, input: Result<SvgInput, String>) -> Result<
    (Seq<char>, bool),
    Fault,
> {
    match paths_fault(paths) {
        Some(fault) => Err(fault),
        None => match input {
            Err(message) => Err(Fault::InputIo(message@)),
            Ok(file) => match file_fault(file.regular, file.length) {
                Some(fault) => Err(fault),
                None => source_of(file.data@, file.length),
            },
        },
    }
}

/// `r` is what some drawing of the source gives.
pub open spec fn is_drawn<D: Fn(&str, bool) -> Drawing>(
    r: Result<Vec<u8>, SvgPdfError>,
    xml: Seq<char>,
    contains_text: bool,
    draw: D,
) -> bool {
    exists|source: &str, drawing: Drawing|
        {
            &&& source@ == xml
            &&& #[trigger] draw.ensures((source, contains_text), drawing)
            &&& match drawing_fault(drawing) {
                Some(fault) => r is Err && r->Err_0@ == fault,
                None => r is Ok && drawing == Drawing::Pdf(r->Ok_0),
            }
        }
}

/// Converts a file to a PDF file: `input` is what reading it gave, and `draw`
/// draws its text as one page, with fonts if the text is to show text.
pub fn svg_to_pdf<D: Fn(&str, bool) -> Drawing, F: Fn() -> bool>(
    paths: &SvgPaths,
    input: &Result<SvgInput, String>,
    draw: D,
    should_stop: F,
) -> (r: Result<Vec<u8>, SvgPdfError>)
    requires
        should_stop.requires(()),
        forall|source: &str, contains_text: bool| #[trigger] draw.requires((source, contains_text)),
    ensures
        paths_fault(*paths) is None && stopping::always(should_stop) ==> halted(r, should_stop),
        match paths_fault(*paths) {
            Some(fault) => r is Err && r->Err_0@ == fault,
            None => halted(r, should_stop) || match drawable(*paths, *input) {
                Err(fault) => r is Err && r->Err_0@ == fault,
                Ok((xml, contains_text)) => is_drawn(r, xml, contains_text, draw),
            },
        },
{
    match validate_paths(paths) {
        Err(error) => {
            return Err(error);
        },
        Ok(()) => {},
    }
    if should_stop() {
        return Err(SvgPdfError::Cancelled);
    }
    let file = match input {
        Err(message) => {
            return Err(SvgPdfError::InputIo(message.clone()));
        },
        Ok(file) => file,
    };
    match admit_file(file.regular, file.length) {
        Err(error) => {
            return Err(error);
        },
        Ok(()) => {},
    }
    let source = match read_svg(file.data.as_slice(), file.length, &should_stop) {
        Err(error) => {
            return Err(error);
        },
        Ok(source) => source,
    };
    if should_stop() {
        return Err(SvgPdfError::Cancelled);
    }
    let drawing = draw(source.xml.as_str(), source.contains_text);
    let pdf = match drawn_pdf(drawing) {
        Err(error) => {
            return Err(error);
        },
        Ok(pdf) => pdf,
    };
    if should_stop() {
        return Err(SvgPdfError::Cancelled);
    }
    Ok(pdf)
}

/// A file that is drawn has only elements and attributes that are drawn, and no
/// value in it leads anywhere else.
pub proof fn law_drawn_tags_are_safe(seen: Preflight, tag: Tag, i: int)
    requires
        seen.with_tag(tag) is Ok,
        0 <= i < xml::attributes_in(tag.attributes).len(),
    ensures
        elements().contains(tag.name),
        ({
            let attribute = xml::attributes_in(tag.attributes)[i];
            &&& attribute is Some
            &&& attribute->0.value is Some
            &&& is_namespace(attribute->0.name, attribute->0.value->0) || (attributes().contains(
                attribute->0.name,
            ) && is_safe(attribute->0.name, attribute->0.value->0))
        }),
{
    lemma_no_fault(xml::attributes_in(tag.attributes), seen.depth == 0, 0, i);
}

proof fn lemma_no_fault(list: Seq<Option<Attribute>>, root: bool, from: int, i: int)
    requires
        0 <= from <= i < list.len(),
        attributes_fault(list, root, from) is None,
    ensures
        attribute_fault(list[i], root) is None,
    decreases i - from,
{
    if from < i {
        lemma_no_fault(list, root, from + 1, i);
    }
}

} // verus!
