//! Reading XML event by event.

use quick_xml::events::{BytesDecl, BytesRef, BytesStart, Event};
use quick_xml::name::ResolveResult;
use quick_xml::{NsReader, Reader, XmlVersion};

use vstd::prelude::*;

use crate::text;
use crate::xml_marks;
use crate::xml_marks::Mark;

verus! {

/// A start tag: the namespace that its name is bound to, the name, and what
/// stands behind the name.
#[derive(Debug, PartialEq, Eq)]
pub struct XmlTag {
    pub namespace: Option<String>,
    pub name: String,
    pub attributes: String,
}

/// What contracts say of an `XmlTag`.
pub struct Tag {
    pub namespace: Option<Seq<char>>,
    pub name: Seq<char>,
    pub attributes: Seq<char>,
}

impl View for XmlTag {
    type V = Tag;

    open spec fn view(&self) -> Tag {
        Tag {
            namespace: some_string(self.namespace),
            name: self.name@,
            attributes: self.attributes@,
        }
    }
}

pub open spec fn some_string(s: Option<String>) -> Option<Seq<char>> {
    match s {
        Some(s) => Some(s@),
        None => None,
    }
}

/// A piece of an XML text.
#[derive(Debug, PartialEq, Eq)]
pub enum XmlEvent {
    Start(XmlTag),
    Empty(XmlTag),
    /// An end tag, which has no attributes.
    End(XmlTag),
    Text(String),
    CData(String),
    /// What stands between `&` and `;`.
    Reference(String),
    /// The encoding that the declaration names, if it names one; `Some(None)`
    /// where the declaration cannot be read.
    Declaration(Option<Option<String>>),
    Instruction,
    DocType,
    Comment,
    Eof,
}

/// What contracts say of an `XmlEvent`.
pub enum Piece {
    Start(Tag),
    Empty(Tag),
    End(Tag),
    Text(Seq<char>),
    CData(Seq<char>),
    Reference(Seq<char>),
    Declaration(Option<Option<Seq<char>>>),
    Instruction,
    DocType,
    Comment,
    Eof,
}

impl View for XmlEvent {
    type V = Piece;

    open spec fn view(&self) -> Piece {
        match *self {
            XmlEvent::Start(tag) => Piece::Start(tag@),
            XmlEvent::Empty(tag) => Piece::Empty(tag@),
            XmlEvent::End(tag) => Piece::End(tag@),
            XmlEvent::Text(s) => Piece::Text(s@),
            XmlEvent::CData(s) => Piece::CData(s@),
            XmlEvent::Reference(s) => Piece::Reference(s@),
            XmlEvent::Declaration(encoding) => Piece::Declaration(
                match encoding {
                    Some(encoding) => Some(some_string(encoding)),
                    None => None,
                },
            ),
            XmlEvent::Instruction => Piece::Instruction,
            XmlEvent::DocType => Piece::DocType,
            XmlEvent::Comment => Piece::Comment,
            XmlEvent::Eof => Piece::Eof,
        }
    }
}

pub open spec fn some_piece(event: Option<XmlEvent>) -> Option<Piece> {
    match event {
        Some(event) => Some(event@),
        None => None,
    }
}

/// Reading goes on until the end of the text or until it fails, and no further.
pub open spec fn ends(pieces: Seq<Option<Piece>>) -> bool {
    pieces.len() > 0 && forall|i: int|
        0 <= i < pieces.len() ==> (i == pieces.len() - 1 <==> is_last(#[trigger] pieces[i]))
}

pub open spec fn is_last(piece: Option<Piece>) -> bool {
    piece is None || piece == Some(Piece::Eof)
}

/// The kinds of events that readers tell apart.
#[derive(Debug, Clone, Copy, PartialEq, Eq, Structural)]
pub enum XmlKind {
    Start,
    Empty,
    End,
    Text,
    CData,
    Reference,
    Declaration,
    Instruction,
    DocType,
    Comment,
    Eof,
}

/// An event as a reader gives it: its kind, the namespace that the name of a
/// tag is bound to, and the text between the marks that delimit it.
#[derive(Debug)]
pub struct RawEvent {
    pub kind: XmlKind,
    pub namespace: Option<String>,
    pub content: String,
}

/// What contracts say of a `RawEvent`.
pub struct RawPiece {
    pub kind: XmlKind,
    pub namespace: Option<Seq<char>>,
    pub content: Seq<char>,
}

impl View for RawEvent {
    type V = RawPiece;

    open spec fn view(&self) -> RawPiece {
        RawPiece {
            kind: self.kind,
            namespace: some_string(self.namespace),
            content: self.content@,
        }
    }
}

impl RawPiece {
    /// A declaration begins with the three letters `xml`.
    pub open spec fn wf(self) -> bool {
        self.kind == XmlKind::Declaration ==> "xml"@.is_prefix_of(self.content)
    }
}

pub open spec fn some_raw(event: Option<RawEvent>) -> Option<RawPiece> {
    match event {
        Some(event) => Some(event@),
        None => None,
    }
}

/// Reading goes on until the end of the text or until it fails, and no further.
pub open spec fn raw_ends(pieces: Seq<Option<RawPiece>>) -> bool {
    pieces.len() > 0 && forall|i: int|
        0 <= i < pieces.len() ==> (i == pieces.len() - 1 <==> match #[trigger] pieces[i] {
            Some(piece) => piece.kind == XmlKind::Eof,
            None => true,
        })
}

/// `quick_xml::NsReader`, which resolves namespaces.
#[verifier::external_type_specification]
#[verifier::external_body]
#[verifier::reject_recursive_types(R)]
pub struct ExNsReader<R>(quick_xml::NsReader<R>);

/// `quick_xml::Reader`, which does not.
#[verifier::external_type_specification]
#[verifier::external_body]
#[verifier::reject_recursive_types(R)]
pub struct ExReader<R>(quick_xml::Reader<R>);

/// The events that `NsReader` reads from a text, `None` for a failure.
pub uninterp spec fn resolved_events(xml: Seq<char>) -> Seq<Option<RawPiece>>;

/// The events that an `NsReader` has yet to read.
pub uninterp spec fn resolved_left(reader: &NsReader<&[u8]>) -> Seq<Option<RawPiece>>;

/// The events that `Reader` reads from a text, `None` for a failure.
pub uninterp spec fn plain_events(xml: Seq<char>) -> Seq<Option<RawPiece>>;

/// The events that a `Reader` has yet to read.
pub uninterp spec fn plain_left(reader: &Reader<&[u8]>) -> Seq<Option<RawPiece>>;

/// Calls `NsReader::from_str`: the reader has the whole text to read, which
/// ends after finitely many events. A document that is written piece by piece is
/// read as these pieces.
#[verifier::external_body]
pub(crate) fn resolved_reader(xml: &str) -> (r: NsReader<&[u8]>)
    ensures
        resolved_left(&r) == resolved_events(xml@),
        raw_ends(resolved_left(&r)),
        forall|prefix: char, uri: Seq<char>, marks: Seq<Mark>| #[trigger]
            xml_marks::is_document(prefix, uri, marks) && xml@ == xml_marks::marks_text(
                prefix,
                marks,
            ) ==> xml_marks::are_events(resolved_left(&r), prefix, uri, marks),
{
    NsReader::from_str(xml)
}

/// Calls `NsReader::read_resolved_event_into`: takes the next event. What is no
/// tag, text, reference or document type counts as a comment, so none is a
/// declaration.
#[verifier::external_body]
fn read_resolved(reader: &mut NsReader<&[u8]>) -> (r: Option<RawEvent>)
    requires
        resolved_left(old(reader)).len() > 0,
    ensures
        some_raw(r) == resolved_left(old(reader))[0],
        r is Some ==> r->0@.wf(),
        resolved_left(final(reader)) == resolved_left(old(reader)).drop_first(),
{
    let mut buffer = Vec::new();
    let (bound, event) = reader.read_resolved_event_into(&mut buffer).ok()?;
    let namespace = match bound { ResolveResult::Bound(uri) => Some(uri.as_ref().to_owned()), _ => None };
    let kind = match event {
        Event::Start(_) => XmlKind::Start,
        Event::Empty(_) => XmlKind::Empty,
        Event::End(_) => XmlKind::End,
        Event::Text(_) => XmlKind::Text,
        Event::CData(_) => XmlKind::CData,
        Event::GeneralRef(_) => XmlKind::Reference,
        Event::DocType(_) => XmlKind::DocType,
        Event::Eof => XmlKind::Eof,
        _ => XmlKind::Comment,
    };
    Some(RawEvent { kind, namespace, content: (*event).to_owned() })
}

/// Calls `Reader::from_str`: the reader has the whole text to read, which ends
/// after finitely many events.
#[verifier::external_body]
pub(crate) fn plain_reader(xml: &str) -> (r: Reader<&[u8]>)
    ensures
        plain_left(&r) == plain_events(xml@),
        raw_ends(plain_left(&r)),
{
    Reader::from_str(xml)
}

/// Calls `Reader::read_event`: takes the next event, without a namespace. What
/// does not begin with the three letters `xml` is no declaration.
#[verifier::external_body]
fn read_plain(reader: &mut Reader<&[u8]>) -> (r: Option<RawEvent>)
    requires
        plain_left(old(reader)).len() > 0,
    ensures
        some_raw(r) == plain_left(old(reader))[0],
        r is Some ==> r->0@.wf(),
        plain_left(final(reader)) == plain_left(old(reader)).drop_first(),
{
    let event = reader.read_event().ok()?;
    let kind = match event {
        Event::Start(_) => XmlKind::Start,
        Event::Empty(_) => XmlKind::Empty,
        Event::End(_) => XmlKind::End,
        Event::Text(_) => XmlKind::Text,
        Event::CData(_) => XmlKind::CData,
        Event::GeneralRef(_) => XmlKind::Reference,
        Event::Decl(_) => XmlKind::Declaration,
        Event::PI(_) => XmlKind::Instruction,
        Event::DocType(_) => XmlKind::DocType, Event::Comment(_) => XmlKind::Comment, Event::Eof => XmlKind::Eof,
    };
    Some(RawEvent { kind, namespace: None, content: (*event).to_owned() })
}

/// The encoding that `BytesDecl::encoding` finds in a declaration, if it names
/// one; `Some(None)` where the declaration cannot be read.
pub uninterp spec fn encoding_in(content: Seq<char>) -> Option<Option<Seq<char>>>;

pub open spec fn some_encoding(encoding: Option<Option<String>>) -> Option<Option<Seq<char>>> {
    match encoding {
        Some(encoding) => Some(some_string(encoding)),
        None => None,
    }
}

/// Calls `BytesDecl::encoding` on the content of a declaration, which begins
/// with the three letters `xml`.
#[verifier::external_body]
fn read_encoding(content: &str) -> (r: Option<Option<String>>)
    requires
        "xml"@.is_prefix_of(content@),
    ensures
        some_encoding(r) == encoding_in(content@),
{
    let declaration = BytesDecl::from_start(BytesStart::from_content(content, 3));
    declaration.encoding().map(|encoding| encoding.ok().map(|name| name.into_owned()))
}

/// A character that ends the name in a tag.
pub open spec fn is_space(c: char) -> bool {
    c == ' ' || c == '\r' || c == '\n' || c == '\t'
}

/// Where the name at the start of a tag ends.
pub open spec fn name_end(content: Seq<char>, i: int) -> int
    decreases content.len() - i,
{
    if i < 0 || i >= content.len() {
        content.len() as int
    } else if is_space(content[i]) {
        i
    } else {
        name_end(content, i + 1)
    }
}

/// A name without its prefix.
pub open spec fn local_part(name: Seq<char>) -> Seq<char> {
    let colon = text::index_of(name, ':', 0);
    if colon < name.len() {
        name.skip(colon + 1)
    } else {
        name
    }
}

/// The tag that `content` writes, with the prefix of its name or without.
pub open spec fn tag_in(namespace: Option<Seq<char>>, content: Seq<char>, local: bool) -> Tag {
    let end = name_end(content, 0);
    let name = content.take(end);
    Tag {
        namespace,
        name: if local {
            local_part(name)
        } else {
            name
        },
        attributes: content.skip(end),
    }
}

/// Text from `i` on with every line end written as a line feed.
pub open spec fn with_line_feeds(s: Seq<char>, i: int) -> Seq<char>
    decreases s.len() - i,
{
    if i < 0 || i >= s.len() {
        Seq::empty()
    } else if s[i] == '\r' {
        if i + 1 < s.len() && s[i + 1] == '\n' {
            seq!['\n'] + with_line_feeds(s, i + 2)
        } else {
            seq!['\n'] + with_line_feeds(s, i + 1)
        }
    } else {
        seq![s[i]] + with_line_feeds(s, i + 1)
    }
}

/// What an event is.
pub open spec fn piece_of(raw: RawPiece, local: bool) -> Piece {
    match raw.kind {
        XmlKind::Start => Piece::Start(tag_in(raw.namespace, raw.content, local)),
        XmlKind::Empty => Piece::Empty(tag_in(raw.namespace, raw.content, local)),
        XmlKind::End => Piece::End(tag_in(raw.namespace, raw.content, local)),
        XmlKind::Text => Piece::Text(with_line_feeds(raw.content, 0)),
        XmlKind::CData => Piece::CData(with_line_feeds(raw.content, 0)),
        XmlKind::Reference => Piece::Reference(raw.content),
        XmlKind::Declaration => Piece::Declaration(encoding_in(raw.content)),
        XmlKind::Instruction => Piece::Instruction,
        XmlKind::DocType => Piece::DocType,
        XmlKind::Comment => Piece::Comment,
        XmlKind::Eof => Piece::Eof,
    }
}

pub open spec fn pieces_of(raw: Seq<Option<RawPiece>>, local: bool) -> Seq<Option<Piece>> {
    Seq::new(
        raw.len(),
        |i: int|
            match raw[i] {
                Some(piece) => Some(piece_of(piece, local)),
                None => None,
            },
    )
}

/// What a text holds, names of tags without their prefixes; `None` for what
/// cannot be read.
pub open spec fn resolved_pieces(xml: Seq<char>) -> Seq<Option<Piece>> {
    pieces_of(resolved_events(xml), true)
}

/// What is left of a text.
pub open spec fn resolved_rest(reader: &NsReader<&[u8]>) -> Seq<Option<Piece>> {
    pieces_of(resolved_left(reader), true)
}

/// What a text holds, names of tags in full; `None` for what cannot be read.
pub open spec fn plain_pieces(xml: Seq<char>) -> Seq<Option<Piece>> {
    pieces_of(plain_events(xml), false)
}

/// What is left of a text.
pub open spec fn plain_rest(reader: &Reader<&[u8]>) -> Seq<Option<Piece>> {
    pieces_of(plain_left(reader), false)
}

pub proof fn lemma_ends(raw: Seq<Option<RawPiece>>, local: bool)
    requires
        raw_ends(raw),
    ensures
        ends(pieces_of(raw, local)),
{
    let pieces = pieces_of(raw, local);
    assert forall|i: int| 0 <= i < pieces.len() implies (i == pieces.len() - 1 <==> is_last(
        #[trigger] pieces[i],
    )) by {
        assert(raw[i] == raw[i]);
    }
}

fn find_name_end(content: &[char]) -> (r: usize)
    ensures
        r == name_end(content@, 0),
        r <= content@.len(),
{
    let mut i: usize = 0;
    while i < content.len()
        invariant
            i <= content@.len(),
            name_end(content@, i as int) == name_end(content@, 0),
        decreases content@.len() - i,
    {
        let c: char = content[i];
        if c == ' ' || c == '\r' || c == '\n' || c == '\t' {
            return i;
        }
        i += 1;
    }
    i
}

fn read_tag(namespace: Option<String>, content: &str, local: bool) -> (r: XmlTag)
    ensures
        r@ == tag_in(some_string(namespace), content@, local),
{
    let chars = text::chars_of(content);
    let end = find_name_end(chars.as_slice());
    let mut from: usize = 0;
    let name = vstd::slice::slice_subrange(chars.as_slice(), 0, end);
    assert(name@ =~= chars@.take(end as int));
    if local {
        let colon = text::find_char(name, ':', 0);
        if colon < name.len() {
            from = colon + 1;
        }
    }
    let local_name = vstd::slice::slice_subrange(name, from, name.len());
    assert(local_name@ =~= name@.skip(from as int));
    assert(name@.skip(0) =~= name@);
    let rest = vstd::slice::slice_subrange(chars.as_slice(), end, chars.len());
    assert(rest@ =~= chars@.skip(end as int));
    XmlTag { namespace, name: text::string_of(local_name), attributes: text::string_of(rest) }
}

/// The text with every line end written as a line feed.
pub fn normalize_line_ends(s: &str) -> (r: String)
    ensures
        r@ == with_line_feeds(s@, 0),
{
    let chars = text::chars_of(s);
    let mut out = String::new();
    let mut i: usize = 0;
    assert(out@ + with_line_feeds(s@, 0) =~= with_line_feeds(s@, 0));
    while i < chars.len()
        invariant
            i <= chars@.len(),
            chars@ == s@,
            out@ + with_line_feeds(s@, i as int) == with_line_feeds(s@, 0),
        decreases chars@.len() - i,
    {
        let ghost before = out@;
        let c: char = chars[i];
        let next: usize = if c == '\r' && i + 1 < chars.len() && chars[i + 1] == '\n' {
            i + 2
        } else {
            i + 1
        };
        let shown: char = if c == '\r' {
            '\n'
        } else {
            c
        };
        out.push(shown);
        let ghost rest = with_line_feeds(s@, next as int);
        assert(out@ + rest =~= before + (seq![shown] + rest));
        i = next;
    }
    assert(out@ =~= with_line_feeds(s@, 0));
    out
}

/// What an event is.
fn event_of(raw: RawEvent, local: bool) -> (r: XmlEvent)
    requires
        raw@.wf(),
    ensures
        r@ == piece_of(raw@, local),
{
    let content = raw.content.as_str();
    match raw.kind {
        XmlKind::Start => XmlEvent::Start(read_tag(raw.namespace, content, local)),
        XmlKind::Empty => XmlEvent::Empty(read_tag(raw.namespace, content, local)),
        XmlKind::End => XmlEvent::End(read_tag(raw.namespace, content, local)),
        XmlKind::Text => XmlEvent::Text(normalize_line_ends(content)),
        XmlKind::CData => XmlEvent::CData(normalize_line_ends(content)),
        XmlKind::Reference => XmlEvent::Reference(raw.content),
        XmlKind::Declaration => XmlEvent::Declaration(read_encoding(content)),
        XmlKind::Instruction => XmlEvent::Instruction,
        XmlKind::DocType => XmlEvent::DocType,
        XmlKind::Comment => XmlEvent::Comment,
        XmlKind::Eof => XmlEvent::Eof,
    }
}

/// Takes the next piece of a text.
pub fn next_resolved(reader: &mut NsReader<&[u8]>) -> (r: Option<XmlEvent>)
    requires
        resolved_rest(old(reader)).len() > 0,
    ensures
        some_piece(r) == resolved_rest(old(reader))[0],
        resolved_rest(final(reader)) == resolved_rest(old(reader)).drop_first(),
{
    let raw = read_resolved(reader);
    assert(resolved_rest(reader) =~= resolved_rest(old(reader)).drop_first());
    match raw {
        None => None,
        Some(raw) => Some(event_of(raw, true)),
    }
}

/// Takes the next piece of a text.
pub fn next_plain(reader: &mut Reader<&[u8]>) -> (r: Option<XmlEvent>)
    requires
        plain_rest(old(reader)).len() > 0,
    ensures
        some_piece(r) == plain_rest(old(reader))[0],
        plain_rest(final(reader)) == plain_rest(old(reader)).drop_first(),
{
    let raw = read_plain(reader);
    assert(plain_rest(reader) =~= plain_rest(old(reader)).drop_first());
    match raw {
        None => None,
        Some(raw) => Some(event_of(raw, false)),
    }
}

/// An attribute of a tag: its name, the name without a prefix, the value as it
/// stands in the text, and the value with references resolved, if they can be.
#[derive(Debug, PartialEq, Eq)]
pub struct XmlAttribute {
    pub name: String,
    pub local: String,
    pub raw: String,
    pub value: Option<String>,
}

/// What contracts say of an `XmlAttribute`.
pub struct Attribute {
    pub name: Seq<char>,
    pub local: Seq<char>,
    pub raw: Seq<char>,
    pub value: Option<Seq<char>>,
}

impl View for XmlAttribute {
    type V = Attribute;

    open spec fn view(&self) -> Attribute {
        Attribute {
            name: self.name@,
            local: self.local@,
            raw: self.raw@,
            value: some_string(self.value),
        }
    }
}

pub open spec fn attribute_list(list: Seq<Option<XmlAttribute>>) -> Seq<Option<Attribute>> {
    Seq::new(
        list.len(),
        |i: int|
            match list[i] {
                Some(attribute) => Some(attribute@),
                None => None,
            },
    )
}

/// An attribute whose value holds no references.
pub open spec fn plain_attribute(key: Seq<char>, value: Seq<char>) -> Attribute {
    Attribute { name: key, local: local_part(key), raw: value, value: Some(value) }
}

/// An attribute that stands alone and is written in plain characters is found.
pub open spec fn found_alone(source: Seq<char>) -> bool {
    forall|key: Seq<char>, value: Seq<char>| #[trigger]
        xml_marks::single(source, key, value) ==> attributes_in(source) == seq![
            Some(plain_attribute(key, value)),
        ]
}

/// The attributes that `BytesStart::attributes` finds behind the name of a tag,
/// `None` for one that is not well-formed.
pub uninterp spec fn attributes_in(source: Seq<char>) -> Seq<Option<Attribute>>;

/// Calls `BytesStart::attributes`, and `Attribute::normalized_value` on each
/// attribute. An attribute that stands alone and is written in plain characters
/// is found as it is written.
#[verifier::external_body]
pub(crate) fn read_attributes(source: &str) -> (r: Vec<Option<XmlAttribute>>)
    ensures
        attribute_list(r@) == attributes_in(source@),
        forall|key: Seq<char>, value: Seq<char>| #[trigger]
            xml_marks::single(source@, key, value) ==> attribute_list(r@) == seq![
                Some(plain_attribute(key, value)),
            ],
{
    let tag = BytesStart::from_content(source, 0);
    tag.attributes().map(|item| item.ok().map(|attribute| XmlAttribute {
        name: attribute.key.as_ref().to_owned(),
        local: attribute.key.local_name().as_ref().to_owned(),
        raw: attribute.value.as_ref().to_owned(),
        value: attribute.normalized_value(XmlVersion::Implicit1_0).ok().map(|value| value.into_owned()),
    })).collect()
}

/// What a digit stands for in base 10 or 16.
pub open spec fn digit_value(c: char, radix: int) -> Option<int> {
    if '0' <= c <= '9' {
        Some(c as int - '0' as int)
    } else if radix == 16 && 'a' <= c <= 'f' {
        Some(c as int - 'a' as int + 10)
    } else if radix == 16 && 'A' <= c <= 'F' {
        Some(c as int - 'A' as int + 10)
    } else {
        None
    }
}

/// The number that digits write, if there are any and nothing else.
pub open spec fn digits_value(s: Seq<char>, radix: int) -> Option<int>
    decreases s.len(),
{
    if s.len() == 0 {
        None
    } else if s.len() == 1 {
        digit_value(s[0], radix)
    } else {
        match (digits_value(s.drop_last(), radix), digit_value(s.last(), radix)) {
            (Some(value), Some(digit)) => Some(value * radix + digit),
            _ => None,
        }
    }
}

/// The character that a reference such as `#65` or `#x41` stands for: `Some(None)`
/// if it is no reference to a character, `None` if it is one to no character.
pub open spec fn referred_char(name: Seq<char>) -> Option<Option<char>> {
    if name.len() == 0 || name[0] != '#' {
        Some(None)
    } else {
        let number = if name.len() > 1 && name[1] == 'x' {
            digits_value(name.skip(2), 16)
        } else {
            digits_value(name.skip(1), 10)
        };
        match number {
            Some(code) => if code == 0 {
                None
            } else {
                match text::scalar(code) {
                    Some(c) => Some(Some(c)),
                    None => None,
                }
            },
            None => None,
        }
    }
}

/// Calls `BytesRef::resolve_char_ref`: the character of a decimal or
/// hexadecimal reference, which is neither zero nor outside Unicode.
#[verifier::external_body]
pub(crate) fn resolve_char(name: &str) -> (r: Option<Option<char>>)
    ensures
        r == referred_char(name@),
{
    BytesRef::new(name).resolve_char_ref().ok()
}

/// What the names that XML predefines stand for.
pub open spec fn predefined(name: Seq<char>) -> Option<Seq<char>> {
    if name == "lt"@ {
        Some("<"@)
    } else if name == "gt"@ {
        Some(">"@)
    } else if name == "amp"@ {
        Some("&"@)
    } else if name == "apos"@ {
        Some("'"@)
    } else if name == "quot"@ {
        Some("\""@)
    } else {
        None
    }
}

/// Calls `quick_xml::escape::resolve_predefined_entity`, which knows the five
/// names that XML predefines.
#[verifier::external_body]
pub(crate) fn resolve_name(name: &str) -> (r: Option<&'static str>)
    ensures
        match r {
            Some(value) => predefined(name@) == Some(value@),
            None => predefined(name@) is None,
        },
{
    quick_xml::escape::resolve_predefined_entity(name)
}

/// The text that a reference stands for.
pub open spec fn referred(name: Seq<char>) -> Option<Seq<char>> {
    match referred_char(name) {
        None => None,
        Some(Some(c)) => Some(seq![c]),
        Some(None) => predefined(name),
    }
}

/// Appends the text that a reference stands for; `false` if it stands for none.
pub fn push_referred(out: &mut Vec<char>, name: &str) -> (r: bool)
    ensures
        match referred(name@) {
            Some(more) => r && final(out)@ == old(out)@ + more,
            None => !r && final(out)@ == old(out)@,
        },
{
    match resolve_char(name) {
        None => false,
        Some(Some(c)) => {
            let ghost before = out@;
            out.push(c);
            assert(out@ =~= before + seq![c]);
            true
        },
        Some(None) => match resolve_name(name) {
            None => false,
            Some(value) => {
                text::push_string(out, value);
                true
            },
        },
    }
}

/// The value of the first attribute with that local name: `Some(None)` if there
/// is none, and `None` where an attribute before it is not well-formed or its
/// value cannot be read.
pub open spec fn value_from(list: Seq<Option<Attribute>>, name: Seq<char>, i: int) -> Option<
    Option<Seq<char>>,
>
    decreases list.len() - i,
{
    if i < 0 || i >= list.len() {
        Some(None)
    } else {
        match list[i] {
            None => None,
            Some(attribute) => if attribute.local == name {
                match attribute.value {
                    Some(value) => Some(Some(value)),
                    None => None,
                }
            } else {
                value_from(list, name, i + 1)
            },
        }
    }
}

/// The value of the first attribute with that local name.
pub fn attribute_value(source: &str, name: &str) -> (r: Option<Option<String>>)
    ensures
        match r {
            Some(value) => value_from(attributes_in(source@), name@, 0) == Some(
                some_string(value),
            ),
            None => value_from(attributes_in(source@), name@, 0) is None,
        },
        found_alone(source@),
{
    let list = read_attributes(source);
    let ghost all = attribute_list(list@);
    let mut i: usize = 0;
    while i < list.len()
        invariant
            i <= list@.len(),
            all == attribute_list(list@),
            all == attributes_in(source@),
            found_alone(source@),
            value_from(all, name@, i as int) == value_from(all, name@, 0),
        decreases list@.len() - i,
    {
        match &list[i] {
            None => {
                return None;
            },
            Some(attribute) => {
                if text::same(attribute.local.as_str(), name) {
                    return match &attribute.value {
                        Some(value) => Some(Some(value.clone())),
                        None => None,
                    };
                }
            },
        }
        i += 1;
    }
    Some(None)
}

} // verus!
