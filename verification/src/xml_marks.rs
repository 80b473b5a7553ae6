//! XML that is written tag by tag, and what its reader makes of it.

use vstd::prelude::*;

use crate::text;
use crate::xml;
use crate::xml::{Piece, RawPiece, Tag, XmlKind};

verus! {

/// A tag with at most one attribute: its name without a prefix, and the name
/// and the value of the attribute.
pub struct MarkTag {
    pub local: Seq<char>,
    pub attribute: Option<(Seq<char>, Seq<char>)>,
}

/// A piece of XML that is written.
pub enum Mark {
    Declaration(Seq<char>),
    Start(MarkTag),
    Empty(MarkTag),
    End(Seq<char>),
    Text(Seq<char>),
    Reference(Seq<char>),
}

/// A name with its prefix.
pub open spec fn prefixed(prefix: char, local: Seq<char>) -> Seq<char> {
    seq![prefix, ':'] + local
}

pub open spec fn attribute_text(attribute: Option<(Seq<char>, Seq<char>)>) -> Seq<char> {
    match attribute {
        None => Seq::empty(),
        Some((key, value)) => " "@ + key + "=\""@ + value + "\""@,
    }
}

/// What stands between the angle brackets of a tag.
pub open spec fn tag_text(prefix: char, tag: MarkTag) -> Seq<char> {
    prefixed(prefix, tag.local) + attribute_text(tag.attribute)
}

/// How a piece is written.
pub open spec fn mark_text(prefix: char, mark: Mark) -> Seq<char> {
    match mark {
        Mark::Declaration(content) => "<?"@ + content + "?>"@,
        Mark::Start(tag) => "<"@ + tag_text(prefix, tag) + ">"@,
        Mark::Empty(tag) => "<"@ + tag_text(prefix, tag) + "/>"@,
        Mark::End(local) => "</"@ + prefixed(prefix, local) + ">"@,
        Mark::Text(content) => content,
        Mark::Reference(name) => "&"@ + name + ";"@,
    }
}

/// How pieces are written.
pub open spec fn marks_text(prefix: char, marks: Seq<Mark>) -> Seq<char>
    decreases marks.len(),
{
    if marks.len() == 0 {
        Seq::empty()
    } else {
        marks_text(prefix, marks.drop_last()) + mark_text(prefix, marks.last())
    }
}

/// Letters and colons.
pub open spec fn is_plain_name(s: Seq<char>) -> bool {
    s.len() > 0 && forall|i: int|
        0 <= i < s.len() ==> ('a' <= #[trigger] s[i] <= 'z' || 'A' <= s[i] <= 'Z' || s[i] == ':')
}

/// Visible ASCII characters that mean nothing to XML.
pub open spec fn is_plain_value(s: Seq<char>) -> bool {
    s.len() > 0 && forall|i: int|
        0 <= i < s.len() ==> '!' <= #[trigger] s[i] <= '~' && s[i] != '"' && s[i] != '\'' && s[i]
            != '<' && s[i] != '>' && s[i] != '&'
}

/// The name of an attribute that binds a prefix.
pub open spec fn is_binding(key: Seq<char>) -> bool {
    "xmlns"@.is_prefix_of(key)
}

/// Where the writing of a document stands: the elements that are open, and
/// whether the last piece was text.
pub struct Nesting {
    pub open: Seq<Seq<char>>,
    pub in_text: bool,
}

pub open spec fn unopened() -> Nesting {
    Nesting { open: Seq::empty(), in_text: false }
}

/// The outermost element binds the prefix, and the others bind none.
pub open spec fn tag_fits(n: Nesting, tag: MarkTag, prefix: char, uri: Seq<char>) -> bool {
    &&& is_plain_name(tag.local)
    &&& n.open.len() < 16
    &&& if n.open.len() == 0 {
        tag.attribute == Some(("xmlns:"@ + seq![prefix], uri))
    } else {
        match tag.attribute {
            None => true,
            Some((key, value)) => is_plain_name(key) && !is_binding(key) && is_plain_value(value),
        }
    }
}

pub open spec fn lacks(s: Seq<char>, c: char) -> bool {
    forall|i: int| 0 <= i < s.len() ==> #[trigger] s[i] != c
}

/// Where the writing stands after one more piece, if the piece may stand there.
pub open spec fn nested(n: Nesting, mark: Mark, prefix: char, uri: Seq<char>) -> Option<Nesting> {
    match mark {
        Mark::Declaration(content) => if content.len() > 0 && lacks(content, '?') && lacks(
            content,
            '>',
        ) {
            Some(Nesting { in_text: false, ..n })
        } else {
            None
        },
        Mark::Start(tag) => if tag_fits(n, tag, prefix, uri) {
            Some(Nesting { open: n.open.push(tag.local), in_text: false })
        } else {
            None
        },
        Mark::Empty(tag) => if tag_fits(n, tag, prefix, uri) {
            Some(Nesting { in_text: false, ..n })
        } else {
            None
        },
        Mark::End(local) => if n.open.len() > 0 && n.open.last() == local {
            Some(Nesting { open: n.open.drop_last(), in_text: false })
        } else {
            None
        },
        Mark::Text(content) => if content.len() > 0 && !n.in_text && lacks(content, '<') && lacks(
            content,
            '&',
        ) {
            Some(Nesting { in_text: true, ..n })
        } else {
            None
        },
        Mark::Reference(name) => if lacks(name, ';') && lacks(name, '&') && lacks(name, '<') {
            Some(Nesting { in_text: false, ..n })
        } else {
            None
        },
    }
}

/// Where the writing stands after pieces, if they may stand there.
pub open spec fn nested_all(n: Nesting, marks: Seq<Mark>, prefix: char, uri: Seq<char>) -> Option<
    Nesting,
>
    decreases marks.len(),
{
    if marks.len() == 0 {
        Some(n)
    } else {
        match nested_all(n, marks.drop_last(), prefix, uri) {
            None => None,
            Some(n) => nested(n, marks.last(), prefix, uri),
        }
    }
}

/// A document with a declaration, whose elements have a prefix of one letter.
pub open spec fn is_document(prefix: char, uri: Seq<char>, marks: Seq<Mark>) -> bool {
    &&& 'a' <= prefix <= 'z'
    &&& is_plain_value(uri)
    &&& !"http://www.w3.org/"@.is_prefix_of(uri)
    &&& marks.len() > 0
    &&& marks[0] is Declaration
    &&& nested_all(unopened(), marks, prefix, uri) is Some
    &&& nested_all(unopened(), marks, prefix, uri)->0.open.len() == 0
}

/// The event that a piece is read as.
pub open spec fn is_event(raw: Option<RawPiece>, prefix: char, uri: Seq<char>, mark: Mark) -> bool {
    &&& raw is Some
    &&& match mark {
        Mark::Declaration(_) => raw->0.kind == XmlKind::Comment,
        Mark::Start(tag) => raw->0 == RawPiece {
            kind: XmlKind::Start,
            namespace: Some(uri),
            content: tag_text(prefix, tag),
        },
        Mark::Empty(tag) => raw->0 == RawPiece {
            kind: XmlKind::Empty,
            namespace: Some(uri),
            content: tag_text(prefix, tag),
        },
        Mark::End(local) => raw->0 == RawPiece {
            kind: XmlKind::End,
            namespace: Some(uri),
            content: prefixed(prefix, local),
        },
        Mark::Text(content) => raw->0 == RawPiece {
            kind: XmlKind::Text,
            namespace: None,
            content,
        },
        Mark::Reference(content) => raw->0 == RawPiece {
            kind: XmlKind::Reference,
            namespace: None,
            content,
        },
    }
}

/// The events are those of the pieces, and there are no others.
pub open spec fn are_events(
    events: Seq<Option<RawPiece>>,
    prefix: char,
    uri: Seq<char>,
    marks: Seq<Mark>,
) -> bool {
    &&& events.len() == marks.len() + 1
    &&& events.last() is Some && events.last()->0.kind == XmlKind::Eof
    &&& forall|i: int| 0 <= i < marks.len() ==> is_event(#[trigger] events[i], prefix, uri, marks[i])
}

/// The piece that a mark is read as.
pub open spec fn piece(uri: Seq<char>, mark: Mark) -> Piece {
    match mark {
        Mark::Declaration(_) => Piece::Comment,
        Mark::Start(tag) => Piece::Start(
            Tag {
                namespace: Some(uri),
                name: tag.local,
                attributes: attribute_text(tag.attribute),
            },
        ),
        Mark::Empty(tag) => Piece::Empty(
            Tag {
                namespace: Some(uri),
                name: tag.local,
                attributes: attribute_text(tag.attribute),
            },
        ),
        Mark::End(local) => Piece::End(
            Tag { namespace: Some(uri), name: local, attributes: Seq::empty() },
        ),
        Mark::Text(content) => Piece::Text(xml::with_line_feeds(content, 0)),
        Mark::Reference(name) => Piece::Reference(name),
    }
}

proof fn lemma_name_end(content: Seq<char>, i: int, end: int)
    requires
        0 <= i <= end <= content.len(),
        forall|k: int| i <= k < end ==> !xml::is_space(#[trigger] content[k]),
        end < content.len() ==> xml::is_space(content[end]),
    ensures
        xml::name_end(content, i) == end,
    decreases end - i,
{
    if i < end {
        lemma_name_end(content, i + 1, end);
    }
}

proof fn lemma_tag(prefix: char, local: Seq<char>, rest: Seq<char>, uri: Seq<char>)
    requires
        'a' <= prefix <= 'z',
        is_plain_name(local),
        rest.len() > 0 ==> rest[0] == ' ',
    ensures
        xml::tag_in(Some(uri), prefixed(prefix, local) + rest, true) == (Tag {
            namespace: Some(uri),
            name: local,
            attributes: rest,
        }),
{
    let name = prefixed(prefix, local);
    let content = name + rest;
    let end = name.len() as int;
    assert forall|k: int| 0 <= k < end implies !xml::is_space(#[trigger] content[k]) by {
        if k >= 2 {
            assert(content[k] == local[k - 2]);
        }
    }
    lemma_name_end(content, 0, end);
    assert(content.take(end) =~= name);
    assert(content.skip(end) =~= rest);
    text::lemma_index_of(name, ':', 0);
    assert(name[1] == ':' && name[0] == prefix);
    assert(text::index_of(name, ':', 0) == 1);
    assert(name.skip(2) =~= local);
}

/// The event of a piece is read as that piece.
pub proof fn lemma_event_is_piece(
    raw: Option<RawPiece>,
    prefix: char,
    uri: Seq<char>,
    n: Nesting,
    mark: Mark,
)
    requires
        'a' <= prefix <= 'z',
        is_event(raw, prefix, uri, mark),
        nested(n, mark, prefix, uri) is Some,
        forall|i: int| 0 <= i < n.open.len() ==> is_plain_name(#[trigger] n.open[i]),
    ensures
        xml::piece_of(raw->0, true) == piece(uri, mark),
{
    reveal_strlit(" ");
    match mark {
        Mark::Start(tag) => {
            lemma_tag(prefix, tag.local, attribute_text(tag.attribute), uri);
        },
        Mark::Empty(tag) => {
            lemma_tag(prefix, tag.local, attribute_text(tag.attribute), uri);
        },
        Mark::End(local) => {
            assert(is_plain_name(n.open[n.open.len() - 1]));
            lemma_tag(prefix, local, Seq::empty(), uri);
            assert(prefixed(prefix, local) + Seq::<char>::empty() =~= prefixed(prefix, local));
        },
        _ => {},
    }
}

/// Open elements have plain names.
pub proof fn lemma_open_names(n: Nesting, marks: Seq<Mark>, prefix: char, uri: Seq<char>)
    requires
        nested_all(n, marks, prefix, uri) is Some,
        forall|i: int| 0 <= i < n.open.len() ==> is_plain_name(#[trigger] n.open[i]),
    ensures
        forall|i: int|
            0 <= i < nested_all(n, marks, prefix, uri)->0.open.len() ==> is_plain_name(
                #[trigger] nested_all(n, marks, prefix, uri)->0.open[i],
            ),
    decreases marks.len(),
{
    if marks.len() > 0 {
        lemma_open_names(n, marks.drop_last(), prefix, uri);
        let before = nested_all(n, marks.drop_last(), prefix, uri)->0;
        let after = nested_all(n, marks, prefix, uri)->0;
        assert forall|i: int| 0 <= i < after.open.len() implies is_plain_name(
            #[trigger] after.open[i],
        ) by {
            if i < before.open.len() {
                assert(after.open[i] == before.open[i]);
            }
        }
    }
}

/// Pieces that may stand one behind the other may stand there in two steps.
pub proof fn lemma_nested_concat(
    n: Nesting,
    a: Seq<Mark>,
    b: Seq<Mark>,
    prefix: char,
    uri: Seq<char>,
)
    ensures
        nested_all(n, a + b, prefix, uri) == match nested_all(n, a, prefix, uri) {
            None => None,
            Some(n) => nested_all(n, b, prefix, uri),
        },
        marks_text(prefix, a + b) == marks_text(prefix, a) + marks_text(prefix, b),
    decreases b.len(),
{
    if b.len() == 0 {
        assert(a + b =~= a);
        assert(marks_text(prefix, b) =~= Seq::<char>::empty());
        assert(marks_text(prefix, a) + marks_text(prefix, b) =~= marks_text(prefix, a));
    } else {
        lemma_nested_concat(n, a, b.drop_last(), prefix, uri);
        assert((a + b).drop_last() =~= a + b.drop_last());
        assert((a + b).last() == b.last());
        assert(marks_text(prefix, a + b) =~= marks_text(prefix, a) + marks_text(prefix, b));
    }
}

/// What comes before may stand there if the whole may.
pub proof fn lemma_nested_prefix(
    n: Nesting,
    marks: Seq<Mark>,
    i: int,
    prefix: char,
    uri: Seq<char>,
)
    requires
        0 <= i < marks.len(),
        nested_all(n, marks, prefix, uri) is Some,
    ensures
        nested_all(n, marks.take(i), prefix, uri) is Some,
        nested(nested_all(n, marks.take(i), prefix, uri)->0, marks[i], prefix, uri) is Some,
{
    let a = marks.take(i);
    let b = seq![marks[i]];
    let c = marks.skip(i + 1);
    lemma_nested_concat(n, a + b, c, prefix, uri);
    lemma_nested_concat(n, a, b, prefix, uri);
    assert((a + b) + c =~= marks);
    assert(b.drop_last() =~= Seq::<Mark>::empty());
    let before = nested_all(n, a, prefix, uri)->0;
    assert(nested_all(before, b.drop_last(), prefix, uri) == Some(before));
}

/// The attributes of a tag that has just one.
pub open spec fn single(source: Seq<char>, key: Seq<char>, value: Seq<char>) -> bool {
    &&& source == attribute_text(Some((key, value)))
    &&& is_plain_name(key)
    &&& is_plain_value(value)
}

} // verus!
