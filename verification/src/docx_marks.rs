//! The pieces that a written document consists of, and what reading them gives.

use vstd::prelude::*;

use crate::docx;
use crate::docx::{Reading, Wrong};
use crate::pdf::content;
use crate::text;
use crate::xml;
use crate::xml_marks;
use crate::xml_marks::{Mark, MarkTag, Nesting};

verus! {

/// Characters that a reference stands for in XML text.
pub open spec fn is_reserved(c: char) -> bool {
    c == '&' || c == '<' || c == '>' || c == '"' || c == '\''
}

/// The name of the reference that stands for a character.
pub open spec fn reference_name(c: char) -> Seq<char> {
    if c == '&' {
        "amp"@
    } else if c == '<' {
        "lt"@
    } else if c == '>' {
        "gt"@
    } else if c == '"' {
        "quot"@
    } else {
        "apos"@
    }
}

/// Where the first reserved character from `i` on stands, or the end.
pub open spec fn run_end(s: Seq<char>, i: int) -> int
    decreases s.len() - i,
{
    if i < 0 || i >= s.len() {
        s.len() as int
    } else if is_reserved(s[i]) {
        i
    } else {
        run_end(s, i + 1)
    }
}

/// The pieces of a line from `i` on.
pub open spec fn line_marks(s: Seq<char>, i: int) -> Seq<Mark>
    decreases s.len() - i,
{
    if i < 0 || i >= s.len() {
        Seq::empty()
    } else if is_reserved(s[i]) {
        seq![Mark::Reference(reference_name(s[i]))] + line_marks(s, i + 1)
    } else {
        let end = run_end(s, i);
        if end <= i || end > s.len() {
            Seq::empty()
        } else {
            seq![Mark::Text(s.subrange(i, end))] + line_marks(s, end)
        }
    }
}

pub open spec fn bare(local: Seq<char>) -> MarkTag {
    MarkTag { local, attribute: None }
}

pub open spec fn text_tag() -> MarkTag {
    MarkTag { local: "t"@, attribute: Some(("xml:space"@, "preserve"@)) }
}

pub open spec fn break_tag() -> MarkTag {
    MarkTag { local: "br"@, attribute: Some(("w:type"@, "page"@)) }
}

pub open spec fn document_tag() -> MarkTag {
    MarkTag { local: "document"@, attribute: Some(("xmlns:w"@, docx::WORD_NAMESPACE@)) }
}

pub open spec fn paragraph_start() -> Seq<Mark> {
    seq![Mark::Start(bare("p"@)), Mark::Start(bare("r"@)), Mark::Start(text_tag())]
}

pub open spec fn paragraph_end() -> Seq<Mark> {
    seq![Mark::End("t"@), Mark::End("r"@), Mark::End("p"@)]
}

pub open spec fn paragraph_marks(line: Seq<char>) -> Seq<Mark> {
    paragraph_start() + line_marks(line, 0) + paragraph_end()
}

pub open spec fn paragraphs_marks(lines: Seq<Seq<char>>, n: int) -> Seq<Mark>
    decreases n,
{
    if n <= 0 {
        Seq::empty()
    } else {
        paragraphs_marks(lines, n - 1) + paragraph_marks(lines[n - 1])
    }
}

pub open spec fn page_marks(page: Seq<char>) -> Seq<Mark> {
    let lines = text::lines_from(page, 0);
    paragraphs_marks(lines, lines.len() as int) + if page.len() == 0 {
        seq![Mark::Empty(bare("p"@))]
    } else {
        Seq::empty()
    }
}

pub open spec fn break_marks() -> Seq<Mark> {
    seq![
        Mark::Start(bare("p"@)),
        Mark::Start(bare("r"@)),
        Mark::Empty(break_tag()),
        Mark::End("r"@),
        Mark::End("p"@),
    ]
}

pub open spec fn pages_marks(pages: Seq<Seq<char>>, n: int) -> Seq<Mark>
    decreases n,
{
    if n <= 0 {
        Seq::empty()
    } else {
        pages_marks(pages, n - 1) + page_marks(pages[n - 1]) + if n < pages.len() {
            break_marks()
        } else {
            Seq::empty()
        }
    }
}

pub open spec fn declaration() -> Seq<char> {
    "xml version=\"1.0\" encoding=\"UTF-8\" standalone=\"yes\""@
}

pub open spec fn document_start() -> Seq<Mark> {
    seq![
        Mark::Declaration(declaration()),
        Mark::Text("\n"@),
        Mark::Start(document_tag()),
        Mark::Text("\n"@),
        Mark::Start(bare("body"@)),
    ]
}

pub open spec fn document_end() -> Seq<Mark> {
    seq![Mark::End("body"@), Mark::End("document"@)]
}

/// The pieces of the main part of a document.
pub open spec fn document_marks(pages: Seq<Seq<char>>) -> Seq<Mark> {
    document_start() + pages_marks(pages, pages.len() as int) + document_end()
}

/// The line ends within a line are read as line feeds.
pub open spec fn shown(line: Seq<char>) -> Seq<char> {
    line.map_values(
        |c: char|
            if c == '\r' {
                '\n'
            } else {
                c
            },
    )
}

/// The text of the first `n` lines of a page, as it is read.
pub open spec fn read_lines(lines: Seq<Seq<char>>, n: int) -> Seq<char>
    decreases n,
{
    if n <= 0 {
        Seq::empty()
    } else {
        content::line_ended(read_lines(lines, n - 1) + shown(lines[n - 1]))
    }
}

/// What is read of a page that was written.
pub open spec fn kept(page: Seq<char>) -> Seq<char> {
    let lines = text::lines_from(page, 0);
    text::trimmed_end(read_lines(lines, lines.len() as int))
}

/// What is read of pages that were written.
pub open spec fn kept_pages(pages: Seq<Seq<char>>) -> Seq<Seq<char>> {
    Seq::new(
        if pages.len() == 0 {
            1
        } else {
            pages.len()
        },
        |i: int|
            if pages.len() == 0 {
                Seq::empty()
            } else {
                kept(pages[i])
            },
    )
}

/// Pages without any text are no document.
pub open spec fn read_back(pages: Seq<Seq<char>>) -> Result<Seq<Seq<char>>, Wrong> {
    if forall|i: int|
        0 <= i < kept_pages(pages).len() ==> text::trimmed(#[trigger] kept_pages(pages)[i]).len()
            == 0 {
        Err(Wrong::InvalidDocument)
    } else {
        Ok(kept_pages(pages))
    }
}

// Texts

proof fn lemma_two(prefix: char, a: Mark)
    ensures
        xml_marks::marks_text(prefix, seq![a]) == xml_marks::mark_text(prefix, a),
{
    assert(seq![a].drop_last() =~= Seq::<Mark>::empty());
    assert(xml_marks::marks_text(prefix, seq![a].drop_last()) =~= Seq::<char>::empty());
    assert(xml_marks::marks_text(prefix, seq![a]) =~= xml_marks::mark_text(prefix, a));
}

proof fn lemma_run_end(s: Seq<char>, i: int)
    requires
        0 <= i <= s.len(),
    ensures
        i <= run_end(s, i) <= s.len(),
        i < s.len() && !is_reserved(s[i]) ==> i < run_end(s, i),
        run_end(s, i) < s.len() ==> is_reserved(s[run_end(s, i)]),
        forall|k: int| i <= k < run_end(s, i) ==> !is_reserved(#[trigger] s[k]),
    decreases s.len() - i,
{
    if i < s.len() && !is_reserved(s[i]) {
        lemma_run_end(s, i + 1);
    }
}

proof fn lemma_escaped_concat(a: Seq<char>, b: Seq<char>, n: int)
    requires
        0 <= n <= b.len(),
    ensures
        docx::escaped(a + b, a.len() + n) == docx::escaped(a, a.len() as int) + docx::escaped(b, n),
    decreases n,
{
    if n == 0 {
        lemma_escaped_prefix(a, b, a.len() as int);
        assert(docx::escaped(b, 0) =~= Seq::<char>::empty());
        assert(docx::escaped(a, a.len() as int) + docx::escaped(b, 0) =~= docx::escaped(
            a,
            a.len() as int,
        ));
    } else {
        lemma_escaped_concat(a, b, n - 1);
        assert((a + b)[a.len() + n - 1] == b[n - 1]);
        assert(docx::escaped(a + b, a.len() + n) =~= docx::escaped(a, a.len() as int)
            + docx::escaped(b, n));
    }
}

proof fn lemma_escaped_prefix(a: Seq<char>, b: Seq<char>, n: int)
    requires
        0 <= n <= a.len(),
    ensures
        docx::escaped(a + b, n) == docx::escaped(a, n),
    decreases n,
{
    if n > 0 {
        lemma_escaped_prefix(a, b, n - 1);
        assert((a + b)[n - 1] == a[n - 1]);
    }
}

proof fn lemma_escaped_plain(s: Seq<char>, n: int)
    requires
        0 <= n <= s.len(),
        forall|k: int| 0 <= k < n ==> !is_reserved(#[trigger] s[k]),
    ensures
        docx::escaped(s, n) == s.take(n),
    decreases n,
{
    if n > 0 {
        lemma_escaped_plain(s, n - 1);
        assert(!is_reserved(s[n - 1]));
        assert(docx::escaped(s, n) =~= s.take(n));
    } else {
        assert(docx::escaped(s, n) =~= s.take(n));
    }
}

proof fn lemma_reference_text(c: char)
    requires
        is_reserved(c),
    ensures
        docx::escaped_char(c) == "&"@ + reference_name(c) + ";"@,
        xml_marks::lacks(reference_name(c), ';'),
        xml_marks::lacks(reference_name(c), '&'),
        xml_marks::lacks(reference_name(c), '<'),
{
    reveal_strlit("&amp;");
    reveal_strlit("&lt;");
    reveal_strlit("&gt;");
    reveal_strlit("&quot;");
    reveal_strlit("&apos;");
    reveal_strlit("amp");
    reveal_strlit("lt");
    reveal_strlit("gt");
    reveal_strlit("quot");
    reveal_strlit("apos");
    reveal_strlit("&");
    reveal_strlit(";");
    assert(docx::escaped_char(c) =~= "&"@ + reference_name(c) + ";"@);
}

proof fn lemma_referred(c: char)
    requires
        is_reserved(c),
    ensures
        xml::referred(reference_name(c)) == Some(seq![c]),
{
    reveal_strlit("amp");
    reveal_strlit("lt");
    reveal_strlit("gt");
    reveal_strlit("quot");
    reveal_strlit("apos");
    reveal_strlit("&");
    reveal_strlit("<");
    reveal_strlit(">");
    reveal_strlit("\"");
    reveal_strlit("'");
    assert("lt"@[0] != "gt"@[0] && "apos"@[1] != "quot"@[1]);
    assert("lt"@.len() == 2 && "gt"@.len() == 2 && "amp"@.len() == 3 && "quot"@.len() == 4
        && "apos"@.len() == 4);
    let name = reference_name(c);
    assert(name[0] != '#');
    assert("&"@ =~= seq!['&']);
    assert("<"@ =~= seq!['<']);
    assert(">"@ =~= seq!['>']);
    assert("\""@ =~= seq!['"']);
    assert("'"@ =~= seq!['\'']);
}

proof fn lemma_line_text(s: Seq<char>, i: int)
    requires
        0 <= i <= s.len(),
    ensures
        xml_marks::marks_text('w', line_marks(s, i)) == docx::escaped(s.skip(i), s.len() - i),
    decreases s.len() - i,
{
    let rest = s.skip(i);
    if i == s.len() {
        assert(docx::escaped(rest, 0) =~= Seq::<char>::empty());
    } else if is_reserved(s[i]) {
        let mark = Mark::Reference(reference_name(s[i]));
        lemma_line_text(s, i + 1);
        xml_marks::lemma_nested_concat(
            xml_marks::unopened(),
            seq![mark],
            line_marks(s, i + 1),
            'w',
            Seq::empty(),
        );
        lemma_two('w', mark);
        lemma_reference_text(s[i]);
        lemma_escaped_concat(seq![s[i]], s.skip(i + 1), s.len() - i - 1);
        assert(seq![s[i]] + s.skip(i + 1) =~= rest);
        assert(docx::escaped(seq![s[i]], 0) =~= Seq::<char>::empty());
        assert(docx::escaped(seq![s[i]], 1) =~= docx::escaped_char(s[i]));
    } else {
        lemma_run_end(s, i);
        let end = run_end(s, i);
        let run = s.subrange(i, end);
        let mark = Mark::Text(run);
        lemma_line_text(s, end);
        xml_marks::lemma_nested_concat(
            xml_marks::unopened(),
            seq![mark],
            line_marks(s, end),
            'w',
            Seq::empty(),
        );
        lemma_two('w', mark);
        assert forall|k: int| 0 <= k < run.len() implies !is_reserved(#[trigger] run[k]) by {
            assert(run[k] == s[i + k]);
        }
        lemma_escaped_plain(run, run.len() as int);
        assert(run.take(run.len() as int) =~= run);
        lemma_escaped_concat(run, s.skip(end), s.len() - end);
        assert(run + s.skip(end) =~= rest);
    }
}

// Nesting

/// The elements that are open within the body.
pub open spec fn body_open() -> Seq<Seq<char>> {
    seq!["document"@, "body"@]
}

proof fn lemma_one_more(n: Nesting, a: Mark, uri: Seq<char>)
    ensures
        xml_marks::nested_all(n, seq![a], 'w', uri) == xml_marks::nested(n, a, 'w', uri),
{
    assert(seq![a].drop_last() =~= Seq::<Mark>::empty());
    assert(xml_marks::nested_all(n, seq![a].drop_last(), 'w', uri) == Some(n));
}

proof fn lemma_line_nested(n: Nesting, s: Seq<char>, i: int, uri: Seq<char>)
    requires
        0 <= i <= s.len(),
        n.in_text ==> i == s.len() || is_reserved(s[i]),
    ensures
        xml_marks::nested_all(n, line_marks(s, i), 'w', uri) is Some,
        xml_marks::nested_all(n, line_marks(s, i), 'w', uri)->0.open == n.open,
    decreases s.len() - i,
{
    if i == s.len() {
    } else if is_reserved(s[i]) {
        let mark = Mark::Reference(reference_name(s[i]));
        lemma_reference_text(s[i]);
        lemma_one_more(n, mark, uri);
        let next = xml_marks::nested(n, mark, 'w', uri)->0;
        lemma_line_nested(next, s, i + 1, uri);
        xml_marks::lemma_nested_concat(n, seq![mark], line_marks(s, i + 1), 'w', uri);
    } else {
        lemma_run_end(s, i);
        let end = run_end(s, i);
        let run = s.subrange(i, end);
        let mark = Mark::Text(run);
        assert forall|k: int| 0 <= k < run.len() implies #[trigger] run[k] != '<' by {
            assert(!is_reserved(s[i + k]));
        }
        assert forall|k: int| 0 <= k < run.len() implies #[trigger] run[k] != '&' by {
            assert(!is_reserved(s[i + k]));
        }
        lemma_one_more(n, mark, uri);
        let next = xml_marks::nested(n, mark, 'w', uri)->0;
        lemma_line_nested(next, s, end, uri);
        xml_marks::lemma_nested_concat(n, seq![mark], line_marks(s, end), 'w', uri);
    }
}

/// The tags of a document are written in plain characters.
proof fn lemma_plain_tags()
    ensures
        xml_marks::is_plain_name("p"@),
        xml_marks::is_plain_name("r"@),
        xml_marks::is_plain_name("t"@),
        xml_marks::is_plain_name("br"@),
        xml_marks::is_plain_name("body"@),
        xml_marks::is_plain_name("document"@),
        xml_marks::is_plain_name("xml:space"@),
        xml_marks::is_plain_name("w:type"@),
        xml_marks::is_plain_value("preserve"@),
        xml_marks::is_plain_value("page"@),
        !xml_marks::is_binding("xml:space"@),
        !xml_marks::is_binding("w:type"@),
        "xmlns:w"@ == "xmlns:"@ + seq!['w'],
{
    reveal_strlit("p");
    reveal_strlit("r");
    reveal_strlit("t");
    reveal_strlit("br");
    reveal_strlit("body");
    reveal_strlit("document");
    reveal_strlit("xml:space");
    reveal_strlit("w:type");
    reveal_strlit("preserve");
    reveal_strlit("page");
    reveal_strlit("xmlns");
    reveal_strlit("xmlns:w");
    reveal_strlit("xmlns:");
    assert("xmlns:w"@ =~= "xmlns:"@ + seq!['w']);
    assert("xmlns"@[3] != "xml:space"@[3]);
    assert("xmlns"@[0] != "w:type"@[0]);
    assert("xml:space"@.subrange(0, 5)[3] == "xml:space"@[3]);
    assert("w:type"@.subrange(0, 5)[0] == "w:type"@[0]);
}

/// Pieces that leave the same elements open.
pub open spec fn is_balanced(marks: Seq<Mark>, uri: Seq<char>) -> bool {
    xml_marks::nested_all(
        (Nesting { open: body_open(), in_text: false }),
        marks,
        'w',
        uri,
    ) == Some(Nesting { open: body_open(), in_text: false })
}

proof fn lemma_balanced_concat(a: Seq<Mark>, b: Seq<Mark>, uri: Seq<char>)
    requires
        is_balanced(a, uri),
        is_balanced(b, uri),
    ensures
        is_balanced(a + b, uri),
{
    xml_marks::lemma_nested_concat(
        (Nesting { open: body_open(), in_text: false }),
        a,
        b,
        'w',
        uri,
    );
}

proof fn lemma_paragraph_nested(line: Seq<char>, uri: Seq<char>)
    ensures
        is_balanced(paragraph_marks(line), uri),
{
    lemma_plain_tags();
    let n0 = Nesting { open: body_open(), in_text: false };
    let n1 = Nesting { open: n0.open.push("p"@), in_text: false };
    let n2 = Nesting { open: n1.open.push("r"@), in_text: false };
    let n3 = Nesting { open: n2.open.push("t"@), in_text: false };
    let start = paragraph_start();
    let end = paragraph_end();
    reveal_with_fuel(xml_marks::nested_all, 4);
    assert(start.drop_last().drop_last().drop_last() =~= Seq::<Mark>::empty());
    assert(start.drop_last().drop_last().last() == Mark::Start(bare("p"@)));
    assert(start.drop_last().last() == Mark::Start(bare("r"@)));
    assert(xml_marks::nested_all(n0, start.drop_last().drop_last(), 'w', uri) == Some(n1));
    assert(xml_marks::nested_all(n0, start.drop_last(), 'w', uri) == Some(n2));
    assert(xml_marks::nested_all(n0, start, 'w', uri) == Some(n3));
    lemma_line_nested(n3, line, 0, uri);
    let m3 = xml_marks::nested_all(n3, line_marks(line, 0), 'w', uri)->0;
    assert(n3.open.drop_last() =~= n2.open);
    assert(n2.open.drop_last() =~= n1.open);
    assert(n1.open.drop_last() =~= n0.open);
    assert(end.drop_last().drop_last().drop_last() =~= Seq::<Mark>::empty());
    assert(end.drop_last().drop_last().last() == Mark::End("t"@));
    assert(end.drop_last().last() == Mark::End("r"@));
    assert(xml_marks::nested_all(m3, end.drop_last().drop_last(), 'w', uri) == Some(n2));
    assert(xml_marks::nested_all(m3, end.drop_last(), 'w', uri) == Some(n1));
    assert(xml_marks::nested_all(m3, end, 'w', uri) == Some(n0));
    xml_marks::lemma_nested_concat(n0, start, line_marks(line, 0), 'w', uri);
    xml_marks::lemma_nested_concat(n0, start + line_marks(line, 0), end, 'w', uri);
}

proof fn lemma_break_nested(uri: Seq<char>)
    ensures
        is_balanced(break_marks(), uri),
        is_balanced(seq![Mark::Empty(bare("p"@))], uri),
        is_balanced(Seq::empty(), uri),
{
    lemma_plain_tags();
    let n0 = Nesting { open: body_open(), in_text: false };
    let n1 = Nesting { open: n0.open.push("p"@), in_text: false };
    let n2 = Nesting { open: n1.open.push("r"@), in_text: false };
    assert(n2.open.drop_last() =~= n1.open);
    assert(n1.open.drop_last() =~= n0.open);
    lemma_one_more(n0, Mark::Empty(bare("p"@)), uri);
    let m = break_marks();
    let m4 = m.drop_last();
    let m3 = m4.drop_last();
    let m2 = m3.drop_last();
    let m1 = m2.drop_last();
    assert(m1 =~= seq![Mark::Start(bare("p"@))]);
    lemma_one_more(n0, Mark::Start(bare("p"@)), uri);
    assert(xml_marks::nested_all(n0, m1, 'w', uri) == Some(n1));
    assert(m2.last() == Mark::Start(bare("r"@)));
    assert(xml_marks::nested_all(n0, m2, 'w', uri) == Some(n2));
    assert(m3.last() == Mark::Empty(break_tag()));
    assert(xml_marks::nested_all(n0, m3, 'w', uri) == Some(n2));
    assert(m4.last() == Mark::End("r"@));
    assert(xml_marks::nested_all(n0, m4, 'w', uri) == Some(n1));
    assert(m.last() == Mark::End("p"@));
    assert(xml_marks::nested_all(n0, m, 'w', uri) == Some(n0));
}

proof fn lemma_paragraphs_nested(lines: Seq<Seq<char>>, n: int, uri: Seq<char>)
    ensures
        is_balanced(paragraphs_marks(lines, n), uri),
    decreases n,
{
    lemma_break_nested(uri);
    if n > 0 {
        lemma_paragraphs_nested(lines, n - 1, uri);
        lemma_paragraph_nested(lines[n - 1], uri);
        lemma_balanced_concat(paragraphs_marks(lines, n - 1), paragraph_marks(lines[n - 1]), uri);
    }
}

proof fn lemma_pages_nested(pages: Seq<Seq<char>>, n: int, uri: Seq<char>)
    ensures
        is_balanced(pages_marks(pages, n), uri),
    decreases n,
{
    lemma_break_nested(uri);
    if n > 0 {
        lemma_pages_nested(pages, n - 1, uri);
        let page = pages[n - 1];
        let lines = text::lines_from(page, 0);
        lemma_paragraphs_nested(lines, lines.len() as int, uri);
        lemma_balanced_concat(
            paragraphs_marks(lines, lines.len() as int),
            if page.len() == 0 {
                seq![Mark::Empty(bare("p"@))]
            } else {
                Seq::empty()
            },
            uri,
        );
        lemma_balanced_concat(pages_marks(pages, n - 1), page_marks(page), uri);
        lemma_balanced_concat(
            pages_marks(pages, n - 1) + page_marks(page),
            if n < pages.len() {
                break_marks()
            } else {
                Seq::empty()
            },
            uri,
        );
    }
}

proof fn lemma_header()
    ensures
        xml_marks::is_plain_value(docx::WORD_NAMESPACE@),
        !"http://www.w3.org/"@.is_prefix_of(docx::WORD_NAMESPACE@),
        xml_marks::lacks(declaration(), '?'),
        xml_marks::lacks(declaration(), '>'),
        declaration().len() > 0,
        "\n"@ == seq!['\n'],
{
    reveal_strlit("http://schemas.openxmlformats.org/wordprocessingml/2006/main");
    reveal_strlit("http://www.w3.org/");
    reveal_strlit("xml version=\"1.0\" encoding=\"UTF-8\" standalone=\"yes\"");
    reveal_strlit("\n");
    assert("\n"@ =~= seq!['\n']);
    assert(docx::WORD_NAMESPACE@.subrange(0, 18)[7] == docx::WORD_NAMESPACE@[7]);
}

/// The pieces of a document may stand as they do.
pub proof fn lemma_is_document(pages: Seq<Seq<char>>)
    ensures
        xml_marks::is_document('w', docx::WORD_NAMESPACE@, document_marks(pages)),
{
    let uri = docx::WORD_NAMESPACE@;
    lemma_plain_tags();
    lemma_header();
    let start = document_start();
    let body = pages_marks(pages, pages.len() as int);
    let end = document_end();
    let n0 = xml_marks::unopened();
    let n1 = Nesting { open: seq!["document"@], in_text: false };
    let n2 = Nesting { open: body_open(), in_text: false };
    let m4 = start.drop_last();
    let m3 = m4.drop_last();
    let m2 = m3.drop_last();
    let m1 = m2.drop_last();
    assert(m1 =~= seq![Mark::Declaration(declaration())]);
    lemma_one_more(n0, Mark::Declaration(declaration()), uri);
    assert(xml_marks::nested_all(n0, m1, 'w', uri) == Some(n0));
    assert(m2.last() == Mark::Text("\n"@));
    assert(xml_marks::nested_all(n0, m2, 'w', uri) == Some(Nesting { in_text: true, ..n0 }));
    assert(m3.last() == Mark::Start(document_tag()));
    assert(n0.open.push("document"@) =~= n1.open);
    assert(xml_marks::nested_all(n0, m3, 'w', uri) == Some(n1));
    assert(m4.last() == Mark::Text("\n"@));
    assert(xml_marks::nested_all(n0, m4, 'w', uri) == Some(Nesting { in_text: true, ..n1 }));
    assert(start.last() == Mark::Start(bare("body"@)));
    assert(n1.open.push("body"@) =~= n2.open);
    assert(xml_marks::nested_all(n0, start, 'w', uri) == Some(n2));
    lemma_pages_nested(pages, pages.len() as int, uri);
    xml_marks::lemma_nested_concat(n0, start, body, 'w', uri);
    xml_marks::lemma_nested_concat(n0, start + body, end, 'w', uri);
    assert(end.drop_last() =~= seq![Mark::End("body"@)]);
    lemma_one_more(n2, Mark::End("body"@), uri);
    assert(n2.open.drop_last() =~= n1.open);
    assert(xml_marks::nested_all(n2, end.drop_last(), 'w', uri) == Some(n1));
    assert(end.last() == Mark::End("document"@));
    assert(document_marks(pages)[0] == Mark::Declaration(declaration()));
}

proof fn lemma_text_of_start()
    ensures
        xml_marks::marks_text('w', paragraph_start())
            == "<w:p><w:r><w:t xml:space=\"preserve\">"@,
{
    reveal_strlit("<w:p><w:r><w:t xml:space=\"preserve\">");
    reveal_strlit("<");
    reveal_strlit(">");
    reveal_strlit(" ");
    reveal_strlit("=\"");
    reveal_strlit("\"");
    reveal_strlit("p");
    reveal_strlit("r");
    reveal_strlit("t");
    reveal_strlit("xml:space");
    reveal_strlit("preserve");
    reveal_with_fuel(xml_marks::marks_text, 4);
    let m = paragraph_start();
    assert(m.drop_last().drop_last().drop_last() =~= Seq::<Mark>::empty());
    assert(m.drop_last().drop_last().last() == Mark::Start(bare("p"@)));
    assert(m.drop_last().last() == Mark::Start(bare("r"@)));
    assert(xml_marks::marks_text('w', m) =~= "<w:p><w:r><w:t xml:space=\"preserve\">"@);
}

proof fn lemma_text_of_end()
    ensures
        xml_marks::marks_text('w', paragraph_end()) == "</w:t></w:r></w:p>"@,
        xml_marks::marks_text('w', document_end()) == "</w:body></w:document>"@,
        xml_marks::marks_text('w', seq![Mark::Empty(bare("p"@))]) == "<w:p/>"@,
{
    reveal_strlit("</w:t></w:r></w:p>");
    reveal_strlit("</w:body></w:document>");
    reveal_strlit("<w:p/>");
    reveal_strlit("<");
    reveal_strlit("</");
    reveal_strlit(">");
    reveal_strlit("/>");
    reveal_strlit("p");
    reveal_strlit("r");
    reveal_strlit("t");
    reveal_strlit("body");
    reveal_strlit("document");
    reveal_with_fuel(xml_marks::marks_text, 4);
    let m = paragraph_end();
    assert(m.drop_last().drop_last().drop_last() =~= Seq::<Mark>::empty());
    assert(m.drop_last().drop_last().last() == Mark::End("t"@));
    assert(m.drop_last().last() == Mark::End("r"@));
    assert(xml_marks::marks_text('w', m) =~= "</w:t></w:r></w:p>"@);
    let m = document_end();
    assert(m.drop_last().drop_last() =~= Seq::<Mark>::empty());
    assert(m.drop_last().last() == Mark::End("body"@));
    assert(xml_marks::marks_text('w', m) =~= "</w:body></w:document>"@);
    lemma_two('w', Mark::Empty(bare("p"@)));
    assert(xml_marks::mark_text('w', Mark::Empty(bare("p"@))) =~= "<w:p/>"@);
}

proof fn lemma_text_of_break()
    ensures
        xml_marks::marks_text('w', break_marks())
            == "<w:p><w:r><w:br w:type=\"page\"/></w:r></w:p>"@,
{
    reveal_strlit("<w:p><w:r><w:br w:type=\"page\"/></w:r></w:p>");
    reveal_strlit("<");
    reveal_strlit("</");
    reveal_strlit(">");
    reveal_strlit("/>");
    reveal_strlit(" ");
    reveal_strlit("=\"");
    reveal_strlit("\"");
    reveal_strlit("p");
    reveal_strlit("r");
    reveal_strlit("br");
    reveal_strlit("w:type");
    reveal_strlit("page");
    reveal_with_fuel(xml_marks::marks_text, 6);
    let m = break_marks();
    let m4 = m.drop_last();
    let m3 = m4.drop_last();
    let m2 = m3.drop_last();
    let m1 = m2.drop_last();
    assert(m1.drop_last() =~= Seq::<Mark>::empty());
    assert(m1.last() == Mark::Start(bare("p"@)));
    assert(m2.last() == Mark::Start(bare("r"@)));
    assert(m3.last() == Mark::Empty(break_tag()));
    assert(m4.last() == Mark::End("r"@));
    assert(xml_marks::marks_text('w', m) =~= "<w:p><w:r><w:br w:type=\"page\"/></w:r></w:p>"@);
}

proof fn lemma_text_of_document_start()
    ensures
        xml_marks::marks_text('w', document_start()) == docx::DOCUMENT_START@,
{
    reveal_strlit(
        "<?xml version=\"1.0\" encoding=\"UTF-8\" standalone=\"yes\"?>\n<w:document xmlns:w=\"http://schemas.openxmlformats.org/wordprocessingml/2006/main\">\n<w:body>",
    );
    reveal_strlit("http://schemas.openxmlformats.org/wordprocessingml/2006/main");
    reveal_strlit("xml version=\"1.0\" encoding=\"UTF-8\" standalone=\"yes\"");
    reveal_strlit("\n");
    reveal_strlit("<");
    reveal_strlit("<?");
    reveal_strlit("?>");
    reveal_strlit(">");
    reveal_strlit(" ");
    reveal_strlit("=\"");
    reveal_strlit("\"");
    reveal_strlit("document");
    reveal_strlit("xmlns:w");
    reveal_strlit("body");
    reveal_with_fuel(xml_marks::marks_text, 6);
    let m = document_start();
    let m4 = m.drop_last();
    let m3 = m4.drop_last();
    let m2 = m3.drop_last();
    let m1 = m2.drop_last();
    assert(m1.drop_last() =~= Seq::<Mark>::empty());
    assert(m1.last() == Mark::Declaration(declaration()));
    assert(m2.last() == Mark::Text("\n"@));
    assert(m3.last() == Mark::Start(document_tag()));
    assert(m4.last() == Mark::Text("\n"@));
    assert(xml_marks::marks_text('w', m) =~= docx::DOCUMENT_START@);
}

proof fn lemma_concat_text(a: Seq<Mark>, b: Seq<Mark>)
    ensures
        xml_marks::marks_text('w', a + b) == xml_marks::marks_text('w', a) + xml_marks::marks_text(
            'w',
            b,
        ),
{
    xml_marks::lemma_nested_concat(xml_marks::unopened(), a, b, 'w', Seq::empty());
}

proof fn lemma_paragraphs_text(lines: Seq<Seq<char>>, n: int)
    ensures
        xml_marks::marks_text('w', paragraphs_marks(lines, n)) == docx::paragraphs(lines, n),
    decreases n,
{
    if n > 0 {
        let line = lines[n - 1];
        lemma_paragraphs_text(lines, n - 1);
        lemma_text_of_start();
        lemma_text_of_end();
        lemma_line_text(line, 0);
        assert(line.skip(0) =~= line);
        lemma_concat_text(paragraph_start(), line_marks(line, 0));
        lemma_concat_text(paragraph_start() + line_marks(line, 0), paragraph_end());
        lemma_concat_text(paragraphs_marks(lines, n - 1), paragraph_marks(line));
    }
}

proof fn lemma_pages_text(pages: Seq<Seq<char>>, n: int)
    ensures
        xml_marks::marks_text('w', pages_marks(pages, n)) == docx::pages_xml(pages, n),
    decreases n,
{
    if n > 0 {
        let page = pages[n - 1];
        let lines = text::lines_from(page, 0);
        lemma_pages_text(pages, n - 1);
        lemma_paragraphs_text(lines, lines.len() as int);
        lemma_text_of_end();
        lemma_text_of_break();
        let rest: Seq<Mark> = if page.len() == 0 {
            seq![Mark::Empty(bare("p"@))]
        } else {
            Seq::empty()
        };
        let gap: Seq<Mark> = if n < pages.len() {
            break_marks()
        } else {
            Seq::empty()
        };
        assert(xml_marks::marks_text('w', Seq::<Mark>::empty()) =~= Seq::<char>::empty());
        lemma_concat_text(paragraphs_marks(lines, lines.len() as int), rest);
        lemma_concat_text(pages_marks(pages, n - 1), page_marks(page));
        lemma_concat_text(pages_marks(pages, n - 1) + page_marks(page), gap);
    }
}

/// A document is written in these pieces.
pub proof fn lemma_document_text(pages: Seq<Seq<char>>)
    ensures
        xml_marks::marks_text('w', document_marks(pages)) == docx::document_text(pages),
{
    let n = pages.len() as int;
    lemma_text_of_document_start();
    lemma_text_of_end();
    lemma_pages_text(pages, n);
    lemma_concat_text(document_start(), pages_marks(pages, n));
    lemma_concat_text(document_start() + pages_marks(pages, n), document_end());
}

// Reading

/// A piece that the reading of a document understands.
pub open spec fn is_known(reading: Reading, mark: Mark) -> bool {
    match mark {
        Mark::Declaration(_) => true,
        Mark::Start(tag) => tag.local == "document"@ || tag.local == "body"@ || tag.local == "p"@
            || tag.local == "r"@ || tag.local == "t"@,
        Mark::Empty(tag) => tag == bare("p"@) || (tag == break_tag() && reading.in_body),
        Mark::End(local) => local == "document"@ || local == "body"@ || local == "p"@ || local
            == "r"@ || local == "t"@,
        Mark::Text(_) => true,
        Mark::Reference(name) => xml::referred(name) is Some,
    }
}

/// What a piece does to the reading.
pub open spec fn effect(reading: Reading, mark: Mark) -> Reading {
    match mark {
        Mark::Declaration(_) => reading,
        Mark::Start(tag) => if tag.local == "body"@ {
            Reading { saw_body: true, in_body: true, ..reading }
        } else if tag.local == "t"@ && reading.in_body {
            Reading { in_text: true, ..reading }
        } else {
            reading
        },
        Mark::Empty(tag) => if tag == break_tag() {
            reading.page_ended(true)
        } else {
            reading
        },
        Mark::End(local) => if local == "t"@ {
            Reading { in_text: false, ..reading }
        } else if local == "body"@ {
            Reading { in_body: false, ..reading }
        } else if local == "p"@ && reading.in_body {
            reading.with_page(content::line_ended(reading.page()))
        } else {
            reading
        },
        Mark::Text(s) => if reading.in_text {
            reading.with_page(reading.page() + xml::with_line_feeds(s, 0))
        } else {
            reading
        },
        Mark::Reference(name) => if reading.in_text {
            reading.with_page(reading.page() + xml::referred(name)->0)
        } else {
            reading
        },
    }
}

proof fn lemma_names_differ()
    ensures
        "document"@.len() == 8,
        "body"@.len() == 4,
        "p"@.len() == 1 && "p"@[0] == 'p',
        "r"@.len() == 1 && "r"@[0] == 'r',
        "t"@.len() == 1 && "t"@[0] == 't',
        "br"@.len() == 2 && "br"@[0] == 'b',
        "cr"@.len() == 2 && "cr"@[0] == 'c',
        "tc"@.len() == 2 && "tr"@.len() == 2,
        "tab"@.len() == 3,
        "pageBreakBefore"@.len() == 15,
        "drawing"@.len() == 7,
        "pict"@.len() == 4 && "pict"@[0] == 'p' && "body"@[0] == 'b',
        "object"@.len() == 6,
        "headerReference"@.len() == 15,
        "footerReference"@.len() == 15,
        "footnoteReference"@.len() == 17,
        "endnoteReference"@.len() == 16,
{
    reveal_strlit("document");
    reveal_strlit("body");
    reveal_strlit("p");
    reveal_strlit("r");
    reveal_strlit("t");
    reveal_strlit("br");
    reveal_strlit("cr");
    reveal_strlit("tc");
    reveal_strlit("tr");
    reveal_strlit("tab");
    reveal_strlit("pageBreakBefore");
    reveal_strlit("drawing");
    reveal_strlit("pict");
    reveal_strlit("object");
    reveal_strlit("headerReference");
    reveal_strlit("footerReference");
    reveal_strlit("footnoteReference");
    reveal_strlit("endnoteReference");
}

/// A piece has the effect that reading it has.
pub proof fn lemma_effect(reading: Reading, mark: Mark)
    requires
        is_known(reading, mark),
    ensures
        ({
            let piece = xml_marks::piece(docx::WORD_NAMESPACE@, mark);
            if mark == Mark::Empty(break_tag()) {
                piece is Empty && docx::is_page_break(piece->Empty_0)
            } else {
                &&& reading.after(piece) == Ok::<Reading, Wrong>(effect(reading, mark))
                &&& !(piece is Empty && docx::is_page_break(piece->Empty_0))
            }
        }),
{
    lemma_names_differ();
}

/// What pieces do to the reading, if it understands them all.
pub open spec fn effects(reading: Reading, marks: Seq<Mark>) -> Option<Reading>
    decreases marks.len(),
{
    if marks.len() == 0 {
        Some(reading)
    } else {
        match effects(reading, marks.drop_last()) {
            None => None,
            Some(reading) => if is_known(reading, marks.last()) {
                Some(effect(reading, marks.last()))
            } else {
                None
            },
        }
    }
}

proof fn lemma_effects_concat(reading: Reading, a: Seq<Mark>, b: Seq<Mark>)
    ensures
        effects(reading, a + b) == match effects(reading, a) {
            None => None,
            Some(reading) => effects(reading, b),
        },
    decreases b.len(),
{
    if b.len() == 0 {
        assert(a + b =~= a);
    } else {
        lemma_effects_concat(reading, a, b.drop_last());
        assert((a + b).drop_last() =~= a + b.drop_last());
        assert((a + b).last() == b.last());
    }
}

/// What comes first is understood if the whole is.
pub proof fn lemma_effects_prefix(reading: Reading, marks: Seq<Mark>, i: int)
    requires
        0 <= i < marks.len(),
        effects(reading, marks) is Some,
    ensures
        effects(reading, marks.take(i)) is Some,
        is_known(effects(reading, marks.take(i))->0, marks[i]),
        effects(reading, marks.take(i + 1)) == Some(
            effect(effects(reading, marks.take(i))->0, marks[i]),
        ),
{
    let a = marks.take(i);
    let b = marks.take(i + 1);
    lemma_effects_concat(reading, b, marks.skip(i + 1));
    assert(b + marks.skip(i + 1) =~= marks);
    assert(b.drop_last() =~= a);
    assert(b.last() == marks[i]);
}

proof fn lemma_one_effect(reading: Reading, mark: Mark)
    requires
        is_known(reading, mark),
    ensures
        effects(reading, seq![mark]) == Some(effect(reading, mark)),
{
    assert(seq![mark].drop_last() =~= Seq::<Mark>::empty());
    assert(effects(reading, seq![mark].drop_last()) == Some(reading));
}

proof fn lemma_with_line_feeds(s: Seq<char>, i: int)
    requires
        0 <= i <= s.len(),
        forall|k: int| 0 <= k < s.len() ==> #[trigger] s[k] != '\n',
    ensures
        xml::with_line_feeds(s, i) == shown(s).skip(i),
    decreases s.len() - i,
{
    if i < s.len() {
        lemma_with_line_feeds(s, i + 1);
        assert(xml::with_line_feeds(s, i) =~= shown(s).skip(i));
    } else {
        assert(xml::with_line_feeds(s, i) =~= shown(s).skip(i));
    }
}

/// The reading stands in the body, behind `done` and in `page`.
pub open spec fn within(done: Seq<Seq<char>>, page: Seq<char>, in_text: bool) -> Reading {
    Reading { pages: done.push(page), saw_body: true, in_body: true, in_text }
}

proof fn lemma_within(done: Seq<Seq<char>>, page: Seq<char>, in_text: bool)
    ensures
        within(done, page, in_text).page() == page,
        forall|next: Seq<char>|
            #![trigger within(done, page, in_text).with_page(next)]
            within(done, page, in_text).with_page(next) == within(done, next, in_text),
{
    assert(done.push(page).drop_last() =~= done);
}

proof fn lemma_line_effects(done: Seq<Seq<char>>, page: Seq<char>, s: Seq<char>, i: int)
    requires
        0 <= i <= s.len(),
        forall|k: int| 0 <= k < s.len() ==> #[trigger] s[k] != '\n',
    ensures
        effects(within(done, page, true), line_marks(s, i)) == Some(
            within(done, page + shown(s).skip(i), true),
        ),
    decreases s.len() - i,
{
    lemma_within(done, page, true);
    if i == s.len() {
        assert(page + shown(s).skip(i) =~= page);
    } else if is_reserved(s[i]) {
        let mark = Mark::Reference(reference_name(s[i]));
        lemma_referred(s[i]);
        lemma_one_effect(within(done, page, true), mark);
        let next = page + seq![s[i]];
        assert(effect(within(done, page, true), mark) == within(done, next, true));
        lemma_line_effects(done, next, s, i + 1);
        lemma_effects_concat(within(done, page, true), seq![mark], line_marks(s, i + 1));
        assert(next + shown(s).skip(i + 1) =~= page + shown(s).skip(i));
    } else {
        lemma_run_end(s, i);
        let end = run_end(s, i);
        let run = s.subrange(i, end);
        let mark = Mark::Text(run);
        assert forall|k: int| 0 <= k < run.len() implies #[trigger] run[k] != '\n' by {
            assert(run[k] == s[i + k]);
        }
        lemma_with_line_feeds(run, 0);
        assert(shown(run).skip(0) =~= shown(run));
        lemma_one_effect(within(done, page, true), mark);
        let next = page + shown(run);
        assert(effect(within(done, page, true), mark) == within(done, next, true));
        lemma_line_effects(done, next, s, end);
        lemma_effects_concat(within(done, page, true), seq![mark], line_marks(s, end));
        assert(next + shown(s).skip(end) =~= page + shown(s).skip(i));
    }
}

proof fn lemma_paragraph_effects(done: Seq<Seq<char>>, page: Seq<char>, line: Seq<char>)
    requires
        forall|k: int| 0 <= k < line.len() ==> #[trigger] line[k] != '\n',
    ensures
        effects(within(done, page, false), paragraph_marks(line)) == Some(
            within(done, content::line_ended(page + shown(line)), false),
        ),
{
    lemma_names_differ();
    let r0 = within(done, page, false);
    let r1 = within(done, page, true);
    let r2 = within(done, page + shown(line), true);
    let r3 = within(done, page + shown(line), false);
    let start = paragraph_start();
    let end = paragraph_end();
    reveal_with_fuel(effects, 4);
    assert(start.drop_last().drop_last().drop_last() =~= Seq::<Mark>::empty());
    assert(start.drop_last().drop_last().last() == Mark::Start(bare("p"@)));
    assert(start.drop_last().last() == Mark::Start(bare("r"@)));
    assert(effects(r0, start.drop_last().drop_last()) == Some(r0));
    assert(effects(r0, start.drop_last()) == Some(r0));
    assert(effects(r0, start) == Some(r1));
    lemma_line_effects(done, page, line, 0);
    assert(shown(line).skip(0) =~= shown(line));
    lemma_within(done, page + shown(line), false);
    assert(end.drop_last().drop_last().drop_last() =~= Seq::<Mark>::empty());
    assert(end.drop_last().drop_last().last() == Mark::End("t"@));
    assert(end.drop_last().last() == Mark::End("r"@));
    assert(effects(r2, end.drop_last().drop_last()) == Some(r3));
    assert(effects(r2, end.drop_last()) == Some(r3));
    assert(effects(r2, end) == Some(
        within(done, content::line_ended(page + shown(line)), false),
    ));
    lemma_effects_concat(r0, start, line_marks(line, 0));
    lemma_effects_concat(r0, start + line_marks(line, 0), end);
}

/// No line holds a line feed.
pub open spec fn are_lines(lines: Seq<Seq<char>>) -> bool {
    forall|i: int, k: int|
        0 <= i < lines.len() && 0 <= k < lines[i].len() ==> #[trigger] lines[i][k] != '\n'
}

proof fn lemma_are_lines(s: Seq<char>, from: int)
    ensures
        are_lines(text::lines_from(s, from)),
    decreases s.len() - from + 1,
{
    if 0 <= from < s.len() {
        text::lemma_index_of(s, '\n', from);
        let end = text::index_of(s, '\n', from);
        lemma_are_lines(s, end + 1);
        let lines = text::lines_from(s, from);
        let rest = text::lines_from(s, end + 1);
        assert forall|i: int, k: int|
            0 <= i < lines.len() && 0 <= k < lines[i].len() implies #[trigger] lines[i][k]
            != '\n' by {
            if i == 0 {
                assert(lines[0] == text::line_of(s, from, end));
                assert(lines[0][k] == s[from + k]);
            } else {
                assert(lines[i] == rest[i - 1]);
            }
        }
    }
}

proof fn lemma_paragraphs_effects(done: Seq<Seq<char>>, lines: Seq<Seq<char>>, n: int)
    requires
        0 <= n <= lines.len(),
        are_lines(lines),
    ensures
        effects(within(done, Seq::empty(), false), paragraphs_marks(lines, n)) == Some(
            within(done, read_lines(lines, n), false),
        ),
    decreases n,
{
    if n > 0 {
        let line = lines[n - 1];
        lemma_paragraphs_effects(done, lines, n - 1);
        assert forall|k: int| 0 <= k < line.len() implies #[trigger] line[k] != '\n' by {
            assert(lines[n - 1][k] != '\n');
        }
        lemma_paragraph_effects(done, read_lines(lines, n - 1), line);
        lemma_effects_concat(
            within(done, Seq::empty(), false),
            paragraphs_marks(lines, n - 1),
            paragraph_marks(line),
        );
    }
}

/// The text of a page, before the white space at its end is dropped.
pub open spec fn read_page(page: Seq<char>) -> Seq<char> {
    let lines = text::lines_from(page, 0);
    read_lines(lines, lines.len() as int)
}

proof fn lemma_page_effects(done: Seq<Seq<char>>, page: Seq<char>)
    ensures
        effects(within(done, Seq::empty(), false), page_marks(page)) == Some(
            within(done, read_page(page), false),
        ),
{
    let lines = text::lines_from(page, 0);
    lemma_are_lines(page, 0);
    lemma_paragraphs_effects(done, lines, lines.len() as int);
    let r = within(done, Seq::empty(), false);
    let after = within(done, read_page(page), false);
    let rest: Seq<Mark> = if page.len() == 0 {
        seq![Mark::Empty(bare("p"@))]
    } else {
        Seq::empty()
    };
    if page.len() == 0 {
        lemma_names_differ();
        lemma_one_effect(after, Mark::Empty(bare("p"@)));
    }
    assert(effects(after, rest) == Some(after));
    lemma_effects_concat(r, paragraphs_marks(lines, lines.len() as int), rest);
}

proof fn lemma_break_effects(done: Seq<Seq<char>>, page: Seq<char>)
    ensures
        effects(within(done, page, false), break_marks()) == Some(
            within(done.push(text::trimmed_end(page)), Seq::empty(), false),
        ),
{
    lemma_names_differ();
    lemma_within(done, page, false);
    let r0 = within(done, page, false);
    let kept = text::trimmed_end(page);
    let r1 = within(done.push(kept), Seq::empty(), false);
    assert(r0.page_ended(true).pages =~= r1.pages);
    let m = break_marks();
    let m4 = m.drop_last();
    let m3 = m4.drop_last();
    let m2 = m3.drop_last();
    let m1 = m2.drop_last();
    assert(m1 =~= seq![Mark::Start(bare("p"@))]);
    lemma_one_effect(r0, Mark::Start(bare("p"@)));
    assert(effects(r0, m1) == Some(r0));
    assert(m2.last() == Mark::Start(bare("r"@)));
    assert(effects(r0, m2) == Some(r0));
    assert(m3.last() == Mark::Empty(break_tag()));
    assert(effects(r0, m3) == Some(r1));
    assert(m4.last() == Mark::End("r"@));
    assert(effects(r0, m4) == Some(r1));
    assert(m.last() == Mark::End("p"@));
    lemma_within(done.push(kept), Seq::empty(), false);
    assert(content::line_ended(Seq::<char>::empty()) =~= Seq::<char>::empty());
    assert(effects(r0, m) == Some(r1));
}

/// What is read of the first `n` pages.
pub open spec fn read_pages(pages: Seq<Seq<char>>, n: int) -> Seq<Seq<char>> {
    Seq::new(n as nat, |i: int| kept(pages[i]))
}

proof fn lemma_pages_effects(pages: Seq<Seq<char>>, n: int)
    requires
        0 <= n <= pages.len(),
    ensures
        effects(within(Seq::empty(), Seq::empty(), false), pages_marks(pages, n)) == Some(
            if 0 < n == pages.len() {
                within(read_pages(pages, n - 1), read_page(pages[n - 1]), false)
            } else {
                within(read_pages(pages, n), Seq::empty(), false)
            },
        ),
    decreases n,
{
    let r = within(Seq::empty(), Seq::empty(), false);
    if n == 0 {
        assert(read_pages(pages, 0) =~= Seq::<Seq<char>>::empty());
    } else {
        let page = pages[n - 1];
        lemma_pages_effects(pages, n - 1);
        let done = read_pages(pages, n - 1);
        lemma_page_effects(done, page);
        lemma_effects_concat(r, pages_marks(pages, n - 1), page_marks(page));
        let gap: Seq<Mark> = if n < pages.len() {
            break_marks()
        } else {
            Seq::empty()
        };
        if n < pages.len() {
            lemma_break_effects(done, read_page(page));
            assert(done.push(kept(page)) =~= read_pages(pages, n));
        }
        lemma_effects_concat(r, pages_marks(pages, n - 1) + page_marks(page), gap);
    }
}

proof fn lemma_trimmed_end(s: Seq<char>)
    ensures
        text::trimmed_end(text::trimmed_end(s)) == text::trimmed_end(s),
    decreases s.len(),
{
    if s.len() > 0 && text::is_white(s.last()) {
        lemma_trimmed_end(s.drop_last());
    }
}

proof fn lemma_all_white(s: Seq<char>)
    requires
        forall|i: int| 0 <= i < s.len() ==> text::is_white(#[trigger] s[i]),
    ensures
        text::trimmed(s).len() == 0,
        text::trimmed_end(s).len() == 0,
    decreases s.len(),
{
    if s.len() > 0 {
        let rest = s.drop_first();
        assert forall|i: int| 0 <= i < rest.len() implies text::is_white(#[trigger] rest[i]) by {
            assert(rest[i] == s[i + 1]);
        }
        lemma_all_white(rest);
        let front = s.drop_last();
        assert forall|i: int| 0 <= i < front.len() implies text::is_white(#[trigger] front[i]) by {
            assert(front[i] == s[i]);
        }
        lemma_all_white(front);
    }
}

proof fn lemma_trimmed_nothing(s: Seq<char>)
    requires
        text::trimmed(s).len() == 0,
    ensures
        forall|i: int| 0 <= i < s.len() ==> text::is_white(#[trigger] s[i]),
    decreases s.len(),
{
    if s.len() > 0 {
        if text::is_white(s[0]) {
            lemma_trimmed_nothing(s.drop_first());
            assert forall|i: int| 0 <= i < s.len() implies text::is_white(#[trigger] s[i]) by {
                if i > 0 {
                    assert(s[i] == s.drop_first()[i - 1]);
                }
            }
        } else {
            lemma_end_keeps_start(s);
        }
    }
}

proof fn lemma_end_keeps_start(s: Seq<char>)
    requires
        s.len() > 0,
        !text::is_white(s[0]),
    ensures
        text::trimmed_end(s).len() > 0,
    decreases s.len(),
{
    if text::is_white(s.last()) {
        assert(s.len() > 1);
        lemma_end_keeps_start(s.drop_last());
    }
}

proof fn lemma_end_and_white(s: Seq<char>)
    ensures
        text::trimmed_end(s).len() <= s.len(),
        forall|i: int|
            0 <= i < text::trimmed_end(s).len() ==> #[trigger] text::trimmed_end(s)[i] == s[i],
        forall|i: int| text::trimmed_end(s).len() <= i < s.len() ==> text::is_white(#[trigger] s[i]),
    decreases s.len(),
{
    if s.len() > 0 && text::is_white(s.last()) {
        lemma_end_and_white(s.drop_last());
        assert forall|i: int| text::trimmed_end(s).len() <= i < s.len() implies text::is_white(
            #[trigger] s[i],
        ) by {
            if i < s.len() - 1 {
                assert(s[i] == s.drop_last()[i]);
            }
        }
    }
}

/// White space at the end does not matter to whether there is anything else.
proof fn lemma_blank(s: Seq<char>)
    ensures
        (text::trimmed(s).len() == 0) == (text::trimmed(text::trimmed_end(s)).len() == 0),
{
    let t = text::trimmed_end(s);
    lemma_end_and_white(s);
    if text::trimmed(s).len() == 0 {
        lemma_trimmed_nothing(s);
        lemma_all_white(s);
        assert(t =~= Seq::<char>::empty());
    } else if text::trimmed(t).len() == 0 {
        lemma_trimmed_nothing(t);
        assert forall|i: int| 0 <= i < s.len() implies text::is_white(#[trigger] s[i]) by {
            if i < t.len() {
                assert(t[i] == s[i]);
            }
        }
        lemma_all_white(s);
    }
}

/// Reading the pieces of a document gives what is kept of its pages.
pub proof fn lemma_document_effects(pages: Seq<Seq<char>>)
    ensures
        effects(docx::unread(), document_marks(pages)) is Some,
        effects(docx::unread(), document_marks(pages))->0.finished() == read_back(pages),
{
    lemma_names_differ();
    let n = pages.len() as int;
    let r0 = docx::unread();
    let r1 = within(Seq::empty(), Seq::empty(), false);
    let start = document_start();
    let body = pages_marks(pages, n);
    let end = document_end();
    assert(r0.pages =~= Seq::<Seq<char>>::empty().push(Seq::empty()));
    let m4 = start.drop_last();
    let m3 = m4.drop_last();
    let m2 = m3.drop_last();
    let m1 = m2.drop_last();
    assert(m1 =~= seq![Mark::Declaration(declaration())]);
    lemma_one_effect(r0, Mark::Declaration(declaration()));
    assert(effects(r0, m1) == Some(r0));
    assert(m2.last() == Mark::Text("\n"@));
    assert(effects(r0, m2) == Some(r0));
    assert(m3.last() == Mark::Start(document_tag()));
    assert(effects(r0, m3) == Some(r0));
    assert(m4.last() == Mark::Text("\n"@));
    assert(effects(r0, m4) == Some(r0));
    assert(start.last() == Mark::Start(bare("body"@)));
    assert(effects(r0, start) == Some(r1));
    lemma_pages_effects(pages, n);
    lemma_effects_concat(r0, start, body);
    let r2 = effects(r1, body)->0;
    let r3 = Reading { in_body: false, ..r2 };
    assert(end.drop_last() =~= seq![Mark::End("body"@)]);
    lemma_one_effect(r2, Mark::End("body"@));
    assert(effects(r2, end.drop_last()) == Some(r3));
    assert(end.last() == Mark::End("document"@));
    assert(effects(r2, end) == Some(r3));
    lemma_effects_concat(r0, start + body, end);
    let all = kept_pages(pages);
    assert(r3.pages.len() == all.len());
    assert forall|i: int| 0 <= i < all.len() implies text::trimmed_end(#[trigger] r3.pages[i])
        == all[i] && (text::trimmed(r3.pages[i]).len() == 0) == (text::trimmed(all[i]).len()
        == 0) by {
        if n == 0 {
            assert(r3.pages[i] =~= Seq::<char>::empty());
        } else if i < n - 1 {
            assert(r3.pages[i] == kept(pages[i]));
            lemma_trimmed_end(read_page(pages[i]));
        } else {
            assert(r3.pages[i] == read_page(pages[i]));
            lemma_blank(r3.pages[i]);
        }
    }
    assert(Seq::new(r3.pages.len(), |i: int| text::trimmed_end(r3.pages[i])) =~= all);
    if forall|i: int| 0 <= i < all.len() ==> text::trimmed(#[trigger] all[i]).len() == 0 {
        assert forall|i: int| 0 <= i < r3.pages.len() implies text::trimmed(
            #[trigger] r3.pages[i],
        ).len() == 0 by {
            assert(text::trimmed(all[i]).len() == 0);
        }
    } else {
        let k = choose|k: int| 0 <= k < all.len() && text::trimmed(#[trigger] all[k]).len() != 0;
        assert(text::trimmed(r3.pages[k]).len() != 0);
    }
}

// Tidy pages

/// A page without carriage returns, blank lines, and white space at the ends of
/// its lines.
pub open spec fn is_tidy(page: Seq<char>) -> bool {
    &&& xml_marks::lacks(page, '\r')
    &&& text::trimmed_end(page) == page
    &&& forall|i: int|
        0 <= i < text::lines_from(page, 0).len() ==> (#[trigger] text::lines_from(page, 0)[i]).len()
            > 0 && text::lines_from(page, 0)[i].last() != ' '
}

/// The first `n` lines, each with a line feed behind it.
pub open spec fn fed(lines: Seq<Seq<char>>, n: int) -> Seq<char>
    decreases n,
{
    if n <= 0 {
        Seq::empty()
    } else {
        fed(lines, n - 1) + lines[n - 1] + seq!['\n']
    }
}

proof fn lemma_fed_first(line: Seq<char>, lines: Seq<Seq<char>>, n: int)
    requires
        0 <= n <= lines.len(),
    ensures
        fed(seq![line] + lines, n + 1) == line + seq!['\n'] + fed(lines, n),
    decreases n,
{
    let all = seq![line] + lines;
    if n == 0 {
        assert(fed(all, 0) =~= Seq::<char>::empty());
        assert(fed(all, 1) =~= line + seq!['\n'] + fed(lines, 0));
    } else {
        lemma_fed_first(line, lines, n - 1);
        assert(all[n] == lines[n - 1]);
        assert(fed(all, n + 1) =~= line + seq!['\n'] + fed(lines, n));
    }
}

proof fn lemma_fed_lines(s: Seq<char>, from: int)
    requires
        0 <= from < s.len(),
        s.last() != '\n',
        xml_marks::lacks(s, '\r'),
    ensures
        fed(text::lines_from(s, from), text::lines_from(s, from).len() as int) == s.skip(from)
            + seq!['\n'],
    decreases s.len() - from,
{
    text::lemma_index_of(s, '\n', from);
    let end = text::index_of(s, '\n', from);
    let line = text::line_of(s, from, end);
    let rest = text::lines_from(s, end + 1);
    assert(line == s.subrange(from, end));
    lemma_fed_first(line, rest, rest.len() as int);
    if end < s.len() {
        assert(end < s.len() - 1);
        lemma_fed_lines(s, end + 1);
        assert(line + seq!['\n'] + (s.skip(end + 1) + seq!['\n']) =~= s.skip(from) + seq!['\n']);
    } else {
        assert(rest =~= Seq::<Seq<char>>::empty());
        assert(line + seq!['\n'] + fed(rest, 0) =~= s.skip(from) + seq!['\n']);
    }
}

proof fn lemma_line_chars(s: Seq<char>, from: int)
    requires
        xml_marks::lacks(s, '\r'),
    ensures
        forall|i: int|
            0 <= i < text::lines_from(s, from).len() ==> shown(
                #[trigger] text::lines_from(s, from)[i],
            ) == text::lines_from(s, from)[i],
    decreases s.len() - from + 1,
{
    if 0 <= from < s.len() {
        text::lemma_index_of(s, '\n', from);
        let end = text::index_of(s, '\n', from);
        lemma_line_chars(s, end + 1);
        let lines = text::lines_from(s, from);
        let rest = text::lines_from(s, end + 1);
        assert forall|i: int| 0 <= i < lines.len() implies shown(#[trigger] lines[i]) == lines[i] by {
            if i == 0 {
                let line = text::line_of(s, from, end);
                assert(lines[0] == line);
                assert forall|k: int| 0 <= k < line.len() implies #[trigger] shown(line)[k]
                    == line[k] by {
                    assert(line[k] == s[from + k]);
                }
                assert(shown(line) =~= line);
            } else {
                assert(lines[i] == rest[i - 1]);
            }
        }
    }
}

proof fn lemma_read_is_fed(lines: Seq<Seq<char>>, n: int)
    requires
        0 <= n <= lines.len(),
        are_lines(lines),
        forall|i: int|
            0 <= i < lines.len() ==> (#[trigger] lines[i]).len() > 0 && lines[i].last() != ' '
                && shown(lines[i]) == lines[i],
    ensures
        read_lines(lines, n) == fed(lines, n),
    decreases n,
{
    if n > 0 {
        lemma_read_is_fed(lines, n - 1);
        let line = lines[n - 1];
        let before = fed(lines, n - 1) + line;
        assert(line.len() > 0 && line.last() != ' ' && shown(line) == line);
        assert(lines[n - 1][line.len() - 1] != '\n');
        assert(before.last() == line.last());
        assert(content::unpadded(before) == before);
        assert(content::line_ended(before) =~= fed(lines, n));
    }
}

/// Tidy pages are read back as they were written.
pub proof fn law_tidy_pages_are_kept(pages: Seq<Seq<char>>)
    requires
        forall|i: int| 0 <= i < pages.len() ==> is_tidy(#[trigger] pages[i]),
        exists|i: int| 0 <= i < pages.len() && (#[trigger] pages[i]).len() > 0,
    ensures
        read_back(pages) == Ok::<Seq<Seq<char>>, Wrong>(pages),
{
    assert forall|i: int| 0 <= i < pages.len() implies kept(#[trigger] pages[i]) == pages[i] by {
        lemma_tidy_page(pages[i]);
    }
    assert(kept_pages(pages) =~= pages);
    let k = choose|i: int| 0 <= i < pages.len() && (#[trigger] pages[i]).len() > 0;
    let page = pages[k];
    assert(is_tidy(page));
    if text::trimmed(page).len() == 0 {
        lemma_trimmed_nothing(page);
        lemma_all_white(page);
    }
    assert(text::trimmed(kept_pages(pages)[k]).len() != 0);
}

proof fn lemma_tidy_page(page: Seq<char>)
    requires
        is_tidy(page),
    ensures
        kept(page) == page,
{
    let lines = text::lines_from(page, 0);
    let n = lines.len() as int;
    if page.len() == 0 {
        assert(lines =~= Seq::<Seq<char>>::empty());
        assert(read_lines(lines, n) =~= page);
    } else {
        lemma_are_lines(page, 0);
        lemma_line_chars(page, 0);
        lemma_read_is_fed(lines, n);
        assert(!text::is_white(page.last())) by {
            if text::is_white(page.last()) {
                lemma_end_and_white(page.drop_last());
            }
        }
        assert(page.last() != '\n');
        lemma_fed_lines(page, 0);
        assert(page.skip(0) =~= page);
        let read = page + seq!['\n'];
        assert(read.drop_last() =~= page);
        assert(text::is_white('\n'));
    }
}

} // verus!
