//! What is read of the paragraphs, tables and pages of a Word document.

use vstd::prelude::*;

use crate::docx;
use crate::docx::{Reading, Wrong};
use crate::pdf::content;
use crate::text;
use crate::xml;
use crate::xml::{Piece, Tag};

verus! {

/// Something in a line of a document.
pub enum Item {
    Text(Seq<char>),
    /// Text that is marked as character data.
    Data(Seq<char>),
    /// One of the five characters that XML has a name for.
    Named(char),
    Tab,
    Return,
    /// A line break, with what stands behind the name of its tag.
    Break(Seq<char>),
}

/// A part of a page.
pub enum Block {
    Paragraph(Seq<Item>),
    Blank,
    /// The rows of a table, each with its cells.
    Table(Seq<Seq<Seq<Item>>>),
}

/// What begins a new page, with what stands behind the name of its tag.
pub enum Turn {
    Break(Seq<char>),
    Before(Seq<char>),
}

/// The two names that the tags of word processing documents are bound to.
pub open spec fn is_word_uri(uri: Seq<char>) -> bool {
    uri == "http://schemas.openxmlformats.org/wordprocessingml/2006/main"@ || uri
        == "http://purl.oclc.org/ooxml/wordprocessingml/main"@
}

pub open spec fn tag(uri: Seq<char>, name: Seq<char>) -> Tag {
    Tag { namespace: Some(uri), name, attributes: Seq::empty() }
}

pub open spec fn tag_with(uri: Seq<char>, name: Seq<char>, attributes: Seq<char>) -> Tag {
    Tag { namespace: Some(uri), name, attributes }
}

pub open spec fn name_of(c: char) -> Seq<char> {
    match c {
        '<' => "lt"@,
        '>' => "gt"@,
        '&' => "amp"@,
        '"' => "quot"@,
        _ => "apos"@,
    }
}

/// An item that means what its kind says.
pub open spec fn is_item(item: Item) -> bool {
    match item {
        Item::Named(c) => c == '<' || c == '>' || c == '&' || c == '"' || c == '\'',
        Item::Break(attributes) => {
            let kind = xml::value_from(xml::attributes_in(attributes), "type"@, 0);
            kind is Some && kind != Some(Some("page"@))
        },
        _ => true,
    }
}

pub open spec fn item_pieces(uri: Seq<char>, item: Item) -> Seq<Piece> {
    match item {
        Item::Text(s) => seq![
            Piece::Start(tag(uri, "t"@)),
            Piece::Text(s),
            Piece::End(tag(uri, "t"@)),
        ],
        Item::Data(s) => seq![
            Piece::Start(tag(uri, "t"@)),
            Piece::CData(s),
            Piece::End(tag(uri, "t"@)),
        ],
        Item::Named(c) => seq![
            Piece::Start(tag(uri, "t"@)),
            Piece::Reference(name_of(c)),
            Piece::End(tag(uri, "t"@)),
        ],
        Item::Tab => seq![Piece::Empty(tag(uri, "tab"@))],
        Item::Return => seq![Piece::Empty(tag(uri, "cr"@))],
        Item::Break(attributes) => seq![Piece::Empty(tag_with(uri, "br"@, attributes))],
    }
}

pub open spec fn item_text(item: Item) -> Seq<char> {
    match item {
        Item::Text(s) | Item::Data(s) => s,
        Item::Named(c) => seq![c],
        Item::Tab => seq!['\t'],
        Item::Return | Item::Break(_) => seq!['\n'],
    }
}

pub open spec fn items_pieces(uri: Seq<char>, items: Seq<Item>) -> Seq<Piece>
    decreases items.len(),
{
    if items.len() == 0 {
        Seq::empty()
    } else {
        items_pieces(uri, items.drop_last()) + item_pieces(uri, items.last())
    }
}

pub open spec fn items_text(items: Seq<Item>) -> Seq<char>
    decreases items.len(),
{
    if items.len() == 0 {
        Seq::empty()
    } else {
        items_text(items.drop_last()) + item_text(items.last())
    }
}

/// Items whose text begins and ends with visible characters.
pub open spec fn are_shown(items: Seq<Item>) -> bool {
    let s = items_text(items);
    &&& forall|i: int| 0 <= i < items.len() ==> is_item(#[trigger] items[i])
    &&& s.len() > 0
    &&& '!' <= s[0] <= '~'
    &&& '!' <= s.last() <= '~'
}

pub open spec fn paragraph_pieces(uri: Seq<char>, items: Seq<Item>) -> Seq<Piece> {
    seq![Piece::Start(tag(uri, "p"@)), Piece::Start(tag(uri, "r"@))] + items_pieces(uri, items)
        + seq![Piece::End(tag(uri, "r"@)), Piece::End(tag(uri, "p"@))]
}

pub open spec fn cells_pieces(uri: Seq<char>, cells: Seq<Seq<Item>>) -> Seq<Piece>
    decreases cells.len(),
{
    if cells.len() == 0 {
        Seq::empty()
    } else {
        cells_pieces(uri, cells.drop_last()) + (seq![Piece::Start(tag(uri, "tc"@))]
            + paragraph_pieces(uri, cells.last()) + seq![Piece::End(tag(uri, "tc"@))])
    }
}

pub open spec fn rows_pieces(uri: Seq<char>, rows: Seq<Seq<Seq<Item>>>) -> Seq<Piece>
    decreases rows.len(),
{
    if rows.len() == 0 {
        Seq::empty()
    } else {
        rows_pieces(uri, rows.drop_last()) + (seq![Piece::Start(tag(uri, "tr"@))] + cells_pieces(
            uri,
            rows.last(),
        ) + seq![Piece::End(tag(uri, "tr"@))])
    }
}

pub open spec fn block_pieces(uri: Seq<char>, block: Block) -> Seq<Piece> {
    match block {
        Block::Paragraph(items) => paragraph_pieces(uri, items),
        Block::Blank => seq![Piece::Start(tag(uri, "p"@)), Piece::End(tag(uri, "p"@))],
        Block::Table(rows) => seq![Piece::Start(tag(uri, "tbl"@))] + rows_pieces(uri, rows)
            + seq![Piece::End(tag(uri, "tbl"@))],
    }
}

pub open spec fn blocks_pieces(uri: Seq<char>, blocks: Seq<Block>) -> Seq<Piece>
    decreases blocks.len(),
{
    if blocks.len() == 0 {
        Seq::empty()
    } else {
        blocks_pieces(uri, blocks.drop_last()) + block_pieces(uri, blocks.last())
    }
}

/// The cells of a row with tabs between them.
pub open spec fn row_line(cells: Seq<Seq<Item>>) -> Seq<char>
    decreases cells.len(),
{
    if cells.len() == 0 {
        Seq::empty()
    } else if cells.len() == 1 {
        items_text(cells[0])
    } else {
        row_line(cells.drop_last()) + seq!['\t'] + items_text(cells.last())
    }
}

/// The lines of a part of a page.
pub open spec fn block_lines(block: Block) -> Seq<Seq<char>> {
    match block {
        Block::Paragraph(items) => seq![items_text(items)],
        Block::Blank => Seq::empty(),
        Block::Table(rows) => Seq::new(rows.len(), |i: int| row_line(rows[i])),
    }
}

/// The lines of a page.
pub open spec fn page_lines(blocks: Seq<Block>) -> Seq<Seq<char>>
    decreases blocks.len(),
{
    if blocks.len() == 0 {
        Seq::empty()
    } else {
        page_lines(blocks.drop_last()) + block_lines(blocks.last())
    }
}

/// Lines with line feeds between them.
pub open spec fn lined(lines: Seq<Seq<char>>) -> Seq<char>
    decreases lines.len(),
{
    if lines.len() == 0 {
        Seq::empty()
    } else if lines.len() == 1 {
        lines[0]
    } else {
        lined(lines.drop_last()) + seq!['\n'] + lines.last()
    }
}

/// A part of a page that shows something wherever it can.
pub open spec fn is_block(block: Block) -> bool {
    match block {
        Block::Paragraph(items) => are_shown(items),
        Block::Blank => true,
        Block::Table(rows) => forall|i: int|
            0 <= i < rows.len() ==> (#[trigger] rows[i]).len() > 0 && forall|k: int|
                0 <= k < rows[i].len() ==> are_shown(#[trigger] rows[i][k]),
    }
}

/// A page that shows something.
pub open spec fn is_page(blocks: Seq<Block>) -> bool {
    &&& page_lines(blocks).len() > 0
    &&& forall|i: int| 0 <= i < blocks.len() ==> is_block(#[trigger] blocks[i])
}

/// A new page begins there.
pub open spec fn is_turn(turn: Turn) -> bool {
    match turn {
        Turn::Break(attributes) => xml::value_from(xml::attributes_in(attributes), "type"@, 0)
            == Some(Some("page"@)),
        Turn::Before(attributes) => {
            let value = xml::value_from(xml::attributes_in(attributes), "val"@, 0);
            value is Some && value != Some(Some("0"@)) && value != Some(Some("false"@)) && value
                != Some(Some("off"@))
        },
    }
}

pub open spec fn turn_pieces(uri: Seq<char>, turn: Turn) -> Seq<Piece> {
    seq![
        Piece::Start(tag(uri, "p"@)),
        match turn {
            Turn::Break(attributes) => Piece::Empty(tag_with(uri, "br"@, attributes)),
            Turn::Before(attributes) => Piece::Empty(
                tag_with(uri, "pageBreakBefore"@, attributes),
            ),
        },
        Piece::End(tag(uri, "p"@)),
    ]
}

/// The pages with what begins each but the first.
pub open spec fn pages_pieces(
    uri: Seq<char>,
    pages: Seq<Seq<Block>>,
    turns: Seq<Turn>,
) -> Seq<Piece>
    decreases pages.len(),
{
    if pages.len() == 0 {
        Seq::empty()
    } else if pages.len() == 1 {
        blocks_pieces(uri, pages[0])
    } else {
        pages_pieces(uri, pages.drop_last(), turns) + turn_pieces(uri, turns[pages.len() - 2])
            + blocks_pieces(uri, pages.last())
    }
}

/// The pieces of a document with these pages.
pub open spec fn document_pieces(
    uri: Seq<char>,
    pages: Seq<Seq<Block>>,
    turns: Seq<Turn>,
) -> Seq<Option<Piece>> {
    let pieces = seq![Piece::Start(tag(uri, "document"@)), Piece::Start(tag(uri, "body"@))]
        + pages_pieces(uri, pages, turns) + seq![
        Piece::End(tag(uri, "body"@)),
        Piece::End(tag(uri, "document"@)),
        Piece::Eof,
    ];
    Seq::new(pieces.len(), |i: int| Some(pieces[i]))
}

/// Where the reading stands after pieces.
spec fn follow(reading: Reading, pieces: Seq<Piece>) -> Result<Reading, Wrong>
    decreases pieces.len(),
{
    if pieces.len() == 0 {
        Ok(reading)
    } else {
        match follow(reading, pieces.drop_last()) {
            Err(wrong) => Err(wrong),
            Ok(reading) => reading.after(pieces.last()),
        }
    }
}

spec fn no_end(pieces: Seq<Piece>) -> bool {
    forall|i: int| 0 <= i < pieces.len() ==> !(#[trigger] pieces[i] is Eof)
}

proof fn lemma_follow(reading: Reading, a: Seq<Piece>, b: Seq<Piece>)
    ensures
        follow(reading, a + b) == match follow(reading, a) {
            Err(wrong) => Err(wrong),
            Ok(reading) => follow(reading, b),
        },
    decreases b.len(),
{
    if b.len() == 0 {
        assert(a + b =~= a);
    } else {
        lemma_follow(reading, a, b.drop_last());
        assert((a + b).drop_last() =~= a + b.drop_last());
        assert((a + b).last() == b.last());
    }
}

proof fn lemma_one(reading: Reading, a: Piece)
    ensures
        follow(reading, seq![a]) == reading.after(a),
{
    assert(seq![a].drop_last() =~= Seq::<Piece>::empty());
    assert(follow(reading, seq![a].drop_last()) == Ok::<Reading, Wrong>(reading));
}

proof fn lemma_two(reading: Reading, a: Piece, b: Piece)
    ensures
        follow(reading, seq![a, b]) == match reading.after(a) {
            Err(wrong) => Err(wrong),
            Ok(reading) => reading.after(b),
        },
{
    lemma_one(reading, a);
    assert(seq![a, b].drop_last() =~= seq![a]);
}

proof fn lemma_three(reading: Reading, a: Piece, b: Piece, c: Piece)
    ensures
        follow(reading, seq![a, b, c]) == match reading.after(a) {
            Err(wrong) => Err(wrong),
            Ok(reading) => match reading.after(b) {
                Err(wrong) => Err(wrong),
                Ok(reading) => reading.after(c),
            },
        },
{
    lemma_two(reading, a, b);
    assert(seq![a, b, c].drop_last() =~= seq![a, b]);
}

proof fn lemma_pages_from(pieces: Seq<Option<Piece>>, rest: Seq<Piece>, i: int, reading: Reading)
    requires
        0 <= i,
        i + rest.len() < pieces.len(),
        forall|k: int| 0 <= k < rest.len() ==> pieces[i + k] == Some(#[trigger] rest[k]),
        no_end(rest),
        follow(reading, rest) is Ok,
    ensures
        docx::pages_from(pieces, i, reading) == docx::pages_from(
            pieces,
            i + rest.len(),
            follow(reading, rest)->Ok_0,
        ),
    decreases rest.len(),
{
    if rest.len() > 0 {
        let first = rest[0];
        let more = rest.skip(1);
        lemma_follow(reading, seq![first], more);
        lemma_one(reading, first);
        assert(seq![first] + more =~= rest);
        assert(pieces[i + 0] == Some(rest[0]));
        assert forall|k: int| 0 <= k < more.len() implies pieces[i + 1 + k] == Some(
            #[trigger] more[k],
        ) by {
            assert(pieces[i + (k + 1)] == Some(rest[k + 1]));
        }
        assert forall|k: int| 0 <= k < more.len() implies !(#[trigger] more[k] is Eof) by {
            assert(!(rest[k + 1] is Eof));
        }
        lemma_pages_from(pieces, more, i + 1, reading.after(first)->Ok_0);
    }
}

/// In the body, behind `done` and in `page`.
spec fn within(done: Seq<Seq<char>>, page: Seq<char>, in_text: bool) -> Reading {
    Reading { pages: done.push(page), saw_body: true, in_body: true, in_text }
}

proof fn lemma_within(done: Seq<Seq<char>>, page: Seq<char>, in_text: bool)
    ensures
        within(done, page, in_text).page() == page,
        forall|next: Seq<char>|
            #![trigger within(done, page, in_text).with_page(next)]
            within(done, page, in_text).with_page(next) == within(done, next, in_text),
{
    assert(done.push(page).drop_last() =~= done);
}

proof fn reveal_names()
    ensures
        "document"@.len() == 8,
        "body"@.len() == 4 && "body"@[0] == 'b',
        "p"@.len() == 1 && "p"@[0] == 'p',
        "r"@.len() == 1 && "r"@[0] == 'r',
        "t"@.len() == 1 && "t"@[0] == 't',
        "br"@.len() == 2 && "br"@[0] == 'b',
        "cr"@.len() == 2 && "cr"@[0] == 'c',
        "tc"@.len() == 2 && "tc"@[0] == 't' && "tc"@[1] == 'c',
        "tr"@.len() == 2 && "tr"@[0] == 't' && "tr"@[1] == 'r',
        "tab"@.len() == 3 && "tab"@[1] == 'a',
        "tbl"@.len() == 3 && "tbl"@[1] == 'b',
        "pageBreakBefore"@.len() == 15 && "pageBreakBefore"@[0] == 'p',
        "drawing"@.len() == 7,
        "pict"@.len() == 4 && "pict"@[0] == 'p',
        "object"@.len() == 6,
        "headerReference"@.len() == 15 && "headerReference"@[0] == 'h',
        "footerReference"@.len() == 15 && "footerReference"@[0] == 'f',
        "footnoteReference"@.len() == 17,
        "endnoteReference"@.len() == 16,
{
    reveal_strlit("document");
    reveal_strlit("body");
    reveal_strlit("p");
    reveal_strlit("r");
    reveal_strlit("t");
    reveal_strlit("br");
    reveal_strlit("cr");
    reveal_strlit("tc");
    reveal_strlit("tr");
    reveal_strlit("tab");
    reveal_strlit("tbl");
    reveal_strlit("pageBreakBefore");
    reveal_strlit("drawing");
    reveal_strlit("pict");
    reveal_strlit("object");
    reveal_strlit("headerReference");
    reveal_strlit("footerReference");
    reveal_strlit("footnoteReference");
    reveal_strlit("endnoteReference");
}

proof fn lemma_named(c: char)
    requires
        is_item(Item::Named(c)),
    ensures
        xml::referred(name_of(c)) == Some(seq![c]),
{
    reveal_strlit("lt");
    reveal_strlit("gt");
    reveal_strlit("amp");
    reveal_strlit("apos");
    reveal_strlit("quot");
    reveal_strlit("<");
    reveal_strlit(">");
    reveal_strlit("&");
    reveal_strlit("'");
    reveal_strlit("\"");
    assert("lt"@[0] != "gt"@[0] && "apos"@[1] != "quot"@[1]);
    assert("<"@ =~= seq!['<'] && ">"@ =~= seq!['>'] && "&"@ =~= seq!['&'] && "'"@ =~= seq!['\'']
        && "\""@ =~= seq!['"']);
}

proof fn lemma_item(uri: Seq<char>, done: Seq<Seq<char>>, page: Seq<char>, item: Item)
    requires
        is_word_uri(uri),
        is_item(item),
    ensures
        follow(within(done, page, false), item_pieces(uri, item)) == Ok::<Reading, Wrong>(
            within(done, page + item_text(item), false),
        ),
        no_end(item_pieces(uri, item)),
{
    reveal_names();
    let start = within(done, page, false);
    lemma_within(done, page, false);
    lemma_within(done, page, true);
    let open = Piece::Start(tag(uri, "t"@));
    let close = Piece::End(tag(uri, "t"@));
    let next = page + item_text(item);
    assert(page.push('\t') =~= page + seq!['\t'] && page.push('\n') =~= page + seq!['\n']);
    match item {
        Item::Text(s) => {
            lemma_three(start, open, Piece::Text(s), close);
        },
        Item::Data(s) => {
            lemma_three(start, open, Piece::CData(s), close);
        },
        Item::Named(c) => {
            lemma_named(c);
            lemma_three(start, open, Piece::Reference(name_of(c)), close);
        },
        Item::Tab => {
            lemma_one(start, Piece::Empty(tag(uri, "tab"@)));
        },
        Item::Return => {
            lemma_one(start, Piece::Empty(tag(uri, "cr"@)));
        },
        Item::Break(attributes) => {
            lemma_one(start, Piece::Empty(tag_with(uri, "br"@, attributes)));
        },
    }
}

proof fn lemma_items(uri: Seq<char>, done: Seq<Seq<char>>, page: Seq<char>, items: Seq<Item>)
    requires
        is_word_uri(uri),
        forall|i: int| 0 <= i < items.len() ==> is_item(#[trigger] items[i]),
    ensures
        follow(within(done, page, false), items_pieces(uri, items)) == Ok::<Reading, Wrong>(
            within(done, page + items_text(items), false),
        ),
        no_end(items_pieces(uri, items)),
    decreases items.len(),
{
    if items.len() == 0 {
        assert(page + items_text(items) =~= page);
    } else {
        let before = items.drop_last();
        lemma_items(uri, done, page, before);
        lemma_item(uri, done, page + items_text(before), items.last());
        lemma_follow(
            within(done, page, false),
            items_pieces(uri, before),
            item_pieces(uri, items.last()),
        );
        assert(page + items_text(before) + item_text(items.last()) =~= page + items_text(items));
    }
}

proof fn lemma_paragraph(uri: Seq<char>, done: Seq<Seq<char>>, page: Seq<char>, items: Seq<Item>)
    requires
        is_word_uri(uri),
        are_shown(items),
    ensures
        follow(within(done, page, false), paragraph_pieces(uri, items)) == Ok::<Reading, Wrong>(
            within(done, page + items_text(items) + seq!['\n'], false),
        ),
        no_end(paragraph_pieces(uri, items)),
{
    reveal_names();
    let start = within(done, page, false);
    let all = page + items_text(items);
    let end = within(done, all, false);
    let a = seq![Piece::Start(tag(uri, "p"@)), Piece::Start(tag(uri, "r"@))];
    let b = items_pieces(uri, items);
    let c = seq![Piece::End(tag(uri, "r"@)), Piece::End(tag(uri, "p"@))];
    lemma_two(start, a[0], a[1]);
    lemma_items(uri, done, page, items);
    lemma_two(end, c[0], c[1]);
    lemma_follow(start, a, b);
    lemma_follow(start, a + b, c);
    lemma_within(done, all, false);
    assert(all.last() == items_text(items).last());
    assert(content::line_ended(all) =~= all + seq!['\n']);
}

proof fn lemma_cell(uri: Seq<char>, done: Seq<Seq<char>>, page: Seq<char>, items: Seq<Item>)
    requires
        is_word_uri(uri),
        are_shown(items),
    ensures
        ({
            let pieces = seq![Piece::Start(tag(uri, "tc"@))] + paragraph_pieces(uri, items)
                + seq![Piece::End(tag(uri, "tc"@))];
            &&& follow(within(done, page, false), pieces) == Ok::<Reading, Wrong>(
                within(done, page + items_text(items) + seq!['\t'], false),
            )
            &&& no_end(pieces)
        }),
{
    reveal_names();
    let start = within(done, page, false);
    let all = page + items_text(items);
    let a = seq![Piece::Start(tag(uri, "tc"@))];
    let b = paragraph_pieces(uri, items);
    let c = seq![Piece::End(tag(uri, "tc"@))];
    lemma_one(start, a[0]);
    lemma_paragraph(uri, done, page, items);
    lemma_one(within(done, all + seq!['\n'], false), c[0]);
    lemma_follow(start, a, b);
    lemma_follow(start, a + b, c);
    lemma_within(done, all + seq!['\n'], false);
    assert((all + seq!['\n']).drop_last() =~= all);
    assert(all.last() == items_text(items).last());
    reveal_with_fuel(docx::without_line_feeds, 2);
    assert(docx::without_line_feeds(all + seq!['\n']) == all);
    assert(all.push('\t') =~= all + seq!['\t']);
}

proof fn lemma_cells(uri: Seq<char>, done: Seq<Seq<char>>, page: Seq<char>, cells: Seq<Seq<Item>>)
    requires
        is_word_uri(uri),
        forall|k: int| 0 <= k < cells.len() ==> are_shown(#[trigger] cells[k]),
    ensures
        follow(within(done, page, false), cells_pieces(uri, cells)) == Ok::<Reading, Wrong>(
            within(
                done,
                if cells.len() == 0 {
                    page
                } else {
                    page + row_line(cells) + seq!['\t']
                },
                false,
            ),
        ),
        no_end(cells_pieces(uri, cells)),
        cells.len() > 0 ==> row_line(cells).len() > 0 && '!' <= row_line(cells).last() <= '~' && '!'
            <= row_line(cells)[0] <= '~',
    decreases cells.len(),
{
    if cells.len() > 0 {
        let before = cells.drop_last();
        let last = cells.last();
        lemma_cells(uri, done, page, before);
        assert(are_shown(cells[cells.len() - 1]));
        let so_far = if before.len() == 0 {
            page
        } else {
            page + row_line(before) + seq!['\t']
        };
        lemma_cell(uri, done, so_far, last);
        lemma_follow(
            within(done, page, false),
            cells_pieces(uri, before),
            seq![Piece::Start(tag(uri, "tc"@))] + paragraph_pieces(uri, last) + seq![
                Piece::End(tag(uri, "tc"@)),
            ],
        );
        assert(so_far + items_text(last) + seq!['\t'] =~= page + row_line(cells) + seq!['\t']);
        assert(row_line(cells).last() == items_text(last).last());
        if before.len() > 0 {
            assert(row_line(cells)[0] == row_line(before)[0]);
        }
    }
}

/// Lines, each with a line feed behind it.
spec fn fed(lines: Seq<Seq<char>>) -> Seq<char>
    decreases lines.len(),
{
    if lines.len() == 0 {
        Seq::empty()
    } else {
        fed(lines.drop_last()) + lines.last() + seq!['\n']
    }
}

proof fn lemma_fed(a: Seq<Seq<char>>, b: Seq<Seq<char>>)
    ensures
        fed(a + b) == fed(a) + fed(b),
    decreases b.len(),
{
    if b.len() == 0 {
        assert(a + b =~= a);
        assert(fed(a) + fed(b) =~= fed(a));
    } else {
        lemma_fed(a, b.drop_last());
        assert((a + b).drop_last() =~= a + b.drop_last());
        assert(fed(a + b) =~= fed(a) + fed(b));
    }
}

proof fn lemma_lined(lines: Seq<Seq<char>>)
    requires
        lines.len() > 0,
    ensures
        fed(lines) == lined(lines) + seq!['\n'],
    decreases lines.len(),
{
    if lines.len() == 1 {
        assert(fed(lines.drop_last()) =~= Seq::<char>::empty());
        assert(fed(lines) =~= lined(lines) + seq!['\n']);
    } else {
        lemma_lined(lines.drop_last());
        assert(fed(lines) =~= lined(lines) + seq!['\n']);
    }
}

/// Lines that begin and end with visible characters.
spec fn are_visible(lines: Seq<Seq<char>>) -> bool {
    forall|i: int|
        0 <= i < lines.len() ==> (#[trigger] lines[i]).len() > 0 && '!' <= lines[i][0] <= '~' && '!'
            <= lines[i].last() <= '~'
}

proof fn lemma_rows(
    uri: Seq<char>,
    done: Seq<Seq<char>>,
    page: Seq<char>,
    rows: Seq<Seq<Seq<Item>>>,
)
    requires
        is_word_uri(uri),
        is_block(Block::Table(rows)),
    ensures
        follow(within(done, page, false), rows_pieces(uri, rows)) == Ok::<Reading, Wrong>(
            within(done, page + fed(block_lines(Block::Table(rows))), false),
        ),
        no_end(rows_pieces(uri, rows)),
        are_visible(block_lines(Block::Table(rows))),
    decreases rows.len(),
{
    reveal_names();
    let lines = block_lines(Block::Table(rows));
    if rows.len() == 0 {
        assert(page + fed(lines) =~= page);
    } else {
        let before = rows.drop_last();
        let last = rows.last();
        let earlier = block_lines(Block::Table(before));
        assert forall|i: int| 0 <= i < before.len() implies (#[trigger] before[i]).len() > 0
            && forall|k: int| 0 <= k < before[i].len() ==> are_shown(#[trigger] before[i][k]) by {
            assert(before[i] == rows[i]);
        }
        lemma_rows(uri, done, page, before);
        let so_far = page + fed(earlier);
        assert(rows[rows.len() - 1] == last);
        lemma_cells(uri, done, so_far, last);
        let a = seq![Piece::Start(tag(uri, "tr"@))];
        let b = cells_pieces(uri, last);
        let c = seq![Piece::End(tag(uri, "tr"@))];
        let start = within(done, so_far, false);
        let tabbed = so_far + row_line(last) + seq!['\t'];
        lemma_one(start, a[0]);
        lemma_one(within(done, tabbed, false), c[0]);
        lemma_follow(start, a, b);
        lemma_follow(start, a + b, c);
        lemma_follow(within(done, page, false), rows_pieces(uri, before), a + b + c);
        lemma_within(done, tabbed, false);
        assert(tabbed.drop_last() =~= so_far + row_line(last));
        assert((so_far + row_line(last)).last() == row_line(last).last());
        assert(lines.drop_last() =~= earlier);
        assert(lines.last() == row_line(last));
        assert(docx::row_ended(tabbed) =~= page + fed(lines));
        assert forall|i: int| 0 <= i < lines.len() implies (#[trigger] lines[i]).len() > 0 && '!'
            <= lines[i][0] <= '~' && '!' <= lines[i].last() <= '~' by {
            if i < earlier.len() {
                assert(lines[i] == earlier[i]);
            }
        }
    }
}

proof fn lemma_block(uri: Seq<char>, done: Seq<Seq<char>>, page: Seq<char>, block: Block)
    requires
        is_word_uri(uri),
        is_block(block),
        page.len() == 0 || page.last() == '\n',
    ensures
        follow(within(done, page, false), block_pieces(uri, block)) == Ok::<Reading, Wrong>(
            within(done, page + fed(block_lines(block)), false),
        ),
        no_end(block_pieces(uri, block)),
        are_visible(block_lines(block)),
{
    reveal_names();
    let start = within(done, page, false);
    let lines = block_lines(block);
    match block {
        Block::Paragraph(items) => {
            lemma_paragraph(uri, done, page, items);
            assert(lines.drop_last() =~= Seq::<Seq<char>>::empty());
            assert(fed(lines.drop_last()) =~= Seq::<char>::empty());
            assert(page + items_text(items) + seq!['\n'] =~= page + fed(lines));
        },
        Block::Blank => {
            lemma_two(start, Piece::Start(tag(uri, "p"@)), Piece::End(tag(uri, "p"@)));
            lemma_within(done, page, false);
            assert(content::line_ended(page) == page);
            assert(page + fed(lines) =~= page);
        },
        Block::Table(rows) => {
            let a = seq![Piece::Start(tag(uri, "tbl"@))];
            let b = rows_pieces(uri, rows);
            let c = seq![Piece::End(tag(uri, "tbl"@))];
            lemma_one(start, a[0]);
            lemma_rows(uri, done, page, rows);
            lemma_one(within(done, page + fed(lines), false), c[0]);
            lemma_follow(start, a, b);
            lemma_follow(start, a + b, c);
        },
    }
}

proof fn lemma_fed_ends(lines: Seq<Seq<char>>)
    ensures
        fed(lines).len() == 0 || fed(lines).last() == '\n',
{
}

proof fn lemma_blocks(uri: Seq<char>, done: Seq<Seq<char>>, blocks: Seq<Block>)
    requires
        is_word_uri(uri),
        forall|i: int| 0 <= i < blocks.len() ==> is_block(#[trigger] blocks[i]),
    ensures
        follow(within(done, Seq::empty(), false), blocks_pieces(uri, blocks)) == Ok::<
            Reading,
            Wrong,
        >(within(done, fed(page_lines(blocks)), false)),
        no_end(blocks_pieces(uri, blocks)),
        are_visible(page_lines(blocks)),
    decreases blocks.len(),
{
    if blocks.len() > 0 {
        let before = blocks.drop_last();
        lemma_blocks(uri, done, before);
        let earlier = page_lines(before);
        let so_far = fed(earlier);
        lemma_fed_ends(earlier);
        assert(is_block(blocks[blocks.len() - 1]));
        lemma_block(uri, done, so_far, blocks.last());
        lemma_follow(
            within(done, Seq::empty(), false),
            blocks_pieces(uri, before),
            block_pieces(uri, blocks.last()),
        );
        lemma_fed(earlier, block_lines(blocks.last()));
    }
}

proof fn lemma_visible_end(lines: Seq<Seq<char>>)
    requires
        lines.len() > 0,
        are_visible(lines),
    ensures
        lined(lines).len() > 0,
        '!' <= lined(lines)[0] <= '~',
        text::trimmed_end(fed(lines)) == lined(lines),
        text::trimmed_end(lined(lines)) == lined(lines),
        text::trimmed(lined(lines)).len() > 0,
    decreases lines.len(),
{
    let s = lined(lines);
    lemma_lined(lines);
    assert(lines[lines.len() - 1] == lines.last());
    assert(lines[0].len() > 0);
    if lines.len() > 1 {
        let before = lines.drop_last();
        assert forall|i: int| 0 <= i < before.len() implies (#[trigger] before[i]).len() > 0 && '!'
            <= before[i][0] <= '~' && '!' <= before[i].last() <= '~' by {
            assert(before[i] == lines[i]);
        }
        lemma_visible_end(before);
        assert(s[0] == lined(before)[0]);
    }
    assert(s.last() == lines.last().last());
    assert(fed(lines).drop_last() =~= s);
    reveal_with_fuel(text::trimmed_end, 2);
    reveal_with_fuel(text::trimmed_start, 1);
    assert(text::trimmed_start(s) == s);
}

proof fn lemma_turn(uri: Seq<char>, done: Seq<Seq<char>>, lines: Seq<Seq<char>>, turn: Turn)
    requires
        is_word_uri(uri),
        is_turn(turn),
        lines.len() > 0,
        are_visible(lines),
    ensures
        follow(within(done, fed(lines), false), turn_pieces(uri, turn)) == Ok::<Reading, Wrong>(
            within(done.push(lined(lines)), Seq::empty(), false),
        ),
        no_end(turn_pieces(uri, turn)),
{
    reveal_names();
    let start = within(done, fed(lines), false);
    let pieces = turn_pieces(uri, turn);
    lemma_three(start, pieces[0], pieces[1], pieces[2]);
    lemma_within(done, fed(lines), false);
    lemma_within(done.push(lined(lines)), Seq::empty(), false);
    lemma_visible_end(lines);
    assert(done.push(fed(lines)).drop_last().push(lined(lines)) =~= done.push(lined(lines)));
    let none = Seq::<char>::empty();
    let turned = within(done.push(lined(lines)), none, false);
    assert(start.page_ended(true) == turned);
    assert(start.page_ended(false) == turned);
    assert(content::line_ended(none) == none);
    assert(turned.with_page(none) == turned);
    assert(turned.after(pieces[2]) == Ok::<Reading, Wrong>(turned));
    assert(start.after(pieces[0]) == Ok::<Reading, Wrong>(start));
    assert(start.after(pieces[1]) == Ok::<Reading, Wrong>(turned));
    assert(pieces =~= seq![pieces[0], pieces[1], pieces[2]]);
}

/// The pages but the last.
spec fn read_pages(pages: Seq<Seq<Block>>) -> Seq<Seq<char>> {
    Seq::new(pages.len(), |i: int| lined(page_lines(pages[i])))
}

proof fn lemma_pages(uri: Seq<char>, pages: Seq<Seq<Block>>, turns: Seq<Turn>)
    requires
        is_word_uri(uri),
        pages.len() > 0,
        turns.len() >= pages.len() - 1,
        forall|i: int| 0 <= i < pages.len() ==> is_page(#[trigger] pages[i]),
        forall|i: int| 0 <= i < turns.len() ==> is_turn(#[trigger] turns[i]),
    ensures
        follow(
            within(Seq::empty(), Seq::empty(), false),
            pages_pieces(uri, pages, turns),
        ) == Ok::<Reading, Wrong>(
            within(read_pages(pages.drop_last()), fed(page_lines(pages.last())), false),
        ),
        no_end(pages_pieces(uri, pages, turns)),
        are_visible(page_lines(pages.last())),
    decreases pages.len(),
{
    let start = within(Seq::empty(), Seq::empty(), false);
    assert(is_page(pages[pages.len() - 1]));
    if pages.len() == 1 {
        lemma_blocks(uri, Seq::empty(), pages[0]);
        assert(read_pages(pages.drop_last()) =~= Seq::<Seq<char>>::empty());
    } else {
        let before = pages.drop_last();
        lemma_pages(uri, before, turns);
        let done = read_pages(before.drop_last());
        let lines = page_lines(before.last());
        let turn = turns[pages.len() - 2];
        assert(is_page(before[before.len() - 1]));
        lemma_turn(uri, done, lines, turn);
        assert(done.push(lined(lines)) =~= read_pages(before));
        lemma_blocks(uri, read_pages(before), pages.last());
        let a = pages_pieces(uri, before, turns);
        let b = turn_pieces(uri, turn);
        lemma_follow(start, a, b);
        lemma_follow(start, a + b, blocks_pieces(uri, pages.last()));
    }
}

/// The pages of a document are read as their lines: a line for each paragraph and
/// for each row of a table, the cells of a row with tabs between them, the lines
/// of a page with line feeds between them. Tabs, line breaks, character data and
/// the characters that XML has a name for stand in a line as what they mean. A
/// page break, or a paragraph that is to begin a page, begins a page.
pub proof fn law_document_is_read_line_by_line(
    uri: Seq<char>,
    pages: Seq<Seq<Block>>,
    turns: Seq<Turn>,
)
    requires
        is_word_uri(uri),
        pages.len() > 0,
        turns.len() == pages.len() - 1,
        forall|i: int| 0 <= i < pages.len() ==> is_page(#[trigger] pages[i]),
        forall|i: int| 0 <= i < turns.len() ==> is_turn(#[trigger] turns[i]),
    ensures
        docx::pages_from(document_pieces(uri, pages, turns), 0, docx::unread()) == Ok::<
            Seq<Seq<char>>,
            Wrong,
        >(Seq::new(pages.len(), |i: int| lined(page_lines(pages[i])))),
{
    reveal_names();
    let all = document_pieces(uri, pages, turns);
    let a = seq![Piece::Start(tag(uri, "document"@)), Piece::Start(tag(uri, "body"@))];
    let b = pages_pieces(uri, pages, turns);
    let c = seq![Piece::End(tag(uri, "body"@)), Piece::End(tag(uri, "document"@))];
    lemma_pages(uri, pages, turns);
    let last = page_lines(pages.last());
    let done = read_pages(pages.drop_last());
    lemma_two(docx::unread(), a[0], a[1]);
    assert(docx::unread().pages =~= within(Seq::empty(), Seq::empty(), false).pages);
    lemma_two(within(done, fed(last), false), c[0], c[1]);
    lemma_follow(docx::unread(), a, b);
    lemma_follow(docx::unread(), a + b, c);
    let pieces = a + b + c;
    assert forall|k: int| 0 <= k < pieces.len() implies all[0 + k] == Some(#[trigger] pieces[k]) by {
    }
    assert forall|k: int| 0 <= k < pieces.len() implies !(#[trigger] pieces[k] is Eof) by {
        if 2 <= k < 2 + b.len() {
            assert(pieces[k] == b[k - 2]);
        }
    }
    lemma_pages_from(all, pieces, 0, docx::unread());
    let reading = Reading { in_body: false, ..within(done, fed(last), false) };
    assert(follow(docx::unread(), pieces) == Ok::<Reading, Wrong>(reading));
    assert(all[pieces.len() as int] == Some(Piece::Eof));
    assert(is_page(pages[pages.len() - 1]));
    lemma_visible_end(last);
    lemma_not_blank(last);
    let n = pages.len() as int;
    assert(reading.pages[n - 1] == fed(last));
    assert forall|i: int| 0 <= i < n implies text::trimmed_end(reading.pages[i]) == lined(
        page_lines(pages[i]),
    ) by {
        assert(is_page(pages[i]));
        if i < n - 1 {
            assert(reading.pages[i] == lined(page_lines(pages[i])));
            lemma_blocks(uri, Seq::empty(), pages[i]);
            lemma_visible_end(page_lines(pages[i]));
        }
    }
    assert(reading.finished()->Ok_0 =~= Seq::new(
        pages.len(),
        |i: int| lined(page_lines(pages[i])),
    ));
}

proof fn lemma_not_blank(lines: Seq<Seq<char>>)
    requires
        lines.len() > 0,
        are_visible(lines),
    ensures
        text::trimmed(fed(lines)).len() > 0,
{
    lemma_visible_end(lines);
    lemma_lined(lines);
    assert(fed(lines)[0] == lined(lines)[0]);
    reveal_with_fuel(text::trimmed_start, 1);
    assert(text::trimmed_start(fed(lines)) == fed(lines));
}

/// Tags that belong to no word processing document mean nothing, and neither does
/// text outside of the body or outside of the tags for text. Pictures, drawings,
/// embedded objects, headers, footers and notes within the body are refused, and
/// so is a document type.
pub proof fn law_other_content_is_left_out_or_refused(reading: Reading, uri: Seq<char>, piece: Piece)
    ensures
        (piece is Start || piece is Empty || piece is End) && ({
            let found = match piece {
                Piece::Start(tag) | Piece::Empty(tag) | Piece::End(tag) => tag.namespace,
                _ => None,
            };
            found is None || !is_word_uri(found->0)
        }) ==> reading.after(piece) == Ok::<Reading, Wrong>(reading),
        (piece is Text || piece is CData || piece is Reference) && !reading.in_text
            ==> reading.after(piece) == Ok::<Reading, Wrong>(reading),
        (piece is Comment || piece is Instruction || piece is Declaration) ==> reading.after(piece)
            == Ok::<Reading, Wrong>(reading),
        piece is DocType ==> reading.after(piece) == Err::<Reading, Wrong>(Wrong::InvalidDocument),
        is_word_uri(uri) && reading.in_body ==> forall|name: Seq<char>|
            (name == "drawing"@ || name == "pict"@ || name == "object"@ || name
                == "headerReference"@ || name == "footerReference"@ || name
                == "footnoteReference"@ || name == "endnoteReference"@) ==> (#[trigger] tag(
                uri,
                name,
            ) == tag(uri, name) && reading.after(Piece::Start(tag(uri, name))) == Err::<
                Reading,
                Wrong,
            >(Wrong::UnsupportedVisualContent) && reading.after(Piece::Empty(tag(uri, name)))
                == Err::<Reading, Wrong>(Wrong::UnsupportedVisualContent)),
{
    reveal_names();
}

} // verus!
