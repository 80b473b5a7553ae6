//! What is counted in a document.

use vstd::prelude::*;

use crate::docx_layout;
use crate::docx_layout::{is_in, Survey, Tally, DRAWING_NS, MARKUP_NS, WORD_NS};
use crate::xml::{Piece, Tag};

verus! {

/// What is counted.
pub enum Counted {
    Paragraph,
    FloatingAnchor,
    InlineDrawing,
    TextBox,
    FallbackTextBox,
    AlternateContent,
    SectionProperties,
    NumberedParagraph,
}

/// How many there are.
pub open spec fn amount(tally: Tally, counted: Counted) -> int {
    match counted {
        Counted::Paragraph => tally.paragraphs as int,
        Counted::FloatingAnchor => tally.floating_anchors as int,
        Counted::InlineDrawing => tally.inline_drawings as int,
        Counted::TextBox => tally.text_boxes as int,
        Counted::FallbackTextBox => tally.fallback_text_boxes as int,
        Counted::AlternateContent => tally.alternate_content as int,
        Counted::SectionProperties => tally.section_properties as int,
        Counted::NumberedParagraph => tally.numbered_paragraphs as int,
    }
}

/// The element that stands for what is counted.
pub open spec fn is_mark(tag: Tag, counted: Counted) -> bool {
    match counted {
        Counted::Paragraph => is_in(tag, WORD_NS@) && tag.name == "p"@,
        Counted::FloatingAnchor => is_in(tag, DRAWING_NS@) && tag.name == "anchor"@,
        Counted::InlineDrawing => is_in(tag, DRAWING_NS@) && tag.name == "inline"@,
        Counted::TextBox => is_in(tag, WORD_NS@) && tag.name == "txbxContent"@,
        Counted::FallbackTextBox => is_in(tag, WORD_NS@) && tag.name == "txbxContent"@,
        Counted::AlternateContent => is_in(tag, MARKUP_NS@) && tag.name == "AlternateContent"@,
        Counted::SectionProperties => is_in(tag, WORD_NS@) && tag.name == "sectPr"@,
        Counted::NumberedParagraph => is_in(tag, WORD_NS@) && tag.name == "numPr"@,
    }
}

/// The `n`-th piece stands in the body: the last border of it before was its
/// start.
pub open spec fn in_body(pieces: Seq<Option<Piece>>, n: int) -> bool
    decreases n,
{
    if n <= 0 {
        false
    } else {
        match pieces[n - 1] {
            Some(Piece::Start(tag)) => if is_in(tag, WORD_NS@) && tag.name == "body"@ {
                true
            } else {
                in_body(pieces, n - 1)
            },
            Some(Piece::Empty(tag)) | Some(Piece::End(tag)) => if is_in(tag, WORD_NS@) && tag.name
                == "body"@ {
                false
            } else {
                in_body(pieces, n - 1)
            },
            _ => in_body(pieces, n - 1),
        }
    }
}

/// The `n`-th piece stands in a fallback of the body.
pub open spec fn in_fallback(pieces: Seq<Option<Piece>>, n: int) -> bool
    decreases n,
{
    if n <= 0 {
        false
    } else {
        match pieces[n - 1] {
            Some(Piece::Start(tag)) => if is_in(tag, MARKUP_NS@) && tag.name == "Fallback"@
                && in_body(pieces, n - 1) {
                true
            } else {
                in_fallback(pieces, n - 1)
            },
            Some(Piece::Empty(tag)) => if is_in(tag, MARKUP_NS@) && tag.name == "Fallback"@
                && in_body(pieces, n - 1) {
                false
            } else {
                in_fallback(pieces, n - 1)
            },
            Some(Piece::End(tag)) => if is_in(tag, MARKUP_NS@) && tag.name == "Fallback"@ {
                false
            } else {
                in_fallback(pieces, n - 1)
            },
            _ => in_fallback(pieces, n - 1),
        }
    }
}

/// The `n`-th piece is counted: it begins the element, in the body, and outside a
/// fallback unless what is counted stands in one.
pub open spec fn is_counted(pieces: Seq<Option<Piece>>, n: int, counted: Counted) -> bool {
    match pieces[n] {
        Some(Piece::Start(tag)) | Some(Piece::Empty(tag)) => {
            &&& is_mark(tag, counted)
            &&& in_body(pieces, n)
            &&& in_fallback(pieces, n) == (counted is FallbackTextBox)
        },
        _ => false,
    }
}

/// How many of the first `n` pieces are counted.
pub open spec fn count(pieces: Seq<Option<Piece>>, n: int, counted: Counted) -> int
    decreases n,
{
    if n <= 0 {
        0
    } else {
        count(pieces, n - 1, counted) + (if is_counted(pieces, n - 1, counted) {
            1int
        } else {
            0
        })
    }
}

proof fn lemma_count(pieces: Seq<Option<Piece>>, n: int, counted: Counted)
    ensures
        0 <= count(pieces, n, counted),
        n >= 0 ==> count(pieces, n, counted) <= n,
    decreases n,
{
    if n > 0 {
        lemma_count(pieces, n - 1, counted);
    }
}

proof fn lemma_names()
    ensures
        "p"@.len() == 1 && "p"@[0] == 'p',
        "t"@.len() == 1 && "t"@[0] == 't',
        "br"@.len() == 2,
        "body"@.len() == 4,
        "numPr"@.len() == 5,
        "sectPr"@.len() == 6 && "sectPr"@[0] == 's',
        "anchor"@.len() == 6 && "anchor"@[0] == 'a',
        "inline"@.len() == 6 && "inline"@[0] == 'i',
        "Fallback"@.len() == 8,
        "txbxContent"@.len() == 11,
        "AlternateContent"@.len() == 16,
{
    reveal_strlit("p");
    reveal_strlit("t");
    reveal_strlit("br");
    reveal_strlit("body");
    reveal_strlit("numPr");
    reveal_strlit("sectPr");
    reveal_strlit("anchor");
    reveal_strlit("inline");
    reveal_strlit("Fallback");
    reveal_strlit("txbxContent");
    reveal_strlit("AlternateContent");
}

proof fn lemma_namespaces()
    ensures
        WORD_NS@ != MARKUP_NS@,
        WORD_NS@ != DRAWING_NS@,
        MARKUP_NS@ != DRAWING_NS@,
{
    reveal_strlit("http://schemas.openxmlformats.org/wordprocessingml/2006/main");
    reveal_strlit("http://schemas.openxmlformats.org/markup-compatibility/2006");
    reveal_strlit("http://schemas.openxmlformats.org/drawingml/2006/wordprocessingDrawing");
    assert(WORD_NS@.len() == 60 && MARKUP_NS@.len() == 59 && DRAWING_NS@.len() == 70);
}

/// What is known after `n` pieces.
spec fn is_known(pieces: Seq<Option<Piece>>, n: int, seen: Survey, counted: Counted) -> bool {
    &&& seen.in_body == in_body(pieces, n)
    &&& seen.in_fallback == in_fallback(pieces, n)
    &&& amount(seen.tally, counted) == count(pieces, n, counted)
}

proof fn lemma_step(pieces: Seq<Option<Piece>>, n: int, seen: Survey, counted: Counted)
    requires
        0 <= n < pieces.len() < usize::MAX,
        is_known(pieces, n, seen, counted),
        pieces[n] is Some,
        pieces[n] != Some(Piece::Eof),
        seen.with_piece(pieces[n]->0) is Some,
    ensures
        is_known(pieces, n + 1, seen.with_piece(pieces[n]->0)->0, counted),
{
    lemma_names();
    lemma_namespaces();
    lemma_count(pieces, n, counted);
    let next = seen.with_piece(pieces[n]->0)->0;
    match pieces[n]->0 {
        Piece::Start(tag) | Piece::Empty(tag) => {
            let empty = pieces[n]->0 is Empty;
            if is_in(tag, WORD_NS@) && tag.name == "body"@ {
                assert(next.in_body == !empty);
                assert(next.tally == seen.tally);
            }
        },
        Piece::End(tag) => {},
        _ => {},
    }
}

proof fn lemma_survey(pieces: Seq<Option<Piece>>, n: int, seen: Survey, counted: Counted)
    requires
        0 <= n < pieces.len() < usize::MAX,
        is_known(pieces, n, seen, counted),
        pieces.last() == Some(Piece::Eof),
        forall|i: int| 0 <= i < pieces.len() - 1 ==> #[trigger] pieces[i] != Some(Piece::Eof),
        docx_layout::surveyed(pieces, n, seen) is Some,
    ensures
        amount(docx_layout::surveyed(pieces, n, seen)->0.tally, counted) == count(
            pieces,
            pieces.len() - 1,
            counted,
        ),
    decreases pieces.len() - n,
{
    if n < pieces.len() - 1 {
        assert(pieces[n] != Some(Piece::Eof));
        lemma_step(pieces, n, seen, counted);
        lemma_survey(pieces, n + 1, seen.with_piece(pieces[n]->0)->0, counted);
    }
}

/// Every element of the body is counted once, where it begins: paragraphs,
/// anchors, drawings, text boxes, alternatives, sections and numbers outside of
/// fallbacks, and the text boxes of fallbacks apart.
pub proof fn law_elements_of_the_body_are_counted(
    pieces: Seq<Option<Piece>>,
    counted: Counted,
)
    requires
        0 < pieces.len() < usize::MAX,
        pieces.last() == Some(Piece::Eof),
        forall|i: int| 0 <= i < pieces.len() - 1 ==> #[trigger] pieces[i] != Some(Piece::Eof),
        docx_layout::surveyed(pieces, 0, Survey::unseen()) is Some,
    ensures
        amount(docx_layout::surveyed(pieces, 0, Survey::unseen())->0.tally, counted) == count(
            pieces,
            pieces.len() - 1,
            counted,
        ),
{
    lemma_survey(pieces, 0, Survey::unseen(), counted);
}

} // verus!
