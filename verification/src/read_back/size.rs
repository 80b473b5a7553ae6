//! How many bytes a written file has at most.

use vstd::prelude::*;
use vstd::utf8::*;

use crate::bytes;
use crate::pdf::object::MAX_STREAM_BYTES;
use crate::pdf::selection::MAX_PAGES;
use crate::pdf_out::Draft;
use crate::pdf_writer;
use crate::pdf_writer::{page_number, DESCENDANT_FONT, LATIN_FONT};
use crate::read_back::font_map;
use crate::read_back::tokens::MOST;

verus! {

/// What stands round the body of an object is short.
proof fn lemma_object(draft: Draft, body: Seq<u8>)
    requires
        draft.offsets.len() <= 100_000,
    ensures
        draft.with_object(body).bytes.len() <= draft.bytes.len() + body.len() + 40,
        draft.with_object(body).offsets.len() == draft.offsets.len() + 1,
{
    bytes::lemma_digits((draft.offsets.len() + 1) as nat);
    reveal_strlit(" 0 obj\n");
    reveal_strlit("\nendobj\n");
    is_ascii_chars_encode_utf8(" 0 obj\n"@);
    is_ascii_chars_encode_utf8("\nendobj\n"@);
}

proof fn lemma_stream(data: Seq<u8>)
    requires
        data.len() <= MAX_STREAM_BYTES,
    ensures
        pdf_writer::stream_body(data).len() <= data.len() + 100,
{
    bytes::lemma_digits(data.len());
    reveal_strlit("<< /Length ");
    reveal_strlit(" >>\nstream\n");
    reveal_strlit("\nendstream");
    is_ascii_chars_encode_utf8("<< /Length "@);
    is_ascii_chars_encode_utf8(" >>\nstream\n"@);
    is_ascii_chars_encode_utf8("\nendstream"@);
}

proof fn lemma_kids(n: int)
    requires
        0 <= n <= MAX_PAGES,
    ensures
        pdf_writer::kids(n).len() <= 25 * n,
    decreases n,
{
    reveal_strlit(" ");
    reveal_strlit(" 0 R");
    is_ascii_chars_encode_utf8(" "@);
    is_ascii_chars_encode_utf8(" 0 R"@);
    if n > 0 {
        bytes::lemma_digits(page_number(n - 1) as nat);
        lemma_kids(n - 1);
    }
}

proof fn lemma_lists(count: int, index: int)
    requires
        0 <= index < count <= MAX_PAGES,
    ensures
        pdf_writer::pages_body(count).len() <= 300_000,
        pdf_writer::page_body(count, index).len() <= 500,
        pdf_writer::font_body(count).len() <= 500,
{
    reveal(pdf_writer::pages_body);
    reveal(pdf_writer::page_body);
    reveal(pdf_writer::font_body);
    lemma_kids(count);
    bytes::lemma_digits(count as nat);
    bytes::lemma_digits(page_number(count) as nat);
    bytes::lemma_digits((page_number(count) + 1) as nat);
    bytes::lemma_digits((page_number(count) + 2) as nat);
    bytes::lemma_digits((page_number(count) + 3) as nat);
    bytes::lemma_digits((page_number(index) + 1) as nat);
    reveal_strlit("<< /Type /Pages /Kids [");
    reveal_strlit("] /Count ");
    reveal_strlit(" >>");
    reveal_strlit("<< /Type /Page /Parent 2 0 R /MediaBox [0 0 612 792] /Resources << /Font << /F1 ");
    reveal_strlit(" 0 R /F2 ");
    reveal_strlit(" 0 R >> >> /Contents ");
    reveal_strlit(" 0 R >>");
    reveal_strlit("<< /Type /Font /Subtype /Type0 /BaseFont /STSong-Light /Encoding /UniGB-UCS2-H /DescendantFonts [");
    reveal_strlit(" 0 R] /ToUnicode ");
    is_ascii_chars_encode_utf8("<< /Type /Pages /Kids ["@);
    is_ascii_chars_encode_utf8("] /Count "@);
    is_ascii_chars_encode_utf8(" >>"@);
    is_ascii_chars_encode_utf8("<< /Type /Page /Parent 2 0 R /MediaBox [0 0 612 792] /Resources << /Font << /F1 "@);
    is_ascii_chars_encode_utf8(" 0 R /F2 "@);
    is_ascii_chars_encode_utf8(" 0 R >> >> /Contents "@);
    is_ascii_chars_encode_utf8(" 0 R >>"@);
    is_ascii_chars_encode_utf8("<< /Type /Font /Subtype /Type0 /BaseFont /STSong-Light /Encoding /UniGB-UCS2-H /DescendantFonts ["@);
    is_ascii_chars_encode_utf8(" 0 R] /ToUnicode "@);
}

proof fn lemma_fonts()
    ensures
        encode_utf8(DESCENDANT_FONT@).len() <= 500,
        encode_utf8(LATIN_FONT@).len() <= 500,
{
    reveal_strlit("<< /Type /Font /Subtype /CIDFontType0 /BaseFont /STSong-Light /CIDSystemInfo << /Registry (Adobe) /Ordering (GB1) /Supplement 4 >> /DW 1000 >>");
    reveal_strlit("<< /Type /Font /Subtype /Type1 /BaseFont /Helvetica /Encoding /WinAnsiEncoding >>");
    is_ascii_chars_encode_utf8(DESCENDANT_FONT@);
    is_ascii_chars_encode_utf8(LATIN_FONT@);
}

/// Every page adds its stream and little more.
proof fn lemma_pages(written: Seq<Seq<char>>, n: int)
    requires
        0 <= n <= written.len(),
        0 < written.len() <= MAX_PAGES,
        forall|k: int|
            0 <= k < written.len() ==> pdf_writer::page_stream_spec(#[trigger] written[k]).len()
                <= MAX_STREAM_BYTES,
    ensures
        pdf_writer::with_pages(written, n).bytes.len() <= 400_000 + n * (MAX_STREAM_BYTES + 1_000),
        pdf_writer::with_pages(written, n).offsets.len() == 2 + 2 * n,
    decreases n,
{
    let count = written.len() as int;
    if n <= 0 {
        reveal_strlit("%PDF-1.7\n%");
        reveal_strlit("<< /Type /Catalog /Pages 2 0 R >>");
        is_ascii_chars_encode_utf8("%PDF-1.7\n%"@);
        is_ascii_chars_encode_utf8("<< /Type /Catalog /Pages 2 0 R >>"@);
        lemma_lists(count, 0);
        let begun = Draft::begun(pdf_writer::header());
        let catalog = encode_utf8("<< /Type /Catalog /Pages 2 0 R >>"@);
        lemma_object(begun, catalog);
        lemma_object(begun.with_object(catalog), pdf_writer::pages_body(count));
    } else {
        lemma_pages(written, n - 1);
        lemma_lists(count, n - 1);
        let before = pdf_writer::with_pages(written, n - 1);
        let page = pdf_writer::page_body(count, n - 1);
        let data = pdf_writer::page_stream_spec(written[n - 1]);
        lemma_stream(data);
        lemma_object(before, page);
        lemma_object(before.with_object(page), pdf_writer::stream_body(data));
    }
}

/// The places in a file of pages that can be read are exact numbers.
pub proof fn lemma_file_size(written: Seq<Seq<char>>)
    requires
        0 < written.len() <= MAX_PAGES,
        forall|k: int|
            0 <= k < written.len() ==> pdf_writer::page_stream_spec(#[trigger] written[k]).len()
                <= MAX_STREAM_BYTES,
    ensures
        pdf_writer::pages_draft(written).bytes.len() <= MOST,
{
    let count = written.len() as int;
    lemma_pages(written, count);
    lemma_lists(count, 0);
    font_map::lemma_map_size(written);
    lemma_stream(pdf_writer::unicode_map(written));
    lemma_fonts();
    let a = pdf_writer::with_pages(written, count);
    let b = a.with_object(pdf_writer::font_body(count));
    let c = b.with_object(encode_utf8(DESCENDANT_FONT@));
    let d = c.with_object(pdf_writer::stream_body(pdf_writer::unicode_map(written)));
    lemma_object(a, pdf_writer::font_body(count));
    lemma_object(b, encode_utf8(DESCENDANT_FONT@));
    lemma_object(c, pdf_writer::stream_body(pdf_writer::unicode_map(written)));
    lemma_object(d, encode_utf8(LATIN_FONT@));
}

} // verus!
