//! Where the objects of written texts stand, and what they are read as.

use vstd::prelude::*;
use vstd::utf8::*;

use crate::bytes;
use crate::pdf::document;
use crate::pdf::error::Failure;
use crate::pdf::lexer;
use crate::pdf::lexer::Lexeme;
use crate::pdf::number;
use crate::pdf::object;
use crate::pdf::object::{Thing, MAX_STREAM_BYTES};
use crate::pdf::value;
use crate::pdf::value::Datum;
use crate::pdf_out;
use crate::pdf_out::Draft;
use crate::pdf_writer;
use crate::pdf_writer::{DESCENDANT_FONT, LATIN_FONT};
use crate::read_back::page_text::lemma_parts;
use crate::read_back::tokens;
use crate::read_back::tokens::{at, gap, whole};
use crate::read_back::values;
use crate::read_back::values::{dict, is_token, is_value, stands};

verus! {

/// The object of that number with that body.
pub open spec fn object_text(number: int, body: Seq<u8>) -> Seq<u8> {
    pdf_out::object_start(number) + body + pdf_out::object_end()
}

/// The first `n` objects with those bodies.
pub open spec fn objects_text(list: Seq<Seq<u8>>, n: int) -> Seq<u8>
    decreases n,
{
    if n <= 0 {
        Seq::empty()
    } else {
        objects_text(list, n - 1) + object_text(n, list[n - 1])
    }
}

/// Where the object behind the first `n` begins.
pub open spec fn start_of(list: Seq<Seq<u8>>, n: int) -> int {
    (pdf_writer::header().len() + objects_text(list, n).len()) as int
}

/// A draft holds the objects with those bodies.
pub open spec fn laid(draft: Draft, list: Seq<Seq<u8>>) -> bool {
    &&& draft.bytes == pdf_writer::header() + objects_text(list, list.len() as int)
    &&& draft.offsets.len() == list.len()
    &&& forall|i: int| 0 <= i < list.len() ==> #[trigger] draft.offsets[i] == start_of(list, i)
}

proof fn lemma_same_objects(list: Seq<Seq<u8>>, more: Seq<u8>, n: int)
    requires
        0 <= n <= list.len(),
    ensures
        objects_text(list.push(more), n) == objects_text(list, n),
    decreases n,
{
    if n > 0 {
        lemma_same_objects(list, more, n - 1);
    }
}

proof fn lemma_laid(draft: Draft, list: Seq<Seq<u8>>, body: Seq<u8>)
    requires
        laid(draft, list),
    ensures
        laid(draft.with_object(body), list.push(body)),
{
    let next = draft.with_object(body);
    let n = list.len() as int;
    let more = list.push(body);
    lemma_same_objects(list, body, n);
    assert(more[n] == body);
    assert(objects_text(more, n + 1) == objects_text(list, n) + object_text(n + 1, body));
    assert(next.bytes =~= pdf_writer::header() + objects_text(more, n + 1));
    assert forall|i: int| 0 <= i < more.len() implies #[trigger] next.offsets[i] == start_of(
        more,
        i,
    ) by {
        lemma_same_objects(list, body, i);
        if i < n {
            assert(next.offsets[i] == draft.offsets[i]);
        }
    }
}

/// The bodies of the objects up to those of page `n`.
pub open spec fn page_bodies(pages: Seq<Seq<char>>, n: int) -> Seq<Seq<u8>>
    decreases n,
{
    if n <= 0 {
        seq![encode_utf8("<< /Type /Catalog /Pages 2 0 R >>"@)].push(
            pdf_writer::pages_body(pages.len() as int),
        )
    } else {
        page_bodies(pages, n - 1).push(pdf_writer::page_body(pages.len() as int, n - 1)).push(
            pdf_writer::stream_body(pdf_writer::page_stream_spec(pages[n - 1])),
        )
    }
}

/// The bodies of all objects.
pub open spec fn all_bodies(pages: Seq<Seq<char>>) -> Seq<Seq<u8>> {
    page_bodies(pages, pages.len() as int).push(pdf_writer::font_body(pages.len() as int)).push(
        encode_utf8(DESCENDANT_FONT@),
    ).push(pdf_writer::stream_body(pdf_writer::unicode_map(pages))).push(encode_utf8(LATIN_FONT@))
}

proof fn lemma_pages_laid(pages: Seq<Seq<char>>, n: int)
    requires
        0 <= n <= pages.len(),
    ensures
        laid(pdf_writer::with_pages(pages, n), page_bodies(pages, n)),
        page_bodies(pages, n).len() == 2 + 2 * n,
    decreases n,
{
    let count = pages.len() as int;
    if n <= 0 {
        let a = Draft::begun(pdf_writer::header());
        let none = Seq::<Seq<u8>>::empty();
        let catalog = encode_utf8("<< /Type /Catalog /Pages 2 0 R >>"@);
        assert(objects_text(none, 0) =~= Seq::<u8>::empty());
        assert(a.bytes =~= pdf_writer::header() + objects_text(none, 0));
        lemma_laid(a, none, catalog);
        assert(none.push(catalog) =~= seq![catalog]);
        lemma_laid(a.with_object(catalog), seq![catalog], pdf_writer::pages_body(count));
    } else {
        lemma_pages_laid(pages, n - 1);
        let a = pdf_writer::with_pages(pages, n - 1);
        let list = page_bodies(pages, n - 1);
        let page = pdf_writer::page_body(count, n - 1);
        let stream = pdf_writer::stream_body(pdf_writer::page_stream_spec(pages[n - 1]));
        lemma_laid(a, list, page);
        lemma_laid(a.with_object(page), list.push(page), stream);
    }
}

/// A written file holds its objects one after the other.
pub proof fn lemma_all_laid(pages: Seq<Seq<char>>)
    ensures
        laid(pdf_writer::pages_draft(pages), all_bodies(pages)),
        all_bodies(pages).len() == 2 * pages.len() + 6,
{
    let count = pages.len() as int;
    lemma_pages_laid(pages, count);
    let a = pdf_writer::with_pages(pages, count);
    let la = page_bodies(pages, count);
    let font = pdf_writer::font_body(count);
    let descendant = encode_utf8(DESCENDANT_FONT@);
    let map = pdf_writer::stream_body(pdf_writer::unicode_map(pages));
    let latin = encode_utf8(LATIN_FONT@);
    lemma_laid(a, la, font);
    let b = a.with_object(font);
    let lb = la.push(font);
    lemma_laid(b, lb, descendant);
    let c = b.with_object(descendant);
    let lc = lb.push(descendant);
    lemma_laid(c, lc, map);
    let d = c.with_object(map);
    let ld = lc.push(map);
    lemma_laid(d, ld, latin);
}

/// An object's value stands behind `from`, and the object ends at `to`.
pub open spec fn is_object(b: Seq<u8>, from: int, to: int, thing: Thing, xref: Option<usize>) -> bool {
    &&& 0 <= from < to <= b.len()
    &&& !object::has_type(thing.value, Some("ObjStm"@))
    &&& !object::has_type(thing.value, Some("XRef"@))
    &&& match value::value_at(b, at(from), 0) {
        None => false,
        Some((found, after)) => found == thing.value && match object::stream_after(
            b,
            after,
            found,
            xref,
            None,
        ) {
            Err(_) => false,
            Ok((stream, behind)) => stream == thing.stream && document::past_object(b, behind)
                == at(to),
        },
    }
}

/// The keyword that ends an object.
pub proof fn lemma_end(b: Seq<u8>, q: int)
    requires
        bytes::occurs(b, q, pdf_out::object_end()),
    ensures
        pdf_out::object_end().len() == 8,
        is_token(b, q, Lexeme::Keyword("endobj"@), q + 7),
        gap(b, q + 7, q + 8),
        b[q] == 10,
        document::past_object(b, at(q)) == at(q + 7),
        document::past_object(b, lexer::look(b, at(q))) == at(q + 7),
{
    let s = "\nendobj\n"@;
    reveal_strlit("\nendobj\n");
    reveal_strlit("endobj");
    is_ascii_chars_encode_utf8(s);
    tokens::lemma_letters(b, q, s);
    assert(s[0] == '\n' && s[7] == '\n');
    assert(s.subrange(1, 7) =~= "endobj"@);
    values::lemma_keyword_in(b, q, s, 0, 1, "endobj"@);
}

/// A dictionary without a stream.
pub proof fn lemma_plain_object(
    b: Seq<u8>,
    from: int,
    q: int,
    entries: Seq<(Seq<char>, Datum)>,
    xref: Option<usize>,
)
    requires
        is_value(b, from, q, dict(entries), 0),
        bytes::occurs(b, q, pdf_out::object_end()),
        !object::has_type(dict(entries), Some("ObjStm"@)),
        !object::has_type(dict(entries), Some("XRef"@)),
    ensures
        is_object(b, from, q + 7, Thing { value: dict(entries), stream: None }, xref),
{
    lemma_end(b, q);
    reveal_strlit("endobj");
    reveal_strlit("stream");
    assert("endobj"@[0] == 'e' && "stream"@[0] == 's');
}

/// The entries of a stream of that length.
pub open spec fn stream_entries(length: int) -> Seq<(Seq<char>, Datum)> {
    seq![("Length"@, Datum::Number(whole(length)))]
}

pub open spec fn stream_thing(data: Seq<u8>) -> Thing {
    Thing { value: dict(stream_entries(data.len() as int)), stream: Some(data) }
}

/// A stream's dictionary, up to its keyword.
proof fn lemma_stream_head(b: Seq<u8>, from: int, p: int, n: nat) -> (q: int)
    requires
        gap(b, from, p),
        bytes::occurs(
            b,
            p,
            encode_utf8("<< /Length "@) + bytes::decimal(n) + encode_utf8(" >>\nstream\n"@),
        ),
        n <= tokens::MOST,
    ensures
        q == p + 11 + bytes::decimal(n).len() + 3,
        encode_utf8("<< /Length "@).len() == 11,
        encode_utf8(" >>\nstream\n"@).len() == 11,
        is_value(b, from, q, dict(stream_entries(n as int)), 0),
        is_token(b, q, Lexeme::Keyword("stream"@), q + 7),
        q + 8 <= b.len(),
        b[q + 7] == 10,
{
    let s = "<< /Length "@;
    let t = " >>\nstream\n"@;
    let digits = bytes::decimal(n);
    reveal_strlit("<< /Length ");
    reveal_strlit(" >>\nstream\n");
    reveal_strlit("Length");
    reveal_strlit("stream");
    is_ascii_chars_encode_utf8(s);
    is_ascii_chars_encode_utf8(t);
    lemma_parts(b, p, encode_utf8(s) + digits, encode_utf8(t));
    lemma_parts(b, p, encode_utf8(s), digits);
    let p1 = p + 11;
    let p2 = p1 + digits.len();
    tokens::lemma_letters(b, p, s);
    tokens::lemma_letters(b, p2, t);
    assert(s[0] == '<' && s[1] == '<' && s[2] == ' ' && s[3] == '/' && s[10] == ' ');
    assert(t[0] == ' ' && t[1] == '>' && t[2] == '>' && t[3] == '\n' && t[10] == '\n');
    tokens::lemma_mark(b, from, p);
    assert(s.subrange(4, 10) =~= "Length"@);
    values::lemma_name_in(b, p, s, 2, 3, "Length"@);
    tokens::lemma_decimal(b, p + 10, p1, n);
    values::lemma_mark_in(b, p2, t, 0, 1);
    assert(t.subrange(4, 10) =~= "stream"@);
    values::lemma_keyword_in(b, p2, t, 3, 4, "stream"@);
    values::lemma_number_value(b, p + 10, p2, whole(n as int), 1);
    let d = stream_entries(n as int);
    values::lemma_entry(b, p + 2, p + 10, p2, 1, d, 0);
    values::lemma_dict_end(b, p2, p2 + 3, 1, d);
    values::lemma_dict_value(b, from, p + 2, p2 + 3, 0, d);
    p2 + 3
}

/// A stream.
pub proof fn lemma_stream_object(
    b: Seq<u8>,
    from: int,
    p: int,
    data: Seq<u8>,
    xref: Option<usize>,
)
    requires
        gap(b, from, p),
        bytes::occurs(b, p, pdf_writer::stream_body(data) + pdf_out::object_end()),
        data.len() <= MAX_STREAM_BYTES,
    ensures
        is_object(
            b,
            from,
            p + pdf_writer::stream_body(data).len() + 7,
            stream_thing(data),
            xref,
        ),
{
    let n = data.len();
    let digits = bytes::decimal(n);
    let a = encode_utf8("<< /Length "@);
    let c = encode_utf8(" >>\nstream\n"@);
    let tail = "\nendstream"@;
    let e = encode_utf8(tail);
    let body = pdf_writer::stream_body(data);
    lemma_parts(b, p, body, pdf_out::object_end());
    lemma_parts(b, p, a + digits + c + data, e);
    lemma_parts(b, p, a + digits + c, data);
    let q = lemma_stream_head(b, from, p, n);
    let start = q + 8;
    let stop = start + n;
    reveal_strlit("\nendstream");
    reveal_strlit("endstream");
    reveal_strlit("stream");
    reveal_strlit("Length");
    is_ascii_chars_encode_utf8(tail);
    tokens::lemma_letters(b, stop, tail);
    assert(tail[0] == '\n');
    assert(tail.subrange(1, 10) =~= "endstream"@);
    let done = stop + 10;
    lemma_end(b, done);
    assert(stands(b, stop, tail));
    lemma_spelled(b, stop, tail, 1, "endstream"@);
    tokens::lemma_keyword(b, stop, stop + 1, "endstream"@);
    let value = dict(stream_entries(n as int));
    lemma_stream_lookup(n as int);
    tokens::lemma_bounded(n as int, MAX_STREAM_BYTES as int);
    assert(object::length_of(whole(n as int)) == Ok::<usize, Failure>(n as usize));
    assert(b.subrange(start, stop) == data);
}

proof fn lemma_spelled(b: Seq<u8>, pos: int, s: Seq<char>, k: int, word: Seq<char>)
    requires
        stands(b, pos, s),
        0 <= k,
        k + word.len() <= s.len(),
        s.subrange(k, k + word.len()) == word,
        values::is_letters(word),
    ensures
        tokens::spells(b, pos + k, word, word.len() as int),
{
    values::lemma_spells_in(b, pos, s, k, word, word.len() as int);
}

/// What a stream's dictionary holds.
pub proof fn lemma_stream_lookup(length: int)
    ensures
        value::entry(filled_stream(length), "Length"@) == Some(Datum::Number(whole(length))),
        value::entry(filled_stream(length), "Type"@) is None,
        value::entry(filled_stream(length), "Filter"@) is None,
        !object::has_type(dict(stream_entries(length)), Some("ObjStm"@)),
        !object::has_type(dict(stream_entries(length)), Some("XRef"@)),
{
    let d = stream_entries(length);
    reveal_strlit("Length");
    reveal_strlit("Type");
    reveal_strlit("Filter");
    assert("Length"@[0] == 'L' && "Type"@[0] == 'T' && "Filter"@[0] == 'F');
    values::lemma_sought(d, 1, "Length"@);
    values::lemma_sought(d, 1, "Type"@);
    values::lemma_sought(d, 1, "Filter"@);
    reveal_with_fuel(values::sought, 2);
}

pub open spec fn filled_stream(length: int) -> Seq<(Seq<u8>, Datum)> {
    values::filled(stream_entries(length), 1)
}

} // verus!
