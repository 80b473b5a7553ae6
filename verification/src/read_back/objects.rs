//! Reading the objects of written texts.

use vstd::prelude::*;
use vstd::utf8::*;

use crate::bytes;
use crate::pdf::document;
use crate::pdf::error::Failure;
use crate::pdf::lexer;
use crate::pdf::lexer::Lexeme;
use crate::pdf::object;
use crate::pdf::object::{Thing, MAX_STREAM_BYTES};
use crate::pdf_out;
use crate::pdf_writer;
use crate::read_back::bodies;
use crate::read_back::bodies::{
    catalog_entries, descendant_entries, font_entries, latin_entries, page_entries, pages_entries,
};
use crate::read_back::layout;
use crate::read_back::layout::{
    all_bodies, is_object, object_text, objects_text, page_bodies, start_of, stream_thing,
};
use crate::read_back::lookups;
use crate::read_back::page_text::lemma_parts;
use crate::read_back::tokens;
use crate::read_back::tokens::{at, gap, whole};
use crate::read_back::values;
use crate::read_back::values::{dict, is_token};
use crate::table;

verus! {

/// A dictionary as an object.
pub open spec fn plain(entries: Seq<(Seq<char>, crate::pdf::value::Datum)>) -> Thing {
    Thing { value: dict(entries), stream: None }
}

/// What the objects up to those of page `n` are read as.
pub open spec fn page_things(pages: Seq<Seq<char>>, n: int) -> Seq<Thing>
    decreases n,
{
    if n <= 0 {
        seq![plain(catalog_entries())].push(plain(pages_entries(pages.len() as int)))
    } else {
        page_things(pages, n - 1).push(plain(page_entries(pages.len() as int, n - 1))).push(
            stream_thing(pdf_writer::page_stream_spec(pages[n - 1])),
        )
    }
}

/// What all objects are read as.
pub open spec fn all_things(pages: Seq<Seq<char>>) -> Seq<Thing> {
    page_things(pages, pages.len() as int).push(plain(font_entries(pages.len() as int))).push(
        plain(descendant_entries()),
    ).push(stream_thing(pdf_writer::unicode_map(pages))).push(plain(latin_entries()))
}

/// The pages are within the limits of what is read.
pub open spec fn is_readable(pages: Seq<Seq<char>>) -> bool {
    &&& 0 < pages.len() <= 10_000
    &&& pdf_writer::unicode_map(pages).len() <= MAX_STREAM_BYTES
    &&& forall|k: int|
        0 <= k < pages.len() ==> pdf_writer::page_stream_spec(#[trigger] pages[k]).len()
            <= MAX_STREAM_BYTES
}

/// Which objects the first ones are.
pub proof fn lemma_page_list(pages: Seq<Seq<char>>, n: int)
    requires
        0 <= n <= pages.len(),
    ensures
        page_bodies(pages, n).len() == 2 + 2 * n,
        page_things(pages, n).len() == 2 + 2 * n,
        page_bodies(pages, n)[0] == encode_utf8("<< /Type /Catalog /Pages 2 0 R >>"@),
        page_bodies(pages, n)[1] == pdf_writer::pages_body(pages.len() as int),
        page_things(pages, n)[0] == plain(catalog_entries()),
        page_things(pages, n)[1] == plain(pages_entries(pages.len() as int)),
        forall|k: int| #![trigger pages[k]]
            0 <= k < n ==> {
                &&& page_bodies(pages, n)[2 + 2 * k] == pdf_writer::page_body(
                    pages.len() as int,
                    k,
                )
                &&& page_bodies(pages, n)[3 + 2 * k] == pdf_writer::stream_body(
                    pdf_writer::page_stream_spec(pages[k]),
                )
                &&& page_things(pages, n)[2 + 2 * k] == plain(page_entries(pages.len() as int, k))
                &&& page_things(pages, n)[3 + 2 * k] == stream_thing(
                    pdf_writer::page_stream_spec(pages[k]),
                )
            },
    decreases n,
{
    if n > 0 {
        lemma_page_list(pages, n - 1);
    }
}

/// The body of object `i`, counted from zero, is read as the `i`-th of all.
proof fn lemma_body(
    b: Seq<u8>,
    from: int,
    p: int,
    pages: Seq<Seq<char>>,
    i: int,
    xref: Option<usize>,
)
    requires
        is_readable(pages),
        0 <= i < 2 * pages.len() + 6,
        gap(b, from, p),
        bytes::occurs(b, p, all_bodies(pages)[i] + pdf_out::object_end()),
    ensures
        is_object(b, from, p + all_bodies(pages)[i].len() + 7, all_things(pages)[i], xref),
{
    let count = pages.len() as int;
    let body = all_bodies(pages)[i];
    let q = p + body.len();
    lemma_page_list(pages, count);
    lemma_parts(b, p, body, pdf_out::object_end());
    if i < 2 + 2 * count {
        assert(body == page_bodies(pages, count)[i]);
        assert(all_things(pages)[i] == page_things(pages, count)[i]);
    }
    if i == 0 {
        bodies::lemma_catalog(b, from, p);
        lookups::lemma_catalog_holds();
        layout::lemma_plain_object(b, from, q, catalog_entries(), xref);
    } else if i == 1 {
        bodies::lemma_pages(b, from, p, count);
        lookups::lemma_pages_holds(count);
        layout::lemma_plain_object(b, from, q, pages_entries(count), xref);
    } else if i < 2 + 2 * count {
        let k = (i - 2) / 2;
        assert(0 <= k < count);
        let page = pages[k];
        if i == 2 + 2 * k {
            bodies::lemma_page(b, from, p, count, k);
            lookups::lemma_page_holds(count, k);
            layout::lemma_plain_object(b, from, q, page_entries(count, k), xref);
        } else {
            assert(i == 3 + 2 * k);
            layout::lemma_stream_object(
                b,
                from,
                p,
                pdf_writer::page_stream_spec(page),
                xref,
            );
        }
    } else if i == 2 + 2 * count {
        bodies::lemma_font(b, from, p, count);
        lookups::lemma_font_holds(count);
        layout::lemma_plain_object(b, from, q, font_entries(count), xref);
    } else if i == 3 + 2 * count {
        bodies::lemma_descendant(b, from, p);
        lookups::lemma_other_fonts_hold();
        layout::lemma_plain_object(b, from, q, descendant_entries(), xref);
    } else if i == 4 + 2 * count {
        layout::lemma_stream_object(b, from, p, pdf_writer::unicode_map(pages), xref);
    } else {
        bodies::lemma_latin(b, from, p);
        lookups::lemma_other_fonts_hold();
        layout::lemma_plain_object(b, from, q, latin_entries(), xref);
    }
}

/// The first `n` objects by number.
pub open spec fn rows(things: Seq<Thing>, n: int) -> Seq<(u32, Thing)> {
    Seq::new(n as nat, |k: int| ((k + 1) as u32, things[k]))
}

proof fn lemma_rank(list: Seq<(u32, Thing)>, key: u32, i: int)
    requires
        0 <= i <= list.len(),
        forall|k: int| 0 <= k < list.len() ==> (#[trigger] list[k]).0 == k + 1,
        0 < key,
        i <= key - 1 || i == list.len(),
    ensures
        table::rank::<u32, Thing>(list, key, i) == (if key - 1 <= list.len() {
            if i <= key - 1 {
                key - 1
            } else {
                i
            }
        } else {
            list.len() as int
        }),
    decreases list.len() - i,
{
    if i < list.len() {
        assert(list[i].0 == i + 1);
        if i + 1 < key {
            lemma_rank(list, key, i + 1);
        }
    }
}

/// Objects are found by their numbers.
pub proof fn lemma_rows(things: Seq<Thing>, n: int)
    requires
        0 <= n <= things.len(),
        n <= 1_000_000,
    ensures
        rows(things, n).len() == n,
        forall|k: int|
            0 <= k < n ==> object::object_in(rows(things, n), (k + 1) as u32) == Some(
                #[trigger] things[k],
            ),
        n < things.len() ==> table::put::<u32, Thing>(
            rows(things, n),
            (n + 1) as u32,
            things[n],
        ) == rows(things, n + 1),
{
    let list = rows(things, n);
    assert forall|k: int| 0 <= k < n implies object::object_in(list, (k + 1) as u32) == Some(
        #[trigger] things[k],
    ) by {
        lemma_rank(list, (k + 1) as u32, 0);
        assert(list[k] == ((k + 1) as u32, things[k]));
    }
    if n < things.len() {
        lemma_rank(list, (n + 1) as u32, 0);
        assert(table::put::<u32, Thing>(list, (n + 1) as u32, things[n]) =~= rows(things, n + 1));
    }
}

/// The words that begin an object.
proof fn lemma_object_words(b: Seq<u8>, s: int, number: int)
    requires
        0 <= number <= 100_000,
        bytes::occurs(b, s, pdf_out::object_start(number)),
    ensures
        ({
            let d = bytes::decimal(number as nat).len();
            &&& d > 0
            &&& pdf_out::object_start(number).len() == d + 7
            &&& is_token(b, s, Lexeme::Number(whole(number)), s + d)
            &&& is_token(b, s + d, Lexeme::Number(whole(0)), s + d + 2)
            &&& is_token(b, s + d + 2, Lexeme::Keyword("obj"@), s + d + 6)
            &&& gap(b, s + d + 6, s + d + 7)
            &&& 48 <= b[s] <= 57
        }),
{
    let digits = bytes::decimal(number as nat);
    let w = " 0 obj\n"@;
    reveal_strlit(" 0 obj\n");
    reveal_strlit("obj");
    is_ascii_chars_encode_utf8(w);
    lemma_parts(b, s, digits, encode_utf8(w));
    let e = s + digits.len();
    tokens::lemma_letters(b, e, w);
    assert(w[0] == ' ' && w[1] == '0' && w[2] == ' ' && w[6] == '\n');
    tokens::lemma_decimal(b, s, s, number as nat);
    assert(values::are_digits(w, 1, 1) && values::digits_value(w, 1, 1) == 0) by {
        reveal_with_fuel(values::are_digits, 2);
        reveal_with_fuel(values::digits_value, 2);
    }
    values::lemma_number_in(b, e, w, 0, 1, 1);
    assert(w.subrange(3, 6) =~= "obj"@);
    values::lemma_keyword_in(b, e, w, 2, 3, "obj"@);
}

/// The header is a comment.
proof fn lemma_header(b: Seq<u8>)
    requires
        bytes::occurs(b, 0, pdf_writer::header()),
        15 < b.len(),
        48 <= b[15] <= 57,
    ensures
        pdf_writer::header().len() == 15,
        lexer::token_at(b, 0) == lexer::token_at(b, 15),
        bytes::occurs(b, 0, encode_utf8("%PDF-"@)),
{
    let s = "%PDF-1.7\n%"@;
    reveal_strlit("%PDF-1.7\n%");
    reveal_strlit("%PDF-");
    is_ascii_chars_encode_utf8(s);
    is_ascii_chars_encode_utf8("%PDF-"@);
    let rest = seq![0xe2u8, 0xe3u8, 0xcfu8, 0xd3u8, 0x0au8];
    lemma_parts(b, 0, encode_utf8(s), rest);
    tokens::lemma_letters(b, 0, s);
    assert(s[0] == '%' && s[1] == 'P' && s[2] == 'D' && s[3] == 'F' && s[4] == '-' && s[5] == '1'
        && s[6] == '.' && s[7] == '7' && s[8] == '\n' && s[9] == '%');
    let w = b.subrange(10, 15);
    assert(w[0] == rest[0] && w[1] == rest[1] && w[2] == rest[2] && w[3] == rest[3] && w[4]
        == rest[4]);
    assert(lexer::space_end(b, 0, false) == 15) by {
        reveal_with_fuel(lexer::space_end, 20);
    }
    assert(lexer::space_end(b, 15, false) == 15);
    assert(lexer::token_at(b, 0) == lexer::token_at(b, 15)) by {
        reveal(lexer::token_at);
    }
    let magic = "%PDF-"@;
    assert(b.subrange(0, 5) =~= encode_utf8(magic)) by {
        assert(magic[0] == '%' && magic[1] == 'P' && magic[2] == 'D' && magic[3] == 'F' && magic[4]
            == '-');
        assert forall|i: int| 0 <= i < 5 implies b.subrange(0, 5)[i] == encode_utf8(magic)[i] by {
            assert(magic[i] == s[i]);
            assert(b[0 + i] == s[i] as u8);
        }
    }
}

/// One object is found.
proof fn lemma_scan_one(
    b: Seq<u8>,
    from: int,
    s: int,
    number: int,
    to: int,
    thing: Thing,
    xref: Option<usize>,
    objects: Seq<(u32, Thing)>,
)
    requires
        0 < number <= 100_000,
        0 <= from <= s,
        lexer::token_at(b, from) == lexer::token_at(b, s),
        bytes::occurs(b, s, pdf_out::object_start(number)),
        is_object(b, s + pdf_out::object_start(number).len() - 1, to, thing, xref),
    ensures
        document::scan(b, at(from), xref, objects) == document::scan(
            b,
            at(to),
            xref,
            table::put::<u32, Thing>(objects, number as u32, thing),
        ),
{
    lemma_object_words(b, s, number);
    tokens::lemma_bounded(number, u32::MAX as int);
    tokens::lemma_bounded(0, u16::MAX as int);
    let d = bytes::decimal(number as nat).len();
    let p3 = s + d + 6;
    assert(document::scanned_object(b, at(p3), whole(number), whole(0), xref) == Ok::<
        (u32, Thing, crate::pdf::lexer::Place),
        Failure,
    >((number as u32, thing, at(to))));
}

/// Where the objects stand within all of them.
pub proof fn lemma_object_at(b: Seq<u8>, list: Seq<Seq<u8>>, i: int, n: int)
    requires
        0 <= i < n <= list.len(),
        bytes::occurs(b, 0, pdf_writer::header() + objects_text(list, n)),
    ensures
        bytes::occurs(b, start_of(list, i), object_text(i + 1, list[i])),
        start_of(list, i + 1) == start_of(list, i) + object_text(i + 1, list[i]).len(),
        bytes::occurs(b, 0, pdf_writer::header()),
    decreases n,
{
    let before = pdf_writer::header() + objects_text(list, n - 1);
    let last = object_text(n, list[n - 1]);
    assert(pdf_writer::header() + (objects_text(list, n - 1) + last) =~= before + last);
    lemma_parts(b, 0, before, last);
    lemma_parts(b, 0, pdf_writer::header(), objects_text(list, n - 1));
    if i < n - 1 {
        lemma_object_at(b, list, i, n - 1);
    }
}

/// How many objects there are.
pub open spec fn object_count(pages: Seq<Seq<char>>) -> int {
    2 * (pages.len() as int) + 6
}

/// Reading stands before object `i`, counted from zero.
pub open spec fn is_before(b: Seq<u8>, list: Seq<Seq<u8>>, i: int, from: int) -> bool {
    &&& i == 0 ==> from == 0
    &&& i > 0 ==> from == start_of(list, i) - 1 && gap(b, from, from + 1)
}

/// The words of object `i` are read from before it.
proof fn lemma_before(b: Seq<u8>, list: Seq<Seq<u8>>, i: int, from: int)
    requires
        0 <= i < list.len() <= 50_000,
        is_before(b, list, i, from),
        bytes::occurs(b, 0, pdf_writer::header() + objects_text(list, list.len() as int)),
    ensures
        0 <= from <= start_of(list, i),
        lexer::token_at(b, from) == lexer::token_at(b, start_of(list, i)),
{
    let s = start_of(list, i);
    let start = pdf_out::object_start(i + 1);
    let rest = list[i] + pdf_out::object_end();
    lemma_object_at(b, list, i, list.len() as int);
    assert(object_text(i + 1, list[i]) =~= start + rest);
    lemma_parts(b, s, start, rest);
    lemma_object_words(b, s, i + 1);
    if i == 0 {
        assert(objects_text(list, 0) =~= Seq::<u8>::empty());
        assert(pdf_writer::header().len() == 15) by {
            reveal_strlit("%PDF-1.7\n%");
            is_ascii_chars_encode_utf8("%PDF-1.7\n%"@);
        }
        lemma_header(b);
    } else {
        tokens::lemma_gap(b, from, s);
        tokens::lemma_gap(b, s, s);
        assert(lexer::token_at(b, from) == lexer::token_at(b, s)) by {
            reveal(lexer::token_at);
        }
    }
}

/// Object `i` is what it was written as.
proof fn lemma_object(b: Seq<u8>, pages: Seq<Seq<char>>, i: int, xref: Option<usize>) -> (to: int)
    requires
        is_readable(pages),
        0 <= i < 2 * pages.len() + 6,
        all_bodies(pages).len() == 2 * pages.len() + 6,
        bytes::occurs(
            b,
            0,
            pdf_writer::header() + objects_text(
                all_bodies(pages),
                all_bodies(pages).len() as int,
            ),
        ),
    ensures
        to == start_of(all_bodies(pages), i + 1) - 1,
        gap(b, to, to + 1),
        bytes::occurs(b, start_of(all_bodies(pages), i), pdf_out::object_start(i + 1)),
        is_object(
            b,
            start_of(all_bodies(pages), i) + pdf_out::object_start(i + 1).len() - 1,
            to,
            all_things(pages)[i],
            xref,
        ),
{
    let list = all_bodies(pages);
    let s = start_of(list, i);
    let body = list[i];
    let start = pdf_out::object_start(i + 1);
    let rest = body + pdf_out::object_end();
    lemma_object_at(b, list, i, list.len() as int);
    assert(object_text(i + 1, body) =~= start + rest);
    lemma_parts(b, s, start, rest);
    let p = s + start.len();
    lemma_parts(b, p, body, pdf_out::object_end());
    lemma_object_words(b, s, i + 1);
    lemma_body(b, p - 1, p, pages, i, xref);
    layout::lemma_end(b, p + body.len());
    p + body.len() + 7
}

/// The objects from the `i`-th on are found.
proof fn lemma_scan_rest(
    b: Seq<u8>,
    pages: Seq<Seq<char>>,
    i: int,
    from: int,
    xref: Option<usize>,
)
    requires
        is_readable(pages),
        0 <= i <= object_count(pages),
        is_before(b, all_bodies(pages), i, from),
        all_bodies(pages).len() == object_count(pages),
        all_things(pages).len() == object_count(pages),
        bytes::occurs(
            b,
            0,
            pdf_writer::header() + objects_text(
                all_bodies(pages),
                all_bodies(pages).len() as int,
            ),
        ),
    ensures
        is_before(
            b,
            all_bodies(pages),
            object_count(pages),
            start_of(all_bodies(pages), object_count(pages)) - 1,
        ),
        document::scan(b, at(from), xref, rows(all_things(pages), i)) == document::scan(
            b,
            at(start_of(all_bodies(pages), object_count(pages)) - 1),
            xref,
            rows(all_things(pages), object_count(pages)),
        ),
    decreases object_count(pages) - i,
{
    if i < object_count(pages) {
        let things = all_things(pages);
        let s = start_of(all_bodies(pages), i);
        lemma_before(b, all_bodies(pages), i, from);
        let to = lemma_object(b, pages, i, xref);
        lemma_scan_one(b, from, s, i + 1, to, things[i], xref, rows(things, i));
        lemma_rows(things, i);
        lemma_scan_rest(b, pages, i + 1, to, xref);
    }
}

/// A written file begins as a file does.
pub proof fn lemma_magic(b: Seq<u8>, list: Seq<Seq<u8>>)
    requires
        0 < list.len(),
        bytes::occurs(b, 0, pdf_writer::header() + objects_text(list, list.len() as int)),
    ensures
        bytes::occurs(b, 0, encode_utf8("%PDF-"@)),
{
    lemma_object_at(b, list, 0, list.len() as int);
    let start = pdf_out::object_start(1);
    let rest = list[0] + pdf_out::object_end();
    assert(object_text(1, list[0]) =~= start + rest);
    assert(objects_text(list, 0) =~= Seq::<u8>::empty());
    assert(pdf_writer::header().len() == 15) by {
        reveal_strlit("%PDF-1.7\n%");
        is_ascii_chars_encode_utf8("%PDF-1.7\n%"@);
    }
    lemma_parts(b, 15, start, rest);
    lemma_object_words(b, 15, 1);
    lemma_header(b);
}

/// How many bodies and objects there are.
pub proof fn lemma_counts(pages: Seq<Seq<char>>)
    ensures
        all_bodies(pages).len() == object_count(pages),
        all_things(pages).len() == object_count(pages),
{
    layout::lemma_all_laid(pages);
    lemma_page_list(pages, pages.len() as int);
}

/// All objects are found.
pub proof fn lemma_scan_objects(b: Seq<u8>, pages: Seq<Seq<char>>, xref: Option<usize>)
    requires
        is_readable(pages),
        bytes::occurs(
            b,
            0,
            pdf_writer::header() + objects_text(
                all_bodies(pages),
                all_bodies(pages).len() as int,
            ),
        ),
    ensures
        is_before(
            b,
            all_bodies(pages),
            object_count(pages),
            start_of(all_bodies(pages), object_count(pages)) - 1,
        ),
        document::scan(b, at(0), xref, Seq::empty()) == document::scan(
            b,
            at(start_of(all_bodies(pages), object_count(pages)) - 1),
            xref,
            rows(all_things(pages), object_count(pages)),
        ),
{
    lemma_counts(pages);
    assert(rows(all_things(pages), 0) =~= Seq::empty());
    lemma_scan_rest(b, pages, 0, 0, xref);
}

} // verus!
