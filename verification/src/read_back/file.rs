//! What is read of a file that was written from texts.

use vstd::prelude::*;
use vstd::utf8::*;

use crate::paginate;
use crate::paginate::LINES_PER_PAGE;
use crate::pdf::cmap;
use crate::pdf::cmap::Glyphs;
use crate::pdf::content;
use crate::pdf::content::{Setting, Shown, Spent};
use crate::pdf::document;
use crate::pdf::error::Failure;
use crate::pdf::extract;
use crate::pdf::extract::{Extracted, PageText, Trouble};
use crate::pdf::filter;
use crate::pdf::number;
use crate::pdf::object;
use crate::pdf::object::{Thing, MAX_STREAM_BYTES};
use crate::pdf::pages;
use crate::pdf::pages::Walk;
use crate::pdf::selection::Wanted;
use crate::pdf::value::{Datum, PdfRef};
use crate::pdf_writer;
use crate::pdf_writer::{code_unit, is_used, page_number};
use crate::read_back::bodies::{
    catalog_entries, font_entries, kid_refs, latin_entries, page_entries, pages_entries,
};
use crate::read_back::font_map;
use crate::read_back::index;
use crate::read_back::layout;
use crate::read_back::layout::{all_bodies, objects_text, start_of, stream_thing};
use crate::read_back::lookups;
use crate::read_back::lookups::{page_box, page_fonts, page_resources};
use crate::read_back::objects;
use crate::read_back::objects::{all_things, is_readable, object_count, plain, rows};
use crate::read_back::page_text;
use crate::read_back::page_text::{fonts_show, page_read, page_runs, page_shows};
use crate::read_back::size::lemma_file_size;
use crate::read_back::tokens::{at, whole, MOST};
use crate::read_back::values::{filled, object_ref};
use crate::table;
use crate::text;

verus! {

proof fn lemma_grows(list: Seq<Seq<u8>>, i: int, n: int)
    requires
        0 <= i < n <= list.len(),
    ensures
        start_of(list, i) < start_of(list, n),
        0 < start_of(list, i),
    decreases n,
{
    reveal_strlit("\nendobj\n");
    is_ascii_chars_encode_utf8("\nendobj\n"@);
    reveal_strlit("%PDF-1.7\n%");
    is_ascii_chars_encode_utf8("%PDF-1.7\n%"@);
    assert(objects_text(list, n).len() > objects_text(list, n - 1).len());
    if i < n - 1 {
        lemma_grows(list, i, n - 1);
    }
}

/// The objects of a written file.
pub open spec fn objects_of(written: Seq<Seq<char>>) -> Seq<(u32, Thing)> {
    rows(all_things(written), object_count(written))
}

/// The file of pages that are small enough to be read, and fit into memory.
pub open spec fn is_file(written: Seq<Seq<char>>) -> bool {
    &&& is_readable(written)
    &&& pdf_writer::pages_draft(written).bytes.len() <= usize::MAX
    &&& pdf_writer::pages_draft(written).bytes.len() <= MOST
}

proof fn lemma_is_draft(written: Seq<Seq<char>>)
    requires
        is_file(written),
    ensures
        index::is_draft(pdf_writer::pages_draft(written)),
{
    let draft = pdf_writer::pages_draft(written);
    let list = all_bodies(written);
    layout::lemma_all_laid(written);
    assert forall|i: int| 0 <= i < draft.offsets.len() implies 0 < #[trigger] draft.offsets[i]
        < draft.bytes.len() by {
        lemma_grows(list, i, list.len() as int);
    }
}

/// The objects of a written file are found.
proof fn lemma_document(written: Seq<Seq<char>>)
    requires
        is_file(written),
    ensures
        document::document(pdf_writer::pages_draft(written).finished()) == Ok::<
            (Seq<(u32, Thing)>, Option<PdfRef>),
            Failure,
        >((objects_of(written), None)),
        extract::has_magic(pdf_writer::pages_draft(written).finished()),
{
    let draft = pdf_writer::pages_draft(written);
    let b = draft.finished();
    let x = draft.bytes.len() as usize;
    let list = all_bodies(written);
    lemma_is_draft(written);
    layout::lemma_all_laid(written);
    index::lemma_finished(draft);
    index::lemma_location(draft);
    index::lemma_revision(draft);
    objects::lemma_counts(written);
    objects::lemma_magic(b, list);
    objects::lemma_scan_objects(b, written, Some(x));
    let end = start_of(list, object_count(written));
    assert(end == draft.bytes.len());
    objects::lemma_rows(all_things(written), object_count(written));
    index::lemma_scan_table(draft, end - 1, Some(x), objects_of(written));
    lemma_scanned(b, Some(x), end - 1, objects_of(written));
}

proof fn lemma_scanned(b: Seq<u8>, x: Option<usize>, from: int, found: Seq<(u32, Thing)>)
    requires
        document::scan(b, at(0), x, Seq::empty()) == document::scan(b, at(from), x, found),
        document::scan(b, at(from), x, found) == Ok::<Seq<(u32, Thing)>, Failure>(found),
    ensures
        document::scanned(b, x) == Ok::<(Seq<(u32, Thing)>, Option<PdfRef>), Failure>(
            (found, None),
        ),
{
}

/// Which objects have which numbers.
proof fn lemma_numbers(written: Seq<Seq<char>>)
    requires
        is_readable(written),
    ensures
        ({
            let all = objects_of(written);
            let count = written.len() as int;
            &&& all.len() == object_count(written)
            &&& all[0] == (1u32, plain(catalog_entries()))
            &&& object::object_in(all, 1) == Some(plain(catalog_entries()))
            &&& object::object_in(all, 2) == Some(plain(pages_entries(count)))
            &&& object::object_in(all, page_number(count) as u32) == Some(
                plain(font_entries(count)),
            )
            &&& object::object_in(all, (page_number(count) + 2) as u32) == Some(
                stream_thing(pdf_writer::unicode_map(written)),
            )
            &&& object::object_in(all, (page_number(count) + 3) as u32) == Some(
                plain(latin_entries()),
            )
        }),
        forall|k: int| #![trigger written[k]]
            0 <= k < written.len() ==> {
                &&& object::object_in(objects_of(written), page_number(k) as u32) == Some(
                    plain(page_entries(written.len() as int, k)),
                )
                &&& object::object_in(objects_of(written), (page_number(k) + 1) as u32) == Some(
                    stream_thing(pdf_writer::page_stream_spec(written[k])),
                )
            },
{
    let count = written.len() as int;
    let things = all_things(written);
    let n = object_count(written);
    objects::lemma_counts(written);
    objects::lemma_page_list(written, count);
    objects::lemma_rows(things, n);
    assert(things[0] == plain(catalog_entries()));
    assert(things[1] == plain(pages_entries(count)));
    assert(things[2 + 2 * count] == plain(font_entries(count)));
    assert(things[4 + 2 * count] == stream_thing(pdf_writer::unicode_map(written)));
    assert(things[5 + 2 * count] == plain(latin_entries()));
    assert(((0 + 1) as u32) == 1 && ((1 + 1) as u32) == 2);
    assert forall|k: int| #![trigger written[k]] 0 <= k < count implies {
        &&& object::object_in(objects_of(written), page_number(k) as u32) == Some(
            plain(page_entries(count, k)),
        )
        &&& object::object_in(objects_of(written), (page_number(k) + 1) as u32) == Some(
            stream_thing(pdf_writer::page_stream_spec(written[k])),
        )
    } by {
        assert(things[2 + 2 * k] == plain(page_entries(count, k)));
        assert(things[3 + 2 * k] == stream_thing(pdf_writer::page_stream_spec(written[k])));
    }
}

/// The references to the first `n` pages.
pub open spec fn page_refs(n: int) -> Seq<PdfRef> {
    Seq::new(n as nat, |k: int| PdfRef { object: page_number(k) as u32, generation: 0 })
}

/// The pages from the `i`-th on are walked to.
proof fn lemma_walk(written: Seq<Seq<char>>, i: int, walk: Walk) -> (r: Walk)
    requires
        is_readable(written),
        0 <= i <= written.len(),
        walk.pages == page_refs(i),
        forall|n: u32| #[trigger] walk.visited.contains(n) ==> n < page_number(i),
    ensures
        pages::page_trees(
            objects_of(written),
            kid_refs(written.len() as int),
            i,
            walk,
            1,
        ) == Ok::<Walk, Failure>(r),
        r.pages == page_refs(written.len() as int),
    decreases written.len() - i,
{
    let count = written.len() as int;
    if i < count {
        let all = objects_of(written);
        lemma_numbers(written);
        lookups::lemma_page_holds(count, i);
        let page = written[i];
        let number = page_number(i) as u32;
        let reference = PdfRef { object: number, generation: 0 };
        assert(kid_refs(count)[i] == Datum::Ref(reference));
        let next = Walk {
            pages: walk.pages.push(reference),
            visited: walk.visited.insert(number),
        };
        assert(pages::page_tree(all, Datum::Ref(reference), walk, 2) == Ok::<Walk, Failure>(next));
        assert(next.pages =~= page_refs(i + 1));
        lemma_walk(written, i + 1, next)
    } else {
        walk
    }
}

/// The pages of a written file are found.
proof fn lemma_pages(written: Seq<Seq<char>>)
    requires
        is_readable(written),
    ensures
        pages::pages_of(objects_of(written), None) == Ok::<Seq<PdfRef>, Failure>(
            page_refs(written.len() as int),
        ),
{
    let all = objects_of(written);
    let count = written.len() as int;
    lemma_numbers(written);
    lookups::lemma_catalog_holds();
    lookups::lemma_pages_holds(count);
    let catalog = PdfRef { object: 1, generation: 0 };
    assert(pages::first_typed(all, "Catalog"@, 0) == Some(catalog));
    let two = PdfRef { object: 2, generation: 0 };
    assert(object_ref(2) == Datum::Ref(two));
    let none = Walk { pages: Seq::empty(), visited: Set::empty() };
    let first = Walk { pages: Seq::empty(), visited: Set::<u32>::empty().insert(2) };
    assert(page_refs(0) =~= Seq::empty());
    let r = lemma_walk(written, 0, first);
    let kids = Datum::Array(kid_refs(count));
    assert(pages::page_tree(all, kids, first, 1) == Ok::<Walk, Failure>(r));
    assert(pages::page_tree(all, Datum::Ref(two), none, 0) == pages::page_tree(
        all,
        kids,
        first,
        1,
    ));
}

/// A stream without filters is decoded as it is.
proof fn lemma_decoded(data: Seq<u8>)
    requires
        data.len() <= MAX_STREAM_BYTES,
    ensures
        filter::decoded(stream_thing(data)) == Ok::<Seq<u8>, Failure>(data),
{
    layout::lemma_stream_lookup(data.len() as int);
}

/// A page's stream is found.
proof fn lemma_contents(written: Seq<Seq<char>>, k: int)
    requires
        is_readable(written),
        0 <= k < written.len(),
    ensures
        pages::page_contents(objects_of(written), page_refs(written.len() as int)[k]) == Ok::<
            Seq<Seq<u8>>,
            Failure,
        >(seq![pdf_writer::page_stream_spec(written[k])]),
{
    let all = objects_of(written);
    let count = written.len() as int;
    let data = pdf_writer::page_stream_spec(written[k]);
    lemma_numbers(written);
    lookups::lemma_page_holds(count, k);
    lemma_decoded(data);
    let reference = PdfRef { object: (page_number(k) + 1) as u32, generation: 0 };
    let contents = object_ref(page_number(k) + 1);
    assert(contents == Datum::Ref(reference));
    let none = Seq::<PdfRef>::empty();
    let found = pages::streams_in(all, contents, none, Seq::empty());
    assert(found == Ok::<Seq<PdfRef>, Failure>(none.push(reference)));
    let list = none.push(reference);
    let nothing = Seq::<Seq<u8>>::empty();
    assert(pages::decoded_all(all, list, 1, nothing.push(data), data.len() as int) == Ok::<
        Seq<Seq<u8>>,
        Failure,
    >(nothing.push(data)));
    assert(pages::decoded_all(all, list, 0, nothing, 0) == pages::decoded_all(
        all,
        list,
        1,
        nothing.push(data),
        data.len() as int,
    ));
    assert(nothing.push(data) =~= seq![data]);
}

/// The map of the font for what is not Latin text, if there is one.
pub open spec fn map_of(written: Seq<Seq<char>>) -> Option<Glyphs> {
    match cmap::font_map(pdf_writer::unicode_map(written)) {
        Ok(found) => found,
        Err(_) => None,
    }
}

/// The fonts of the pages.
pub open spec fn fonts_of(written: Seq<Seq<char>>) -> Seq<(Seq<u8>, Glyphs)> {
    match map_of(written) {
        Some(glyphs) => table::put::<Vec<u8>, Glyphs>(Seq::empty(), encode_utf8("F1"@), glyphs),
        None => Seq::empty(),
    }
}

/// The maps of a page's fonts.
proof fn lemma_maps(written: Seq<Seq<char>>)
    requires
        is_readable(written),
    ensures
        pages::resource_fonts(
            objects_of(written),
            filled(page_resources(written.len() as int), 1),
        ) == Ok::<Seq<(Seq<u8>, Glyphs)>, Failure>(fonts_of(written)),
{
    let all = objects_of(written);
    let count = written.len() as int;
    let map = pdf_writer::unicode_map(written);
    lemma_numbers(written);
    lookups::lemma_page_holds(count, 0);
    lookups::lemma_font_holds(count);
    lookups::lemma_other_fonts_hold();
    lookups::lemma_font_rows(count);
    font_map::law_map_is_read_back(written);
    lemma_decoded(map);
    let fonts = filled(page_fonts(count), 2);
    let first = object_ref(page_number(count));
    let second = object_ref(page_number(count) + 3);
    assert(pages::map_of_font(all, first) == Ok::<Option<Glyphs>, Failure>(map_of(written)));
    assert(pages::map_of_font(all, second) == Ok::<Option<Glyphs>, Failure>(None));
    let none = Seq::<(Seq<u8>, Glyphs)>::empty();
    assert(fonts[0] == (encode_utf8("F1"@), first));
    assert(fonts[1] == (encode_utf8("F2"@), second));
    let now = fonts_of(written);
    assert(pages::maps_of_fonts(all, fonts, 2, now) == Ok::<Seq<(Seq<u8>, Glyphs)>, Failure>(now));
    assert(pages::maps_of_fonts(all, fonts, 1, now) == pages::maps_of_fonts(all, fonts, 2, now));
    assert(pages::maps_of_fonts(all, fonts, 0, none) == pages::maps_of_fonts(all, fonts, 1, now));
}

/// The fonts of a page are found.
proof fn lemma_fonts(written: Seq<Seq<char>>, k: int)
    requires
        is_readable(written),
        0 <= k < written.len(),
    ensures
        pages::fonts_from(
            objects_of(written),
            Some(page_refs(written.len() as int)[k]),
            Set::empty(),
            objects_of(written).len(),
        ) == Ok::<Seq<(Seq<u8>, Glyphs)>, Failure>(fonts_of(written)),
{
    let all = objects_of(written);
    let count = written.len() as int;
    let page = page_refs(count)[k];
    let chars = written[k];
    lemma_numbers(written);
    lookups::lemma_page_holds(count, k);
    lookups::lemma_pages_holds(count);
    lemma_maps(written);
    if map_of(written) is Some {
        assert(fonts_of(written).len() == 1);
    } else {
        let two = PdfRef { object: 2, generation: 0 };
        assert(object_ref(2) == Datum::Ref(two));
        let seen = Set::<u32>::empty().insert(page.object);
        let steps = (all.len() - 1) as nat;
        assert(!seen.contains(2));
        assert(pages::fonts_from(all, Some(two), seen, steps) == pages::fonts_from(
            all,
            None,
            seen.insert(2),
            (steps - 1) as nat,
        ));
        assert(pages::fonts_from(all, Some(page), Set::empty(), all.len()) == pages::fonts_from(
            all,
            Some(two),
            seen,
            steps,
        ));
    }
}

/// The fonts show the characters of the pages.
proof fn lemma_shows(written: Seq<Seq<char>>, k: int)
    requires
        0 <= k < written.len(),
        !pdf_writer::unsupported(written),
    ensures
        page_shows(fonts_of(written), written[k]),
{
    let page = written[k];
    let fonts = fonts_of(written);
    font_map::law_map_is_read_back(written);
    lookups::lemma_font_rows(0);
    let none = Seq::<(Seq<u8>, Glyphs)>::empty();
    assert(table::ascending::<Vec<u8>, Glyphs>(none));
    if map_of(written) is Some {
        let glyphs = map_of(written)->0;
        table::law_find_after_put::<Vec<u8>, Glyphs>(
            none,
            encode_utf8("F1"@),
            glyphs,
            encode_utf8("F2"@),
        );
    }
    assert forall|m: int| 0 <= m < page.len() implies fonts_show(fonts, #[trigger] page[m]) by {
        let c = page[m];
        let unit = code_unit(c);
        assert(is_used(written, unit as int)) by {
            assert(code_unit(written[k][m]) == unit as int);
        }
        assert(c as int <= 0xffff) by {
            if c as int > 0xffff {
                assert(pdf_writer::is_supplementary(written[k]));
            }
        }
        lemma_unit_char(c);
        assert(font_map::unit_bytes(unit) == page_text::code_bytes(c));
    }
}

proof fn lemma_unit_char(c: char)
    requires
        c as int <= 0xffff,
    ensures
        font_map::code_char(code_unit(c)) == seq![c],
{
    assert(code_unit(c) as char == c);
}

proof fn lemma_trimmed(s: Seq<char>)
    ensures
        text::trimmed_end(text::trimmed_end(s)) == text::trimmed_end(s),
    decreases s.len(),
{
    if s.len() > 0 && text::is_white(s.last()) {
        lemma_trimmed(s.drop_last());
    }
}

/// A page is read as its text.
proof fn lemma_page_shown(written: Seq<Seq<char>>, k: int)
    requires
        is_readable(written),
        !pdf_writer::unsupported(written),
        0 <= k < written.len(),
    ensures
        content::page_shown(objects_of(written), page_refs(written.len() as int)[k]) == Ok::<
            Shown,
            Failure,
        >(
            Shown {
                text: page_read(written[k]),
                count: content::counted(0, page_runs(written[k])),
            },
        ),
{
    let all = objects_of(written);
    let page = page_refs(written.len() as int)[k];
    let data = pdf_writer::page_stream_spec(written[k]);
    lemma_contents(written, k);
    lemma_fonts(written, k);
    lemma_shows(written, k);
    let setting = Setting {
        objects: all,
        fonts: fonts_of(written),
        resources: pages::resources_from(all, Some(page), Set::empty(), all.len()),
        visiting: Seq::empty(),
        depth: 0,
    };
    lemma_page_streams(setting, written[k]);
}

/// The only stream of a page shows its text.
proof fn lemma_page_streams(setting: Setting, page: Seq<char>)
    requires
        page_shows(setting.fonts, page),
        pdf_writer::page_stream_spec(page).len() <= MAX_STREAM_BYTES,
    ensures
        content::streams_shown(
            setting,
            seq![pdf_writer::page_stream_spec(page)],
            0,
            Shown { text: Seq::empty(), count: 0 },
            Spent { bytes: 0, forms: 0 },
        ) == Ok::<Shown, Failure>(
            Shown { text: page_read(page), count: content::counted(0, page_runs(page)) },
        ),
{
    let data = pdf_writer::page_stream_spec(page);
    let spent = Spent { bytes: data.len() as int, forms: 0 };
    let shown = Shown { text: page_read(page), count: content::counted(0, page_runs(page)) };
    page_text::law_page_stream_is_read_back(setting, page, spent);
    let lines = text::lines_from(page, 0);
    lemma_trimmed(page_text::lines_read(lines, lines.len() as int));
    lemma_one_stream(setting, data, shown, spent);
}

/// A page with one stream shows what the stream does.
proof fn lemma_one_stream(setting: Setting, data: Seq<u8>, shown: Shown, spent: Spent)
    requires
        data.len() <= MAX_STREAM_BYTES,
        spent == (Spent { bytes: data.len() as int, forms: 0 }),
        content::content(setting, data, content::start(), content::blank(), spent) == Ok::<
            (Shown, Spent),
            Failure,
        >((shown, spent)),
        text::trimmed_end(shown.text) == shown.text,
        0 <= shown.count <= usize::MAX,
    ensures
        content::streams_shown(
            setting,
            seq![data],
            0,
            Shown { text: Seq::empty(), count: 0 },
            Spent { bytes: 0, forms: 0 },
        ) == Ok::<Shown, Failure>(shown),
{
    let list = seq![data];
    let nothing = Shown { text: Seq::<char>::empty(), count: 0 };
    let page = Shown {
        text: content::page_with(nothing.text, shown.text),
        count: content::counted(0, shown.count),
    };
    assert(page.text =~= shown.text);
    assert(content::streams_shown(setting, list, 1, page, spent) == Ok::<Shown, Failure>(shown));
}

/// The streams of the first `n` pages, in bytes.
spec fn streams_size(written: Seq<Seq<char>>, n: int) -> int
    decreases n,
{
    if n <= 0 {
        0
    } else {
        streams_size(written, n - 1) + pdf_writer::page_stream_spec(written[n - 1]).len()
    }
}

proof fn lemma_streams_size(written: Seq<Seq<char>>, n: int)
    requires
        0 <= n <= written.len(),
    ensures
        0 <= streams_size(written, n) <= pdf_writer::with_pages(written, n).bytes.len(),
    decreases n,
{
    if n > 0 {
        lemma_streams_size(written, n - 1);
    }
}

/// The texts that are read of the first `n` pages, in bytes.
pub open spec fn bytes_read(written: Seq<Seq<char>>, n: int) -> int
    decreases n,
{
    if n <= 0 {
        0
    } else {
        bytes_read(written, n - 1) + encode_utf8(page_read(written[n - 1])).len()
    }
}

/// How many strings show the first `n` pages.
pub open spec fn strings_read(written: Seq<Seq<char>>, n: int) -> int
    decreases n,
{
    if n <= 0 {
        0
    } else {
        strings_read(written, n - 1) + page_runs(written[n - 1])
    }
}

proof fn lemma_sums(written: Seq<Seq<char>>, n: int)
    requires
        0 <= n <= written.len(),
        !pdf_writer::unsupported(written),
    ensures
        0 <= bytes_read(written, n) <= streams_size(written, n),
        0 <= strings_read(written, n) <= streams_size(written, n),
        n > 0 ==> 0 <= page_runs(written[n - 1]),
    decreases n,
{
    if n > 0 {
        lemma_sums(written, n - 1);
        let page = written[n - 1];
        assert(!pdf_writer::is_supplementary(page));
        page_text::lemma_page_size(page);
        lemma_shows(written, n - 1);
        let setting = Setting {
            objects: Seq::empty(),
            fonts: fonts_of(written),
            resources: None,
            visiting: Seq::empty(),
            depth: 0,
        };
        page_text::law_page_stream_is_read_back(setting, page, Spent { bytes: 0, forms: 0 });
    }
}

/// What the first `n` pages are read as.
pub open spec fn pages_read(written: Seq<Seq<char>>, n: int) -> Seq<PageText> {
    Seq::new(
        n as nat,
        |k: int|
            PageText {
                text: page_read(written[k]),
                width: 612,
                height: 792,
                count: page_runs(written[k]),
            },
    )
}

/// What is read up to page `n`.
pub open spec fn read_up_to(written: Seq<Seq<char>>, n: int) -> Extracted {
    Extracted {
        page_count: written.len() as int,
        count: strings_read(written, n),
        bytes: bytes_read(written, n),
        pages: pages_read(written, n),
    }
}

/// The size of a page is found.
proof fn lemma_size(written: Seq<Seq<char>>, k: int)
    requires
        is_readable(written),
        0 <= k < written.len(),
    ensures
        pages::size_from(
            objects_of(written),
            Some(page_refs(written.len() as int)[k]),
            Set::empty(),
            objects_of(written).len(),
        ) == (612u32, 792u32),
{
    let all = objects_of(written);
    let count = written.len() as int;
    let page = page_refs(count)[k];
    let chars = written[k];
    lemma_numbers(written);
    lookups::lemma_page_holds(count, k);
    let corners = page_box();
    assert(corners.len() == 4);
    assert(pages::box_size(corners) == Some((612u32, 792u32))) by {
        reveal(whole);
        number::lemma_side(612);
        number::lemma_side(792);
    }
}

/// What is read can be counted.
proof fn lemma_counts(written: Seq<Seq<char>>, k: int)
    requires
        pdf_writer::pages_draft(written).bytes.len() <= usize::MAX,
        !pdf_writer::unsupported(written),
        0 <= k < written.len(),
    ensures
        content::counted(0, page_runs(written[k])) == page_runs(written[k]),
        0 <= bytes_read(written, k + 1) <= usize::MAX,
        strings_read(written, k + 1) <= usize::MAX,
{
    lemma_streams_size(written, k + 1);
    lemma_sums(written, k + 1);
    lemma_sums(written, k);
    lemma_within(written, k + 1);
}

/// The pages from the `k`-th on are read.
proof fn lemma_pages_read(written: Seq<Seq<char>>, k: int)
    requires
        is_file(written),
        !pdf_writer::unsupported(written),
        0 <= k <= written.len(),
    ensures
        extract::wanted_pages(
            objects_of(written),
            page_refs(written.len() as int),
            k,
            Wanted::All,
            None,
            read_up_to(written, k),
        ) == Ok::<Extracted, Trouble>(read_up_to(written, written.len() as int)),
    decreases written.len() - k,
{
    let count = written.len() as int;
    if k < count {
        lemma_page_shown(written, k);
        lemma_size(written, k);
        lemma_counts(written, k);
        lemma_pages_read(written, k + 1);
        assert(pages_read(written, k + 1) =~= pages_read(written, k).push(
            pages_read(written, k + 1)[k],
        ));
        assert(pages_read(written, k + 1)[k] == (PageText {
            text: page_read(written[k]),
            width: 612,
            height: 792,
            count: page_runs(written[k]),
        }));
    }
}

/// What the first pages take is within what the file takes.
proof fn lemma_within(written: Seq<Seq<char>>, n: int)
    requires
        0 <= n <= written.len(),
    ensures
        pdf_writer::with_pages(written, n).bytes.len() <= pdf_writer::pages_draft(
            written,
        ).bytes.len(),
    decreases written.len() - n,
{
    if n < written.len() {
        lemma_within(written, n + 1);
    }
}

/// Pages that can be written and read: at least one of them, and no more than
/// a reader takes, each within the limit on streams, and all of them together
/// within memory.
pub open spec fn fits(written: Seq<Seq<char>>) -> bool {
    &&& 0 < written.len() <= crate::pdf::selection::MAX_PAGES
    &&& pdf_writer::pages_draft(written).bytes.len() <= usize::MAX
    &&& forall|k: int|
        0 <= k < written.len() ==> pdf_writer::page_stream_spec(#[trigger] written[k]).len()
            <= MAX_STREAM_BYTES
}

/// The file that pages are written as is read as those pages: each with its
/// lines, without the spaces at their ends and without empty lines.
pub proof fn law_written_pages_are_read_back(written: Seq<Seq<char>>)
    requires
        fits(written),
        !pdf_writer::unsupported(written),
    ensures
        extract::extracted(pdf_writer::pages_draft(written).finished(), Wanted::All, None) == Ok::<
            Extracted,
            Trouble,
        >(read_up_to(written, written.len() as int)),
{
    font_map::lemma_map_size(written);
    lemma_file_size(written);
    lemma_document(written);
    lemma_pages(written);
    lemma_pages_read(written, 0);
    assert(pages_read(written, 0) =~= Seq::empty());
}

/// The file that texts are written as is read as the pages that they take.
pub proof fn law_written_texts_are_read_back(texts: Seq<Seq<char>>)
    requires
        fits(paginate::paginated(texts, LINES_PER_PAGE as int)),
        pdf_writer::text_file(texts) is Some,
    ensures
        ({
            let written = paginate::paginated(texts, LINES_PER_PAGE as int);
            extract::extracted(pdf_writer::text_file(texts)->0, Wanted::All, None) == Ok::<
                Extracted,
                Trouble,
            >(read_up_to(written, written.len() as int))
        }),
{
    law_written_pages_are_read_back(paginate::paginated(texts, LINES_PER_PAGE as int));
}

proof fn lemma_joined(a: Seq<Seq<char>>, b: Seq<Seq<char>>, n: int)
    requires
        0 < a.len(),
        0 < n <= b.len(),
    ensures
        text::joined(a + b, seq!['\n'], a.len() + n) == text::joined(
            a,
            seq!['\n'],
            a.len() as int,
        ) + seq!['\n'] + text::joined(b, seq!['\n'], n),
    decreases n,
{
    let all = a + b;
    let k = a.len() + n;
    assert(all[k - 1] == b[n - 1]);
    if n > 1 {
        lemma_joined(a, b, n - 1);
        let head = text::joined(a, seq!['\n'], a.len() as int);
        let body = text::joined(b, seq!['\n'], n - 1);
        assert(head + seq!['\n'] + body + seq!['\n'] + b[n - 1] =~= head + seq!['\n'] + (body
            + seq!['\n'] + b[n - 1]));
    } else {
        lemma_same_joined(a, b, a.len() as int);
        assert(text::joined(b, seq!['\n'], 1) == b[0]);
    }
}

proof fn lemma_same_joined(a: Seq<Seq<char>>, b: Seq<Seq<char>>, n: int)
    requires
        0 <= n <= a.len(),
    ensures
        text::joined(a + b, seq!['\n'], n) == text::joined(a, seq!['\n'], n),
    decreases n,
{
    if n > 0 {
        lemma_same_joined(a, b, n - 1);
        assert((a + b)[n - 1] == a[n - 1]);
        assert((a + b)[0] == a[0]);
    }
}

/// A text is its lines with line feeds between them.
proof fn lemma_lines_joined(s: Seq<char>, from: int)
    requires
        0 <= from < s.len(),
        s.last() != '\n',
        forall|k: int| 0 <= k < s.len() ==> #[trigger] s[k] != '\r',
    ensures
        text::lines_from(s, from).len() > 0,
        text::joined(
            text::lines_from(s, from),
            seq!['\n'],
            text::lines_from(s, from).len() as int,
        ) == s.skip(from),
    decreases s.len() - from,
{
    let end = text::index_of(s, '\n', from);
    text::lemma_index_of(s, '\n', from);
    let line = text::line_of(s, from, end);
    let first = seq![line];
    let rest = text::lines_from(s, end + 1);
    assert(line =~= s.subrange(from, end));
    assert(text::joined(first, seq!['\n'], 1) == line);
    if end < s.len() {
        assert(s[end] == '\n');
        assert(end + 1 < s.len());
        lemma_lines_joined(s, end + 1);
        lemma_joined(first, rest, rest.len() as int);
        assert(line + seq!['\n'] + s.skip(end + 1) =~= s.skip(from));
    } else {
        assert(rest =~= Seq::<Seq<char>>::empty());
        assert(first + rest =~= first);
        assert(line =~= s.skip(from));
    }
}

/// A line that is read as it was written.
pub open spec fn is_tidy(line: Seq<char>) -> bool {
    line.len() > 0 && line.last() != ' ' && line.last() != '\n'
}

proof fn lemma_tidy(lines: Seq<Seq<char>>, n: int)
    requires
        0 < n <= lines.len(),
        forall|k: int| 0 <= k < lines.len() ==> is_tidy(#[trigger] lines[k]),
    ensures
        page_text::lines_read(lines, n) == text::joined(lines, seq!['\n'], n),
        text::joined(lines, seq!['\n'], n).len() > 0,
        text::joined(lines, seq!['\n'], n).last() == lines[n - 1].last(),
    decreases n,
{
    let line = lines[n - 1];
    assert(is_tidy(line));
    if n > 1 {
        lemma_tidy(lines, n - 1);
        let before = text::joined(lines, seq!['\n'], n - 1);
        assert(is_tidy(lines[n - 2]));
        assert(content::unpadded(before) == before);
        assert(content::line_ended(before) =~= before + seq!['\n']);
    } else {
        assert(page_text::lines_read(lines, 0) =~= Seq::<char>::empty());
        assert(content::line_ended(Seq::<char>::empty()) =~= Seq::<char>::empty());
        assert(page_text::lines_read(lines, 1) =~= line);
    }
}

/// A page is read as it was written, if it has no empty lines, no spaces at the
/// ends of its lines, no carriage returns and no white space at its end.
pub proof fn law_tidy_page_is_kept(page: Seq<char>)
    requires
        page.len() > 0,
        !text::is_white(page.last()),
        forall|k: int| 0 <= k < page.len() ==> #[trigger] page[k] != '\r',
        forall|k: int|
            0 <= k < text::lines_from(page, 0).len() ==> is_tidy(
                #[trigger] text::lines_from(page, 0)[k],
            ),
    ensures
        page_read(page) == page,
{
    let lines = text::lines_from(page, 0);
    assert(text::is_white('\n'));
    lemma_lines_joined(page, 0);
    assert(page.skip(0) =~= page);
    lemma_tidy(lines, lines.len() as int);
}

} // verus!
