//! What the dictionaries of written texts hold.

use vstd::prelude::*;
use vstd::utf8::*;

use crate::pdf::object;
use crate::pdf::value;
use crate::pdf::value::Datum;
use crate::pdf_writer::page_number;
use crate::read_back::bodies::{
    catalog_entries, descendant_entries, font_entries, kid_refs, latin_entries, page_entries,
    pages_entries,
};
use crate::read_back::tokens::whole;
use crate::read_back::values::{dict, filled, lemma_sought, object_ref, sought};
use crate::table;

verus! {

/// What a written dictionary holds under a name.
pub open spec fn held(entries: Seq<(Seq<char>, Datum)>, name: Seq<char>) -> Option<Datum> {
    value::entry(filled(entries, entries.len() as int), name)
}

/// Names that differ do so in their length or their first letter.
proof fn lemma_names()
    ensures
        "Type"@.len() == 4 && "Type"@[0] == 'T',
        "Kids"@.len() == 4 && "Kids"@[0] == 'K',
        "Font"@.len() == 4 && "Font"@[0] == 'F',
        "XRef"@.len() == 4 && "XRef"@[0] == 'X',
        "Page"@.len() == 4 && "Page"@[0] == 'P',
        "Pages"@.len() == 5 && "Pages"@[0] == 'P',
        "Count"@.len() == 5 && "Count"@[0] == 'C',
        "Parent"@.len() == 6 && "Parent"@[0] == 'P',
        "ObjStm"@.len() == 6 && "ObjStm"@[0] == 'O',
        "Subtype"@.len() == 7 && "Subtype"@[0] == 'S',
        "Catalog"@.len() == 7 && "Catalog"@[0] == 'C',
        "MediaBox"@.len() == 8 && "MediaBox"@[0] == 'M',
        "Contents"@.len() == 8 && "Contents"@[0] == 'C',
        "BaseFont"@.len() == 8 && "BaseFont"@[0] == 'B',
        "Encoding"@.len() == 8 && "Encoding"@[0] == 'E',
        "Resources"@.len() == 9 && "Resources"@[0] == 'R',
        "ToUnicode"@.len() == 9 && "ToUnicode"@[0] == 'T',
        "DescendantFonts"@.len() == 15,
        "CIDSystemInfo"@.len() == 13,
        "DW"@.len() == 2,
{
    reveal_strlit("Type");
    reveal_strlit("Kids");
    reveal_strlit("Font");
    reveal_strlit("XRef");
    reveal_strlit("Page");
    reveal_strlit("Pages");
    reveal_strlit("Count");
    reveal_strlit("Parent");
    reveal_strlit("ObjStm");
    reveal_strlit("Subtype");
    reveal_strlit("Catalog");
    reveal_strlit("MediaBox");
    reveal_strlit("Contents");
    reveal_strlit("BaseFont");
    reveal_strlit("Encoding");
    reveal_strlit("Resources");
    reveal_strlit("ToUnicode");
    reveal_strlit("DescendantFonts");
    reveal_strlit("CIDSystemInfo");
    reveal_strlit("DW");
}

/// A value is none of the kinds of object that only newer files have.
pub open spec fn is_plain_type(d: Datum) -> bool {
    !object::has_type(d, Some("ObjStm"@)) && !object::has_type(d, Some("XRef"@))
}

pub proof fn lemma_catalog_holds()
    ensures
        held(catalog_entries(), "Type"@) == Some(Datum::Name("Catalog"@)),
        held(catalog_entries(), "Pages"@) == Some(object_ref(2)),
        is_plain_type(dict(catalog_entries())),
{
    lemma_names();
    let d = catalog_entries();
    lemma_sought(d, 2, "Type"@);
    lemma_sought(d, 2, "Pages"@);
    reveal_with_fuel(sought, 3);
}

pub proof fn lemma_pages_holds(count: int)
    ensures
        held(pages_entries(count), "Type"@) == Some(Datum::Name("Pages"@)),
        held(pages_entries(count), "Kids"@) == Some(Datum::Array(kid_refs(count))),
        held(pages_entries(count), "Resources"@) is None,
        held(pages_entries(count), "Parent"@) is None,
        is_plain_type(dict(pages_entries(count))),
        !object::has_type(dict(pages_entries(count)), Some("Catalog"@)),
        "Pages"@ != "Page"@,
{
    lemma_names();
    let d = pages_entries(count);
    lemma_sought(d, 3, "Type"@);
    lemma_sought(d, 3, "Kids"@);
    lemma_sought(d, 3, "Resources"@);
    lemma_sought(d, 3, "Parent"@);
    reveal_with_fuel(sought, 4);
}

/// The fonts of a page.
pub open spec fn page_fonts(count: int) -> Seq<(Seq<char>, Datum)> {
    seq![("F1"@, object_ref(page_number(count))), ("F2"@, object_ref(page_number(count) + 3))]
}

/// The size of a page.
pub open spec fn page_box() -> Seq<Datum> {
    seq![
        Datum::Number(whole(0)),
        Datum::Number(whole(0)),
        Datum::Number(whole(612)),
        Datum::Number(whole(792)),
    ]
}

/// The resources of a page.
pub open spec fn page_resources(count: int) -> Seq<(Seq<char>, Datum)> {
    seq![("Font"@, dict(page_fonts(count)))]
}

pub proof fn lemma_page_holds(count: int, index: int)
    ensures
        held(page_entries(count, index), "Type"@) == Some(Datum::Name("Page"@)),
        held(page_entries(count, index), "Parent"@) == Some(object_ref(2)),
        held(page_entries(count, index), "MediaBox"@) == Some(Datum::Array(page_box())),
        held(page_entries(count, index), "Resources"@) == Some(dict(page_resources(count))),
        held(page_entries(count, index), "Contents"@) == Some(object_ref(page_number(index) + 1)),
        held(page_resources(count), "Font"@) == Some(dict(page_fonts(count))),
        is_plain_type(dict(page_entries(count, index))),
{
    lemma_names();
    let d = page_entries(count, index);
    lemma_sought(d, 5, "Type"@);
    lemma_sought(d, 5, "Parent"@);
    lemma_sought(d, 5, "MediaBox"@);
    lemma_sought(d, 5, "Resources"@);
    lemma_sought(d, 5, "Contents"@);
    lemma_sought(page_resources(count), 1, "Font"@);
    reveal_with_fuel(sought, 6);
}

pub proof fn lemma_font_holds(count: int)
    ensures
        held(font_entries(count), "ToUnicode"@) == Some(object_ref(page_number(count) + 2)),
        held(font_entries(count), "Type"@) == Some(Datum::Name("Font"@)),
        is_plain_type(dict(font_entries(count))),
{
    lemma_names();
    let d = font_entries(count);
    lemma_sought(d, 6, "Type"@);
    lemma_sought(d, 6, "ToUnicode"@);
    reveal_with_fuel(sought, 7);
}

pub proof fn lemma_other_fonts_hold()
    ensures
        held(latin_entries(), "ToUnicode"@) is None,
        is_plain_type(dict(latin_entries())),
        is_plain_type(dict(descendant_entries())),
{
    lemma_names();
    lemma_sought(latin_entries(), 4, "Type"@);
    lemma_sought(latin_entries(), 4, "ToUnicode"@);
    lemma_sought(descendant_entries(), 5, "Type"@);
    reveal_with_fuel(sought, 6);
}

/// The fonts of a page in the order of their names.
pub proof fn lemma_font_rows(count: int)
    ensures
        filled(page_fonts(count), 2) == seq![
            (encode_utf8("F1"@), object_ref(page_number(count))),
            (encode_utf8("F2"@), object_ref(page_number(count) + 3)),
        ],
        encode_utf8("F1"@) != encode_utf8("F2"@),
{
    let d = page_fonts(count);
    reveal_strlit("F1");
    reveal_strlit("F2");
    is_ascii_chars_encode_utf8("F1"@);
    is_ascii_chars_encode_utf8("F2"@);
    let a = encode_utf8("F1"@);
    let b = encode_utf8("F2"@);
    assert("F1"@[0] as u8 == a[0] && "F1"@[1] as u8 == a[1]);
    assert("F2"@[0] as u8 == b[0] && "F2"@[1] as u8 == b[1]);
    reveal_with_fuel(filled, 3);
    reveal_with_fuel(table::bytes_below, 3);
    let none = Seq::<(Seq<u8>, Datum)>::empty();
    let one = table::put::<Vec<u8>, Datum>(none, a, d[0].1);
    assert(one =~= seq![(a, d[0].1)]);
    assert(<Vec<u8> as table::Key>::below(a, b));
    assert(table::rank::<Vec<u8>, Datum>(one, b, 1) == 1);
    assert(table::rank::<Vec<u8>, Datum>(one, b, 0) == 1);
    assert(filled(d, 2) =~= seq![(a, d[0].1), (b, d[1].1)]);
}

} // verus!
