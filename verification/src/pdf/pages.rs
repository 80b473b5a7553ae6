//! The pages of a document and what belongs to each of them.

use vstd::prelude::*;
use vstd::utf8::*;

use crate::pdf::cmap;
use crate::pdf::cmap::{parse_to_unicode_cmap, FontMap, Glyphs};
use crate::pdf::error::{settles, stopped, yields, Failure, PdfError};
use crate::pdf::filter;
use crate::pdf::filter::decode_stream_with_control;
use crate::pdf::number;
use crate::pdf::object;
use crate::pdf::object::{get_object, Objects, PdfObject, Thing, MAX_STREAM_BYTES};
use crate::pdf::selection::{MAX_PAGES, MAX_SELECTED_PAGES};
use crate::pdf::value;
use crate::pdf::value::{
    dictionary, is_name, lookup, name_value, number_from_value, reference_value, Datum, Dictionary,
    PdfRef, PdfValue, MAX_VALUE_DEPTH,
};
use crate::table;
use crate::table::{NumberSet, Table};
use crate::text;

verus! {

/// The width of a page that gives no size, in points.
pub const DEFAULT_WIDTH: u32 = 612;

/// The height of a page that gives no size, in points.
pub const DEFAULT_HEIGHT: u32 = 792;

/// The dictionary that a value is or refers to.
pub open spec fn resolved(objects: Seq<(u32, Thing)>, value: Option<Datum>) -> Option<
    Seq<(Seq<u8>, Datum)>,
> {
    match value {
        Some(Datum::Dict(dict)) => Some(dict),
        Some(Datum::Ref(reference)) => match object::object_in(objects, reference.object) {
            Some(object) => value::dict_in(Some(object.value)),
            None => None,
        },
        _ => None,
    }
}

/// The entries of the dictionary that a value is or refers to.
pub fn resolved_dictionary<'a>(objects: &'a Objects, value: Option<&'a PdfValue>) -> (r: Option<
    &'a Dictionary,
>)
    requires
        object::objects_wf(*objects),
        value is Some ==> value::value_wf(*value->0),
    ensures
        match r {
            Some(dict) => resolved(objects@, value::opt_view(value)) == Some(dict@)
                && value::dict_wf(*dict),
            None => resolved(objects@, value::opt_view(value)) is None,
        },
{
    match value {
        Some(found) => match found {
            PdfValue::Ref(reference) => match get_object(objects, reference.object) {
                Some(object) => dictionary(&object.value),
                None => None,
            },
            _ => dictionary(found),
        },
        None => None,
    }
}

/// The pages found so far, and the objects that were seen on the way.
pub struct Walk {
    pub pages: Seq<PdfRef>,
    pub visited: Set<u32>,
}

/// What the page tree at `value` adds to `walk`.
pub open spec fn page_tree(
    objects: Seq<(u32, Thing)>,
    value: Datum,
    walk: Walk,
    depth: int,
) -> Result<Walk, Failure>
    decreases MAX_VALUE_DEPTH + 1 - depth, 1int, 0int,
{
    if depth > MAX_VALUE_DEPTH {
        Err(Failure::CorruptedPdf)
    } else {
        match value {
            Datum::Array(kids) => page_trees(objects, kids, 0, walk, depth),
            Datum::Ref(reference) => if walk.visited.contains(reference.object) {
                Err(Failure::CorruptedPdf)
            } else {
                let walk = Walk {
                    visited: walk.visited.insert(reference.object),
                    pages: walk.pages,
                };
                match object::object_in(objects, reference.object) {
                    None => Err(Failure::CorruptedPdf),
                    Some(object) => match value::dict_in(Some(object.value)) {
                        None => page_tree(objects, object.value, walk, depth + 1),
                        Some(dict) => {
                            let kind = value::name_in(value::entry(dict, "Type"@));
                            if kind == Some("Page"@) {
                                if walk.pages.len() >= MAX_PAGES {
                                    Err(Failure::PageLimitExceeded)
                                } else {
                                    Ok(Walk {
                                        pages: walk.pages.push(reference),
                                        visited: walk.visited,
                                    })
                                }
                            } else if kind == Some("Pages"@) || kind is None {
                                match value::entry(dict, "Kids"@) {
                                    None => Err(Failure::CorruptedPdf),
                                    Some(kids) => page_tree(objects, kids, walk, depth + 1),
                                }
                            } else {
                                Err(Failure::CorruptedPdf)
                            }
                        },
                    },
                }
            },
            _ => Err(Failure::CorruptedPdf),
        }
    }
}

/// What the page trees from the `i`-th kid on add to `walk`.
pub open spec fn page_trees(
    objects: Seq<(u32, Thing)>,
    kids: Seq<Datum>,
    i: int,
    walk: Walk,
    depth: int,
) -> Result<Walk, Failure>
    decreases MAX_VALUE_DEPTH + 1 - depth, 0int, kids.len() - i,
{
    if i < 0 || i >= kids.len() || depth > MAX_VALUE_DEPTH {
        Ok(walk)
    } else {
        match page_tree(objects, kids[i], walk, depth + 1) {
            Err(failure) => Err(failure),
            Ok(walk) => page_trees(objects, kids, i + 1, walk, depth),
        }
    }
}

pub open spec fn walked(
    r: Result<(), PdfError>,
    expected: Result<Walk, Failure>,
    pages: Vec<PdfRef>,
    visited: NumberSet,
) -> bool {
    match expected {
        Ok(walk) => r is Ok && pages@ == walk.pages && visited@ == walk.visited,
        Err(failure) => r is Err && r->Err_0@ == failure,
    }
}

fn collect_page_tree(
    objects: &Objects,
    value: &PdfValue,
    pages: &mut Vec<PdfRef>,
    visited: &mut NumberSet,
    depth: usize,
) -> (r: Result<(), PdfError>)
    requires
        object::objects_wf(*objects),
        value::value_wf(*value),
        old(visited).wf(),
        depth <= MAX_VALUE_DEPTH + 1,
    ensures
        final(visited).wf(),
        walked(
            r,
            page_tree(
                objects@,
                value@,
                Walk { pages: old(pages)@, visited: old(visited)@ },
                depth as int,
            ),
            *final(pages),
            *final(visited),
        ),
    decreases MAX_VALUE_DEPTH + 1 - depth,
{
    if depth > MAX_VALUE_DEPTH {
        return Err(PdfError::CorruptedPdf);
    }
    match value {
        PdfValue::Array(kids) => {
            proof {
                value::lemma_datum(*value);
            }
            let ghost all = value::data(kids@);
            let ghost goal = page_trees(
                objects@,
                all,
                0,
                Walk { pages: pages@, visited: visited@ },
                depth as int,
            );
            assert(goal == page_tree(
                objects@,
                value@,
                Walk { pages: old(pages)@, visited: old(visited)@ },
                depth as int,
            ));
            let mut i: usize = 0;
            while i < kids.len()
                invariant
                    i <= kids@.len(),
                    object::objects_wf(*objects),
                    forall|k: int| 0 <= k < kids@.len() ==> value::value_wf(#[trigger] kids@[k]),
                    all == value::data(kids@),
                    visited.wf(),
                    depth <= MAX_VALUE_DEPTH,
                    goal == page_tree(
                        objects@,
                        value@,
                        Walk { pages: old(pages)@, visited: old(visited)@ },
                        depth as int,
                    ),
                    page_trees(
                        objects@,
                        all,
                        i as int,
                        Walk { pages: pages@, visited: visited@ },
                        depth as int,
                    ) == goal,
                decreases kids@.len() - i,
            {
                assert(all[i as int] == kids@[i as int]@);
                match collect_page_tree(objects, &kids[i], pages, visited, depth + 1) {
                    Err(error) => {
                        return Err(error);
                    },
                    Ok(()) => {},
                }
                i += 1;
            }
            Ok(())
        },
        PdfValue::Ref(reference) => {
            if visited.contains(reference.object) {
                return Err(PdfError::CorruptedPdf);
            }
            visited.insert(reference.object);
            let object = match get_object(objects, reference.object) {
                None => {
                    return Err(PdfError::CorruptedPdf);
                },
                Some(object) => object,
            };
            let dict = match dictionary(&object.value) {
                None => {
                    return collect_page_tree(objects, &object.value, pages, visited, depth + 1);
                },
                Some(dict) => dict,
            };
            let kind = name_value(lookup(dict, "Type"));
            let (is_page, is_node): (bool, bool) = match kind {
                None => (false, true),
                Some(name) => (text::same(name, "Page"), text::same(name, "Pages")),
            };
            if is_page {
                if pages.len() >= MAX_PAGES {
                    return Err(PdfError::PageLimitExceeded);
                }
                pages.push(*reference);
                Ok(())
            } else if is_node {
                match lookup(dict, "Kids") {
                    None => Err(PdfError::CorruptedPdf),
                    Some(kids) => collect_page_tree(objects, kids, pages, visited, depth + 1),
                }
            } else {
                Err(PdfError::CorruptedPdf)
            }
        },
        _ => Err(PdfError::CorruptedPdf),
    }
}

pub open spec fn is_typed(object: Thing, kind: Seq<char>) -> bool {
    object::has_type(object.value, Some(kind))
}

/// The first object from `i` on of that type.
pub open spec fn first_typed(objects: Seq<(u32, Thing)>, kind: Seq<char>, i: int) -> Option<PdfRef>
    decreases objects.len() - i,
{
    if i < 0 || i >= objects.len() {
        None
    } else if is_typed(objects[i].1, kind) {
        Some(PdfRef { object: objects[i].0, generation: 0 })
    } else {
        first_typed(objects, kind, i + 1)
    }
}

/// The objects up to `n` of that type.
pub open spec fn all_typed(objects: Seq<(u32, Thing)>, kind: Seq<char>, n: int) -> Seq<PdfRef>
    decreases n,
{
    if n <= 0 {
        Seq::empty()
    } else if is_typed(objects[n - 1].1, kind) {
        all_typed(objects, kind, n - 1).push(PdfRef { object: objects[n - 1].0, generation: 0 })
    } else {
        all_typed(objects, kind, n - 1)
    }
}

/// The pages that the catalog leads to.
pub open spec fn catalog_pages(objects: Seq<(u32, Thing)>, catalog: Option<PdfRef>) -> Result<
    Seq<PdfRef>,
    Failure,
> {
    match catalog {
        None => Ok(Seq::empty()),
        Some(catalog) => match object::object_in(objects, catalog.object) {
            None => Ok(Seq::empty()),
            Some(object) => match value::dict_in(Some(object.value)) {
                None => Ok(Seq::empty()),
                Some(dict) => match value::entry(dict, "Pages"@) {
                    None => Ok(Seq::empty()),
                    Some(root) => match page_tree(
                        objects,
                        root,
                        Walk { pages: Seq::empty(), visited: Set::empty() },
                        0,
                    ) {
                        Err(failure) => Err(failure),
                        Ok(walk) => Ok(walk.pages),
                    },
                },
            },
        },
    }
}

/// The pages of a document in order.
pub open spec fn pages_of(objects: Seq<(u32, Thing)>, root: Option<PdfRef>) -> Result<
    Seq<PdfRef>,
    Failure,
> {
    let catalog = match root {
        Some(_) => root,
        None => first_typed(objects, "Catalog"@, 0),
    };
    match catalog_pages(objects, catalog) {
        Err(failure) => Err(failure),
        Ok(pages) => if pages.len() == 0 && root is None {
            Ok(all_typed(objects, "Page"@, objects.len() as int))
        } else {
            Ok(pages)
        },
    }
}

fn object_is_typed(object: &PdfObject, kind: &str) -> (r: bool)
    requires
        value::value_wf(object.value),
    ensures
        r == is_typed(object@, kind@),
{
    match dictionary(&object.value) {
        None => false,
        Some(dict) => is_name(lookup(dict, "Type"), kind),
    }
}

fn find_typed(objects: &Objects, kind: &str) -> (r: Option<PdfRef>)
    requires
        object::objects_wf(*objects),
    ensures
        r == first_typed(objects@, kind@, 0),
{
    let mut i: usize = 0;
    while i < objects.rows.len()
        invariant
            i <= objects.rows@.len(),
            object::objects_wf(*objects),
            first_typed(objects@, kind@, i as int) == first_typed(objects@, kind@, 0),
        decreases objects.rows@.len() - i,
    {
        assert(objects@[i as int] == (objects.rows@[i as int].0, objects.rows@[i as int].1@));
        if object_is_typed(&objects.rows[i].1, kind) {
            return Some(PdfRef { object: objects.rows[i].0, generation: 0 });
        }
        i += 1;
    }
    None
}

fn list_typed(objects: &Objects, kind: &str) -> (r: Vec<PdfRef>)
    requires
        object::objects_wf(*objects),
    ensures
        r@ == all_typed(objects@, kind@, objects@.len() as int),
{
    let mut found: Vec<PdfRef> = Vec::new();
    let mut i: usize = 0;
    while i < objects.rows.len()
        invariant
            i <= objects.rows@.len(),
            object::objects_wf(*objects),
            found@ == all_typed(objects@, kind@, i as int),
        decreases objects.rows@.len() - i,
    {
        assert(objects@[i as int] == (objects.rows@[i as int].0, objects.rows@[i as int].1@));
        if object_is_typed(&objects.rows[i].1, kind) {
            found.push(PdfRef { object: objects.rows[i].0, generation: 0 });
        }
        i += 1;
    }
    found
}

/// Lists the pages of a document in order.
pub fn ordered_pages(objects: &Objects, root: Option<PdfRef>) -> (r: Result<Vec<PdfRef>, PdfError>)
    requires
        object::objects_wf(*objects),
    ensures
        yields(r, pages_of(objects@, root)),
{
    let catalog = if root.is_some() {
        root
    } else {
        find_typed(objects, "Catalog")
    };
    let mut pages: Vec<PdfRef> = Vec::new();
    if let Some(catalog) = catalog {
        if let Some(object) = get_object(objects, catalog.object) {
            if let Some(dict) = dictionary(&object.value) {
                if let Some(tree) = lookup(dict, "Pages") {
                    let mut visited = NumberSet::new();
                    match collect_page_tree(objects, tree, &mut pages, &mut visited, 0) {
                        Err(error) => {
                            return Err(error);
                        },
                        Ok(()) => {},
                    }
                }
            }
        }
    }
    if pages.len() == 0 && root.is_none() {
        pages = list_typed(objects, "Page");
    }
    Ok(pages)
}

/// The size that a media box gives, if its corners are numbers.
pub open spec fn box_size(values: Seq<Datum>) -> Option<(u32, u32)> {
    match (
        value::number_in(Some(values[0])),
        value::number_in(Some(values[1])),
        value::number_in(Some(values[2])),
        value::number_in(Some(values[3])),
    ) {
        (Some(x0), Some(y0), Some(x1), Some(y1)) => Some(
            (
                x1.plus_spec(x0.negated_spec()).page_side_spec(),
                y1.plus_spec(y0.negated_spec()).page_side_spec(),
            ),
        ),
        _ => None,
    }
}

/// The size of a page between the corners of its box, whichever come first: as
/// wide as they are apart from left to right, as high as from bottom to top.
pub proof fn law_page_is_as_large_as_its_box(
    values: Seq<Datum>,
    left: int,
    bottom: int,
    right: int,
    top: int,
)
    requires
        values.len() >= 4,
        values[0] is Number && number::is_whole(values[0]->Number_0, left),
        values[1] is Number && number::is_whole(values[1]->Number_0, bottom),
        values[2] is Number && number::is_whole(values[2]->Number_0, right),
        values[3] is Number && number::is_whole(values[3]->Number_0, top),
        -10_000 < left < 10_000,
        -10_000 < bottom < 10_000,
        -10_000 < right < 10_000,
        -10_000 < top < 10_000,
    ensures
        box_size(values) is Some,
        1 <= right - left <= 2000 || 1 <= left - right <= 2000 ==> (box_size(values)->0).0
            == if left < right {
            right - left
        } else {
            left - right
        },
        1 <= top - bottom <= 2000 || 1 <= bottom - top <= 2000 ==> (box_size(values)->0).1
            == if bottom < top {
            top - bottom
        } else {
            bottom - top
        },
        right == left ==> (box_size(values)->0).0 == 1,
        top == bottom ==> (box_size(values)->0).1 == 1,
        right - left > 2000 || left - right > 2000 ==> (box_size(values)->0).0 == 2000,
        top - bottom > 2000 || bottom - top > 2000 ==> (box_size(values)->0).1 == 2000,
{
    number::law_side_is_a_distance(values[0]->Number_0, values[2]->Number_0, left, right);
    number::law_side_is_a_distance(values[1]->Number_0, values[3]->Number_0, bottom, top);
}

/// The size of the page `current`, or of the nearest node above it that has
/// one; at most `steps` nodes are looked at, none of them twice.
pub open spec fn size_from(
    objects: Seq<(u32, Thing)>,
    current: Option<PdfRef>,
    visited: Set<u32>,
    steps: nat,
) -> (u32, u32)
    decreases steps,
{
    let default = (DEFAULT_WIDTH, DEFAULT_HEIGHT);
    match current {
        None => default,
        Some(reference) => if steps == 0 || visited.contains(reference.object) {
            default
        } else {
            match object::object_in(objects, reference.object) {
                None => default,
                Some(object) => match value::dict_in(Some(object.value)) {
                    None => default,
                    Some(dict) => {
                        let above = size_from(
                            objects,
                            value::ref_in(value::entry(dict, "Parent"@)),
                            visited.insert(reference.object),
                            (steps - 1) as nat,
                        );
                        match value::entry(dict, "MediaBox"@) {
                            Some(Datum::Array(values)) => if values.len() >= 4 {
                                match box_size(values) {
                                    Some(size) => size,
                                    None => default,
                                }
                            } else {
                                above
                            },
                            _ => above,
                        }
                    },
                },
            }
        },
    }
}

fn read_box(values: &Vec<PdfValue>) -> (r: Option<(u32, u32)>)
    requires
        values@.len() >= 4,
        forall|i: int| 0 <= i < values@.len() ==> value::value_wf(#[trigger] values@[i]),
    ensures
        r == box_size(value::data(values@)),
{
    assert(value::value_wf(values@[0]) && value::value_wf(values@[1]) && value::value_wf(values@[2])
        && value::value_wf(values@[3]));
    match (
        number_from_value(Some(&values[0])),
        number_from_value(Some(&values[1])),
        number_from_value(Some(&values[2])),
        number_from_value(Some(&values[3])),
    ) {
        (Some(x0), Some(y0), Some(x1), Some(y1)) => Some(
            (x1.plus(x0.negated()).page_side(), y1.plus(y0.negated()).page_side()),
        ),
        _ => None,
    }
}

/// The size of a page in points.
pub fn page_size(objects: &Objects, page_ref: PdfRef) -> (r: (u32, u32))
    requires
        object::objects_wf(*objects),
    ensures
        r == size_from(objects@, Some(page_ref), Set::empty(), objects@.len()),
{
    let mut current: Option<PdfRef> = Some(page_ref);
    let mut visited = NumberSet::new();
    let mut steps: usize = objects.len();
    let ghost goal = size_from(objects@, Some(page_ref), Set::empty(), objects@.len());
    while steps > 0
        invariant
            object::objects_wf(*objects),
            visited.wf(),
            goal == size_from(objects@, Some(page_ref), Set::empty(), objects@.len()),
            size_from(objects@, current, visited@, steps as nat) == goal,
        decreases steps,
    {
        let reference = match current {
            None => {
                return (DEFAULT_WIDTH, DEFAULT_HEIGHT);
            },
            Some(reference) => reference,
        };
        if visited.contains(reference.object) {
            return (DEFAULT_WIDTH, DEFAULT_HEIGHT);
        }
        visited.insert(reference.object);
        let dict = match get_object(objects, reference.object) {
            None => {
                return (DEFAULT_WIDTH, DEFAULT_HEIGHT);
            },
            Some(object) => match dictionary(&object.value) {
                None => {
                    return (DEFAULT_WIDTH, DEFAULT_HEIGHT);
                },
                Some(dict) => dict,
            },
        };
        let media = lookup(dict, "MediaBox");
        if let Some(found) = media {
            proof {
                value::lemma_datum(*found);
            }
            if let PdfValue::Array(values) = found {
                if values.len() >= 4 {
                    return match read_box(values) {
                        Some(size) => size,
                        None => (DEFAULT_WIDTH, DEFAULT_HEIGHT),
                    };
                }
            }
        }
        current = reference_value(lookup(dict, "Parent"));
        steps -= 1;
    }
    (DEFAULT_WIDTH, DEFAULT_HEIGHT)
}

/// The resources of the page `current`, or of the nearest node above it that
/// has any; at most `steps` nodes are looked at, none of them twice.
pub open spec fn resources_from(
    objects: Seq<(u32, Thing)>,
    current: Option<PdfRef>,
    visited: Set<u32>,
    steps: nat,
) -> Option<Seq<(Seq<u8>, Datum)>>
    decreases steps,
{
    match current {
        None => None,
        Some(reference) => if steps == 0 || visited.contains(reference.object) {
            None
        } else {
            match object::object_in(objects, reference.object) {
                None => None,
                Some(object) => match value::dict_in(Some(object.value)) {
                    None => None,
                    Some(dict) => match value::entry(dict, "Resources"@) {
                        Some(resources) => resolved(objects, Some(resources)),
                        None => resources_from(
                            objects,
                            value::ref_in(value::entry(dict, "Parent"@)),
                            visited.insert(reference.object),
                            (steps - 1) as nat,
                        ),
                    },
                },
            }
        },
    }
}

/// The resources of a page, which a node above it may hold.
pub fn page_resources<'a>(objects: &'a Objects, page_ref: PdfRef) -> (r: Option<&'a Dictionary>)
    requires
        object::objects_wf(*objects),
    ensures
        match r {
            Some(dict) => resources_from(objects@, Some(page_ref), Set::empty(), objects@.len())
                == Some(dict@) && value::dict_wf(*dict),
            None => resources_from(
                objects@,
                Some(page_ref),
                Set::empty(),
                objects@.len(),
            ) is None,
        },
{
    let mut current: Option<PdfRef> = Some(page_ref);
    let mut visited = NumberSet::new();
    let mut steps: usize = objects.len();
    let ghost goal = resources_from(objects@, Some(page_ref), Set::empty(), objects@.len());
    while steps > 0
        invariant
            object::objects_wf(*objects),
            visited.wf(),
            goal == resources_from(objects@, Some(page_ref), Set::empty(), objects@.len()),
            resources_from(objects@, current, visited@, steps as nat) == goal,
        decreases steps,
    {
        let reference = match current {
            None => {
                return None;
            },
            Some(reference) => reference,
        };
        if visited.contains(reference.object) {
            return None;
        }
        visited.insert(reference.object);
        let dict = match get_object(objects, reference.object) {
            None => {
                return None;
            },
            Some(object) => match dictionary(&object.value) {
                None => {
                    return None;
                },
                Some(dict) => dict,
            },
        };
        let resources = lookup(dict, "Resources");
        if resources.is_some() {
            return resolved_dictionary(objects, resources);
        }
        current = reference_value(lookup(dict, "Parent"));
        steps -= 1;
    }
    None
}

/// The font maps of a page by the names under which its content knows them.
pub type FontMaps = Table<Vec<u8>, FontMap>;

pub open spec fn fonts_wf(fonts: FontMaps) -> bool {
    &&& fonts.wf()
    &&& forall|i: int| 0 <= i < fonts.rows@.len() ==> (#[trigger] fonts.rows@[i]).1.wf()
}

/// A font whose stream fails to decode in this way fails the whole page.
pub open spec fn is_fatal(failure: Failure) -> bool {
    failure is Cancelled || failure is StreamLimitExceeded || failure is CMapLimitExceeded
}

/// The map from codes to text that a font comes with.
pub open spec fn map_of_font(objects: Seq<(u32, Thing)>, font: Datum) -> Result<
    Option<Glyphs>,
    Failure,
> {
    match resolved(objects, Some(font)) {
        None => Ok(None),
        Some(font) => match value::ref_in(value::entry(font, "ToUnicode"@)) {
            None => Ok(None),
            Some(reference) => match object::object_in(objects, reference.object) {
                None => Ok(None),
                Some(object) => match filter::decoded(object) {
                    Err(failure) => if is_fatal(failure) {
                        Err(failure)
                    } else {
                        Ok(None)
                    },
                    Ok(stream) => cmap::font_map(stream),
                },
            },
        },
    }
}

/// The maps of the fonts from the `i`-th on, added to `found`.
pub open spec fn maps_of_fonts(
    objects: Seq<(u32, Thing)>,
    fonts: Seq<(Seq<u8>, Datum)>,
    i: int,
    found: Seq<(Seq<u8>, Glyphs)>,
) -> Result<Seq<(Seq<u8>, Glyphs)>, Failure>
    decreases fonts.len() - i,
{
    if i < 0 || i >= fonts.len() {
        Ok(found)
    } else {
        match map_of_font(objects, fonts[i].1) {
            Err(failure) => Err(failure),
            Ok(None) => maps_of_fonts(objects, fonts, i + 1, found),
            Ok(Some(map)) => maps_of_fonts(
                objects,
                fonts,
                i + 1,
                table::put::<Vec<u8>, Glyphs>(found, fonts[i].0, map),
            ),
        }
    }
}

/// The font maps that go with resources.
pub open spec fn resource_fonts(
    objects: Seq<(u32, Thing)>,
    resources: Seq<(Seq<u8>, Datum)>,
) -> Result<Seq<(Seq<u8>, Glyphs)>, Failure> {
    match resolved(objects, value::entry(resources, "Font"@)) {
        None => Ok(Seq::empty()),
        Some(fonts) => maps_of_fonts(objects, fonts, 0, Seq::empty()),
    }
}

fn read_font_map<F: Fn() -> bool>(objects: &Objects, font: &PdfValue, should_stop: &F) -> (r:
    Result<Option<FontMap>, PdfError>)
    requires
        object::objects_wf(*objects),
        value::value_wf(*font),
        should_stop.requires(()),
    ensures
        stopped(r, *should_stop) || match map_of_font(objects@, font@) {
            Ok(glyphs) => r is Ok && cmap::opt_map(r->Ok_0) == glyphs,
            Err(failure) => r is Err && r->Err_0@ == failure,
        },
        r matches Ok(Some(map)) ==> map.wf(),
{
    let font = match resolved_dictionary(objects, Some(font)) {
        None => {
            return Ok(None);
        },
        Some(font) => font,
    };
    let reference = match reference_value(lookup(font, "ToUnicode")) {
        None => {
            return Ok(None);
        },
        Some(reference) => reference,
    };
    let object = match get_object(objects, reference.object) {
        None => {
            return Ok(None);
        },
        Some(object) => object,
    };
    match decode_stream_with_control(object, should_stop) {
        Ok(stream) => parse_to_unicode_cmap(stream.as_slice(), should_stop),
        Err(error) => match error {
            PdfError::Cancelled => Err(PdfError::Cancelled),
            PdfError::StreamLimitExceeded => Err(PdfError::StreamLimitExceeded),
            PdfError::CMapLimitExceeded => Err(PdfError::CMapLimitExceeded),
            _ => Ok(None),
        },
    }
}

/// The font maps that go with resources.
pub fn font_maps_for_resources<F: Fn() -> bool>(
    objects: &Objects,
    resources: &Dictionary,
    should_stop: &F,
) -> (r: Result<FontMaps, PdfError>)
    requires
        object::objects_wf(*objects),
        value::dict_wf(*resources),
        should_stop.requires(()),
    ensures
        settles(r, resource_fonts(objects@, resources@), *should_stop),
        r is Ok ==> fonts_wf(r->Ok_0),
{
    let mut output: FontMaps = Table::new();
    let fonts = match resolved_dictionary(objects, lookup(resources, "Font")) {
        None => {
            return Ok(output);
        },
        Some(fonts) => fonts,
    };
    let ghost goal = resource_fonts(objects@, resources@);
    assert(goal == maps_of_fonts(objects@, fonts@, 0, output@));
    let mut i: usize = 0;
    while i < fonts.rows.len()
        invariant
            i <= fonts.rows@.len(),
            object::objects_wf(*objects),
            value::dict_wf(*fonts),
            should_stop.requires(()),
            fonts_wf(output),
            goal == resource_fonts(objects@, resources@),
            maps_of_fonts(objects@, fonts@, i as int, output@) == goal,
        decreases fonts.rows@.len() - i,
    {
        if should_stop() {
            return Err(PdfError::Cancelled);
        }
        assert(fonts@[i as int] == (fonts.rows@[i as int].0@, fonts.rows@[i as int].1@));
        match read_font_map(objects, &fonts.rows[i].1, should_stop) {
            Err(error) => {
                return Err(error);
            },
            Ok(None) => {},
            Ok(Some(map)) => {
                let name: Vec<u8> = fonts.rows[i].0.clone();
                assert(name@ =~= fonts.rows@[i as int].0@);
                output.insert(name, map);
            },
        }
        i += 1;
    }
    Ok(output)
}

/// The font maps of the page `current`, or of the nearest node above it that
/// has any; at most `steps` nodes are looked at, none of them twice.
pub open spec fn fonts_from(
    objects: Seq<(u32, Thing)>,
    current: Option<PdfRef>,
    visited: Set<u32>,
    steps: nat,
) -> Result<Seq<(Seq<u8>, Glyphs)>, Failure>
    decreases steps,
{
    match current {
        None => Ok(Seq::empty()),
        Some(reference) => if steps == 0 || visited.contains(reference.object) {
            Ok(Seq::empty())
        } else {
            match object::object_in(objects, reference.object) {
                None => Ok(Seq::empty()),
                Some(object) => match value::dict_in(Some(object.value)) {
                    None => Ok(Seq::empty()),
                    Some(dict) => {
                        let own = match resolved(objects, value::entry(dict, "Resources"@)) {
                            None => Ok(Seq::empty()),
                            Some(resources) => resource_fonts(objects, resources),
                        };
                        match own {
                            Err(failure) => Err(failure),
                            Ok(fonts) => if fonts.len() > 0 {
                                Ok(fonts)
                            } else {
                                fonts_from(
                                    objects,
                                    value::ref_in(value::entry(dict, "Parent"@)),
                                    visited.insert(reference.object),
                                    (steps - 1) as nat,
                                )
                            },
                        }
                    },
                },
            }
        },
    }
}

/// The font maps of a page, which a node above it may hold.
pub fn page_font_maps<F: Fn() -> bool>(
    objects: &Objects,
    page_ref: PdfRef,
    should_stop: &F,
) -> (r: Result<FontMaps, PdfError>)
    requires
        object::objects_wf(*objects),
        should_stop.requires(()),
    ensures
        settles(
            r,
            fonts_from(objects@, Some(page_ref), Set::empty(), objects@.len()),
            *should_stop,
        ),
        r is Ok ==> fonts_wf(r->Ok_0),
{
    let mut current: Option<PdfRef> = Some(page_ref);
    let mut visited = NumberSet::new();
    let mut steps: usize = objects.len();
    let ghost goal = fonts_from(objects@, Some(page_ref), Set::empty(), objects@.len());
    while steps > 0
        invariant
            object::objects_wf(*objects),
            visited.wf(),
            should_stop.requires(()),
            goal == fonts_from(objects@, Some(page_ref), Set::empty(), objects@.len()),
            fonts_from(objects@, current, visited@, steps as nat) == goal,
        decreases steps,
    {
        let reference = match current {
            None => {
                return Ok(Table::new());
            },
            Some(reference) => reference,
        };
        if should_stop() {
            return Err(PdfError::Cancelled);
        }
        if visited.contains(reference.object) {
            return Ok(Table::new());
        }
        visited.insert(reference.object);
        let dict = match get_object(objects, reference.object) {
            None => {
                return Ok(Table::new());
            },
            Some(object) => match dictionary(&object.value) {
                None => {
                    return Ok(Table::new());
                },
                Some(dict) => dict,
            },
        };
        match resolved_dictionary(objects, lookup(dict, "Resources")) {
            None => {},
            Some(resources) => {
                match font_maps_for_resources(objects, resources, should_stop) {
                    Err(error) => {
                        return Err(error);
                    },
                    Ok(fonts) => {
                        if fonts.len() > 0 {
                            return Ok(fonts);
                        }
                    },
                }
            },
        }
        current = reference_value(lookup(dict, "Parent"));
        steps -= 1;
    }
    Ok(Table::new())
}

/// The streams that `value` leads to, added to `found`; `visiting` holds the
/// objects on the way.
pub open spec fn streams_in(
    objects: Seq<(u32, Thing)>,
    value: Datum,
    found: Seq<PdfRef>,
    visiting: Seq<u32>,
) -> Result<Seq<PdfRef>, Failure>
    decreases MAX_VALUE_DEPTH - visiting.len(), value, 0int,
{
    match value {
        Datum::Ref(reference) => if visiting.len() >= MAX_VALUE_DEPTH || visiting.contains(
            reference.object,
        ) {
            Err(Failure::CorruptedPdf)
        } else {
            match object::object_in(objects, reference.object) {
                None => Err(Failure::CorruptedPdf),
                Some(object) => if object.stream is Some {
                    if found.len() >= MAX_SELECTED_PAGES {
                        Err(Failure::CorruptedPdf)
                    } else {
                        Ok(found.push(reference))
                    }
                } else {
                    streams_in(objects, object.value, found, visiting.push(reference.object))
                },
            }
        },
        Datum::Array(items) => streams_in_all(objects, items, 0, found, visiting),
        _ => Err(Failure::CorruptedPdf),
    }
}

/// The streams that the items from the `i`-th on lead to, added to `found`.
pub open spec fn streams_in_all(
    objects: Seq<(u32, Thing)>,
    items: Seq<Datum>,
    i: int,
    found: Seq<PdfRef>,
    visiting: Seq<u32>,
) -> Result<Seq<PdfRef>, Failure>
    decreases MAX_VALUE_DEPTH - visiting.len(), items, items.len() - i,
{
    if i < 0 || i >= items.len() {
        Ok(found)
    } else {
        match streams_in(objects, items[i], found, visiting) {
            Err(failure) => Err(failure),
            Ok(found) => streams_in_all(objects, items, i + 1, found, visiting),
        }
    }
}

/// `n` is among the items.
pub fn holds(items: &Vec<u32>, n: u32) -> (r: bool)
    ensures
        r == items@.contains(n),
{
    let mut i: usize = 0;
    while i < items.len()
        invariant
            i <= items@.len(),
            forall|k: int| 0 <= k < i ==> items@[k] != n,
        decreases items@.len() - i,
    {
        if items[i] == n {
            assert(items@[i as int] == n);
            return true;
        }
        i += 1;
    }
    false
}

pub open spec fn listed(
    r: Result<(), PdfError>,
    expected: Result<Seq<PdfRef>, Failure>,
    found: Vec<PdfRef>,
) -> bool {
    match expected {
        Ok(all) => r is Ok && found@ == all,
        Err(failure) => r is Err && r->Err_0@ == failure,
    }
}

fn collect_content_references(
    objects: &Objects,
    value: &PdfValue,
    output: &mut Vec<PdfRef>,
    visiting: &mut Vec<u32>,
) -> (r: Result<(), PdfError>)
    requires
        object::objects_wf(*objects),
        value::value_wf(*value),
        old(visiting)@.len() <= MAX_VALUE_DEPTH,
    ensures
        r is Ok ==> final(visiting)@ == old(visiting)@,
        listed(r, streams_in(objects@, value@, old(output)@, old(visiting)@), *final(output)),
    decreases MAX_VALUE_DEPTH - old(visiting)@.len(), value,
{
    let ghost stack = visiting@;
    match value {
        PdfValue::Ref(reference) => {
            if visiting.len() >= MAX_VALUE_DEPTH || holds(visiting, reference.object) {
                return Err(PdfError::CorruptedPdf);
            }
            let object = match get_object(objects, reference.object) {
                None => {
                    return Err(PdfError::CorruptedPdf);
                },
                Some(object) => object,
            };
            if object.stream.is_some() {
                if output.len() >= MAX_SELECTED_PAGES {
                    return Err(PdfError::CorruptedPdf);
                }
                output.push(*reference);
            } else {
                visiting.push(reference.object);
                match collect_content_references(objects, &object.value, output, visiting) {
                    Err(error) => {
                        return Err(error);
                    },
                    Ok(()) => {},
                }
                visiting.pop();
                assert(visiting@ =~= stack);
            }
            Ok(())
        },
        PdfValue::Array(values) => {
            proof {
                value::lemma_datum(*value);
            }
            let ghost all = value::data(values@);
            let ghost goal = streams_in_all(objects@, all, 0, output@, stack);
            assert(goal == streams_in(objects@, value@, old(output)@, stack));
            let mut i: usize = 0;
            while i < values.len()
                invariant
                    i <= values@.len(),
                    object::objects_wf(*objects),
                    forall|k: int|
                        0 <= k < values@.len() ==> value::value_wf(#[trigger] values@[k]),
                    all == value::data(values@),
                    *value == PdfValue::Array(*values),
                    visiting@ == stack,
                    stack == old(visiting)@,
                    stack.len() <= MAX_VALUE_DEPTH,
                    goal == streams_in(objects@, value@, old(output)@, stack),
                    streams_in_all(objects@, all, i as int, output@, stack) == goal,
                decreases values@.len() - i,
            {
                assert(all[i as int] == values@[i as int]@);
                assert(decreases_to!(*value => values@[i as int]));
                match collect_content_references(objects, &values[i], output, visiting) {
                    Err(error) => {
                        return Err(error);
                    },
                    Ok(()) => {},
                }
                i += 1;
            }
            Ok(())
        },
        _ => Err(PdfError::CorruptedPdf),
    }
}

/// The decoded streams from the `i`-th on, added to `found`; `total` counts
/// the bytes so far.
pub open spec fn decoded_all(
    objects: Seq<(u32, Thing)>,
    references: Seq<PdfRef>,
    i: int,
    found: Seq<Seq<u8>>,
    total: int,
) -> Result<Seq<Seq<u8>>, Failure>
    decreases references.len() - i,
{
    if i < 0 || i >= references.len() {
        Ok(found)
    } else {
        match object::object_in(objects, references[i].object) {
            None => Err(Failure::CorruptedPdf),
            Some(object) => match filter::decoded(object) {
                Err(failure) => Err(failure),
                Ok(stream) => if total + stream.len() > MAX_STREAM_BYTES {
                    Err(Failure::StreamLimitExceeded)
                } else {
                    decoded_all(
                        objects,
                        references,
                        i + 1,
                        found.push(stream),
                        total + stream.len(),
                    )
                },
            },
        }
    }
}

/// The decoded content streams of a page, in order.
pub open spec fn page_contents(objects: Seq<(u32, Thing)>, page: PdfRef) -> Result<
    Seq<Seq<u8>>,
    Failure,
> {
    match object::object_in(objects, page.object) {
        None => Err(Failure::CorruptedPdf),
        Some(object) => match value::dict_in(Some(object.value)) {
            None => Err(Failure::CorruptedPdf),
            Some(dict) => match value::entry(dict, "Contents"@) {
                None => Ok(Seq::empty()),
                Some(contents) => match streams_in(
                    objects,
                    contents,
                    Seq::empty(),
                    Seq::empty(),
                ) {
                    Err(failure) => Err(failure),
                    Ok(references) => decoded_all(objects, references, 0, Seq::empty(), 0),
                },
            },
        },
    }
}

pub open spec fn chunks(streams: Seq<Vec<u8>>) -> Seq<Seq<u8>> {
    Seq::new(streams.len(), |i: int| streams[i]@)
}

/// Decodes the content streams of a page.
pub fn page_content_streams<F: Fn() -> bool>(
    objects: &Objects,
    page_ref: PdfRef,
    should_stop: &F,
) -> (r: Result<Vec<Vec<u8>>, PdfError>)
    requires
        object::objects_wf(*objects),
        should_stop.requires(()),
    ensures
        stopped(r, *should_stop) || match page_contents(objects@, page_ref) {
            Ok(streams) => r is Ok && chunks(r->Ok_0@) == streams,
            Err(failure) => r is Err && r->Err_0@ == failure,
        },
{
    let mut streams: Vec<Vec<u8>> = Vec::new();
    assert(chunks(streams@) =~= Seq::<Seq<u8>>::empty());
    let dict = match get_object(objects, page_ref.object) {
        None => {
            return Err(PdfError::CorruptedPdf);
        },
        Some(page) => match dictionary(&page.value) {
            None => {
                return Err(PdfError::CorruptedPdf);
            },
            Some(dict) => dict,
        },
    };
    let contents = match lookup(dict, "Contents") {
        None => {
            return Ok(streams);
        },
        Some(contents) => contents,
    };
    let mut references: Vec<PdfRef> = Vec::new();
    let mut visiting: Vec<u32> = Vec::new();
    match collect_content_references(objects, contents, &mut references, &mut visiting) {
        Err(error) => {
            return Err(error);
        },
        Ok(()) => {},
    }
    let mut total: usize = 0;
    let ghost goal = page_contents(objects@, page_ref);
    assert(goal == decoded_all(objects@, references@, 0, chunks(streams@), 0));
    let mut i: usize = 0;
    while i < references.len()
        invariant
            i <= references@.len(),
            total <= MAX_STREAM_BYTES,
            object::objects_wf(*objects),
            should_stop.requires(()),
            goal == page_contents(objects@, page_ref),
            decoded_all(objects@, references@, i as int, chunks(streams@), total as int) == goal,
        decreases references@.len() - i,
    {
        if should_stop() {
            return Err(PdfError::Cancelled);
        }
        let object = match get_object(objects, references[i].object) {
            None => {
                return Err(PdfError::CorruptedPdf);
            },
            Some(object) => object,
        };
        let stream = match decode_stream_with_control(object, should_stop) {
            Err(error) => {
                return Err(error);
            },
            Ok(stream) => stream,
        };
        if stream.len() > MAX_STREAM_BYTES - total {
            return Err(PdfError::StreamLimitExceeded);
        }
        total += stream.len();
        let ghost before = chunks(streams@);
        streams.push(stream);
        assert(chunks(streams@) =~= before.push(stream@));
        i += 1;
    }
    Ok(streams)
}

} // verus!
