//! The order of pages and of what stands on them.

use vstd::prelude::*;

use crate::pdf::error::Failure;
use crate::pdf::filter;
use crate::pdf::object;
use crate::pdf::object::{Thing, MAX_STREAM_BYTES};
use crate::pdf::pages;
use crate::pdf::pages::Walk;
use crate::pdf::selection::{MAX_PAGES, MAX_SELECTED_PAGES};
use crate::pdf::value;
use crate::pdf::value::{Datum, PdfRef, MAX_VALUE_DEPTH};

verus! {

/// A tree of pages: a page, or a node with trees below it.
pub enum Tree {
    Page(PdfRef),
    Node(PdfRef, Seq<Tree>),
}

/// The object at the top of a tree.
pub open spec fn top(tree: Tree) -> PdfRef {
    match tree {
        Tree::Page(reference) => reference,
        Tree::Node(reference, _) => reference,
    }
}

/// The pages of a tree from the first to the last.
pub open spec fn leaves(tree: Tree) -> Seq<PdfRef>
    decreases tree, 0int,
{
    match tree {
        Tree::Page(reference) => seq![reference],
        Tree::Node(_, kids) => leaves_of(kids, kids.len() as int),
    }
}

/// The pages of the first `n` trees.
pub open spec fn leaves_of(kids: Seq<Tree>, n: int) -> Seq<PdfRef>
    decreases kids, n,
{
    if n <= 0 || n > kids.len() {
        Seq::empty()
    } else {
        leaves_of(kids, n - 1) + leaves(kids[n - 1])
    }
}

/// The numbers of the objects in a tree.
pub open spec fn numbers(tree: Tree) -> Set<u32>
    decreases tree, 0int,
{
    match tree {
        Tree::Page(reference) => Set::empty().insert(reference.object),
        Tree::Node(reference, kids) => numbers_of(kids, kids.len() as int).insert(reference.object),
    }
}

/// The numbers of the objects in the first `n` trees.
pub open spec fn numbers_of(kids: Seq<Tree>, n: int) -> Set<u32>
    decreases kids, n,
{
    if n <= 0 || n > kids.len() {
        Set::empty()
    } else {
        numbers_of(kids, n - 1).union(numbers(kids[n - 1]))
    }
}

/// The objects hold a tree, none of them twice, that is at most `height` nodes
/// high.
pub open spec fn holds(objects: Seq<(u32, Thing)>, tree: Tree, height: nat) -> bool
    decreases tree, 0int,
{
    match object::object_in(objects, top(tree).object) {
        None => false,
        Some(object) => match object.value {
            Datum::Dict(dict) => match tree {
                Tree::Page(_) => value::entry(dict, "Type"@) == Some(Datum::Name("Page"@)),
                Tree::Node(reference, kids) => {
                    &&& height > 0
                    &&& value::entry(dict, "Type"@) == Some(Datum::Name("Pages"@))
                    &&& value::entry(dict, "Kids"@) == Some(
                        Datum::Array(kids.map_values(|kid: Tree| Datum::Ref(top(kid)))),
                    )
                    &&& holds_all(objects, kids, (height - 1) as nat, kids.len() as int)
                    &&& !numbers_of(kids, kids.len() as int).contains(reference.object)
                },
            },
            _ => false,
        },
    }
}

/// The objects hold the first `n` trees, and no object stands in two of them.
pub open spec fn holds_all(
    objects: Seq<(u32, Thing)>,
    kids: Seq<Tree>,
    height: nat,
    n: int,
) -> bool
    decreases kids, n,
{
    n <= 0 || n > kids.len() || {
        &&& holds_all(objects, kids, height, n - 1)
        &&& holds(objects, kids[n - 1], height)
        &&& numbers_of(kids, n - 1).disjoint(numbers(kids[n - 1]))
    }
}

proof fn lemma_names()
    ensures
        "Page"@ != "Pages"@,
{
    reveal_strlit("Page");
    reveal_strlit("Pages");
    assert("Page"@.len() != "Pages"@.len());
}

proof fn lemma_tree(
    objects: Seq<(u32, Thing)>,
    tree: Tree,
    height: nat,
    walk: Walk,
    depth: int,
)
    requires
        holds(objects, tree, height),
        0 <= depth,
        depth + 2 * height <= MAX_VALUE_DEPTH,
        walk.visited.disjoint(numbers(tree)),
        walk.pages.len() + leaves(tree).len() <= MAX_PAGES,
    ensures
        pages::page_tree(objects, Datum::Ref(top(tree)), walk, depth) == Ok::<Walk, Failure>(
            Walk {
                pages: walk.pages + leaves(tree),
                visited: walk.visited.union(numbers(tree)),
            },
        ),
    decreases tree, 0int,
{
    let reference = top(tree);
    assert(numbers(tree).contains(reference.object));
    lemma_names();
    let entered = Walk { visited: walk.visited.insert(reference.object), pages: walk.pages };
    match tree {
        Tree::Page(_) => {
            assert(walk.pages.push(reference) =~= walk.pages + leaves(tree));
            assert(entered.visited =~= walk.visited.union(numbers(tree)));
        },
        Tree::Node(_, kids) => {
            let all = kids.len() as int;
            let list = kids.map_values(|kid: Tree| Datum::Ref(top(kid)));
            assert(entered.visited.disjoint(numbers_of(kids, all)));
            lemma_trees(objects, kids, (height - 1) as nat, all, entered, depth + 1);
            assert(leaves_of(kids, 0) =~= Seq::<PdfRef>::empty());
            assert(numbers_of(kids, 0) =~= Set::<u32>::empty());
            assert(entered.visited.union(numbers_of(kids, all)) =~= walk.visited.union(
                numbers(tree),
            ));
            assert(pages::page_tree(objects, Datum::Array(list), entered, depth + 1)
                == pages::page_trees(objects, list, 0, entered, depth + 1));
        },
    }
}

/// The first `n` trees are walked one after the other.
proof fn lemma_trees(
    objects: Seq<(u32, Thing)>,
    kids: Seq<Tree>,
    height: nat,
    n: int,
    walk: Walk,
    depth: int,
)
    requires
        0 <= n <= kids.len(),
        holds_all(objects, kids, height, n),
        0 <= depth,
        depth + 1 + 2 * height <= MAX_VALUE_DEPTH,
        walk.visited.disjoint(numbers_of(kids, n)),
        walk.pages.len() + leaves_of(kids, n).len() <= MAX_PAGES,
    ensures
        ({
            let list = kids.map_values(|kid: Tree| Datum::Ref(top(kid)));
            pages::page_trees(objects, list, 0, walk, depth) == pages::page_trees(
                objects,
                list,
                n,
                Walk {
                    pages: walk.pages + leaves_of(kids, n),
                    visited: walk.visited.union(numbers_of(kids, n)),
                },
                depth,
            )
        }),
    decreases kids, n,
{
    let list = kids.map_values(|kid: Tree| Datum::Ref(top(kid)));
    if n > 0 {
        let before = Walk {
            pages: walk.pages + leaves_of(kids, n - 1),
            visited: walk.visited.union(numbers_of(kids, n - 1)),
        };
        lemma_trees(objects, kids, height, n - 1, walk, depth);
        lemma_tree(objects, kids[n - 1], height, before, depth + 1);
        assert(list[n - 1] == Datum::Ref(top(kids[n - 1])));
        assert(before.pages + leaves(kids[n - 1]) =~= walk.pages + leaves_of(kids, n));
        assert(before.visited.union(numbers(kids[n - 1])) =~= walk.visited.union(
            numbers_of(kids, n),
        ));
    } else {
        assert(walk.pages + leaves_of(kids, n) =~= walk.pages);
        assert(walk.visited.union(numbers_of(kids, n)) =~= walk.visited);
    }
}

/// The pages of a document are those of the tree that its catalog leads to, from
/// the first to the last.
pub proof fn law_pages_come_in_the_order_of_the_tree(
    objects: Seq<(u32, Thing)>,
    catalog: PdfRef,
    tree: Tree,
    height: nat,
)
    requires
        object::object_in(objects, catalog.object) matches Some(object) && object.value matches Datum::Dict(
            dict,
        ) && value::entry(dict, "Pages"@) == Some(Datum::Ref(top(tree))),
        holds(objects, tree, height),
        2 * height <= MAX_VALUE_DEPTH,
        leaves(tree).len() <= MAX_PAGES,
    ensures
        pages::pages_of(objects, Some(catalog)) == Ok::<Seq<PdfRef>, Failure>(leaves(tree)),
{
    let walk = Walk { pages: Seq::empty(), visited: Set::empty() };
    lemma_tree(objects, tree, height, walk, 0);
    assert(walk.pages + leaves(tree) =~= leaves(tree));
}

/// How many bytes the first `n` of them have together.
pub open spec fn length(streams: Seq<Seq<u8>>, n: int) -> int
    decreases n,
{
    if n <= 0 {
        0
    } else {
        length(streams, n - 1) + streams[n - 1].len()
    }
}

/// The object is a stream that holds `data`.
pub open spec fn is_stream(objects: Seq<(u32, Thing)>, reference: PdfRef, data: Seq<u8>) -> bool {
    match object::object_in(objects, reference.object) {
        None => false,
        Some(object) => object.stream is Some && filter::decoded(object) == Ok::<
            Seq<u8>,
            Failure,
        >(data),
    }
}

proof fn lemma_listed(
    objects: Seq<(u32, Thing)>,
    references: Seq<PdfRef>,
    streams: Seq<Seq<u8>>,
    i: int,
    found: Seq<PdfRef>,
)
    requires
        0 <= i <= references.len() <= MAX_SELECTED_PAGES,
        found == references.take(i),
        forall|k: int|
            0 <= k < references.len() ==> is_stream(objects, #[trigger] references[k], streams[k]),
    ensures
        pages::streams_in_all(
            objects,
            references.map_values(|reference: PdfRef| Datum::Ref(reference)),
            i,
            found,
            Seq::empty(),
        ) == Ok::<Seq<PdfRef>, Failure>(references),
    decreases references.len() - i,
{
    let items = references.map_values(|reference: PdfRef| Datum::Ref(reference));
    if i < references.len() {
        let next = references[i];
        assert(items[i] == Datum::Ref(next));
        assert(is_stream(objects, next, streams[i]));
        assert(found.push(next) =~= references.take(i + 1));
        assert(!Seq::<u32>::empty().contains(next.object));
        assert(pages::streams_in(objects, items[i], found, Seq::empty()) == Ok::<
            Seq<PdfRef>,
            Failure,
        >(found.push(next)));
        lemma_listed(objects, references, streams, i + 1, found.push(next));
    } else {
        assert(references.take(i) =~= references);
    }
}

proof fn lemma_decoded(
    objects: Seq<(u32, Thing)>,
    references: Seq<PdfRef>,
    streams: Seq<Seq<u8>>,
    i: int,
)
    requires
        0 <= i <= references.len() == streams.len(),
        length(streams, streams.len() as int) <= MAX_STREAM_BYTES,
        forall|k: int|
            0 <= k < references.len() ==> is_stream(objects, #[trigger] references[k], streams[k]),
    ensures
        pages::decoded_all(objects, references, i, streams.take(i), length(streams, i)) == Ok::<
            Seq<Seq<u8>>,
            Failure,
        >(streams),
        length(streams, i) <= length(streams, streams.len() as int),
    decreases references.len() - i,
{
    if i < references.len() {
        assert(is_stream(objects, references[i], streams[i]));
        lemma_decoded(objects, references, streams, i + 1);
        assert(streams.take(i).push(streams[i]) =~= streams.take(i + 1));
    } else {
        assert(streams.take(i) =~= streams);
    }
}

/// What stands on a page is what its streams hold, decoded, in the order in
/// which the page lists them.
pub proof fn law_contents_come_in_the_order_of_the_list(
    objects: Seq<(u32, Thing)>,
    page: PdfRef,
    references: Seq<PdfRef>,
    streams: Seq<Seq<u8>>,
)
    requires
        object::object_in(objects, page.object) matches Some(object) && object.value matches Datum::Dict(
            dict,
        ) && value::entry(dict, "Contents"@) == Some(
            Datum::Array(references.map_values(|reference: PdfRef| Datum::Ref(reference))),
        ),
        references.len() == streams.len() <= MAX_SELECTED_PAGES,
        length(streams, streams.len() as int) <= MAX_STREAM_BYTES,
        forall|k: int|
            0 <= k < references.len() ==> is_stream(objects, #[trigger] references[k], streams[k]),
    ensures
        pages::page_contents(objects, page) == Ok::<Seq<Seq<u8>>, Failure>(streams),
{
    assert(references.take(0) =~= Seq::<PdfRef>::empty());
    assert(streams.take(0) =~= Seq::<Seq<u8>>::empty());
    lemma_listed(objects, references, streams, 0, Seq::empty());
    lemma_decoded(objects, references, streams, 0);
}

} // verus!
