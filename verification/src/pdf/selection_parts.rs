//! Selections as the sum of their parts.

use vstd::prelude::*;

use crate::pdf::selection::{
    asks_for_all, number_in, page_range, part_range, selected, unsigned_digits, wanted, Wanted,
    MAX_SELECTED_PAGES,
};
use crate::text;

verus! {

/// The parts of the text of a selection.
pub open spec fn parts_of(s: Seq<char>) -> Seq<Seq<char>> {
    text::split_from(s, ',', 0)
}

/// A part asks for a page.
pub open spec fn covers(part: Seq<char>, page: usize) -> bool {
    match part_range(part) {
        None => false,
        Some((first, last)) => first <= page <= last,
    }
}

/// The pages that a part asks for.
spec fn pages_of(part: Seq<char>) -> Set<usize> {
    match part_range(part) {
        None => Set::empty(),
        Some((first, last)) => page_range(first as int, last as int),
    }
}

/// The pages that some of the parts ask for.
pub open spec fn covered(parts: Seq<Seq<char>>) -> Set<usize> {
    Set::new(|page: usize| exists|i: int| 0 <= i < parts.len() && covers(#[trigger] parts[i], page))
}

/// Every part can be read.
pub open spec fn are_readable(parts: Seq<Seq<char>>) -> bool {
    forall|i: int| 0 <= i < parts.len() ==> part_range(#[trigger] parts[i]) is Some
}

/// What parts select, with the pages that were selected before.
pub open spec fn summed(parts: Seq<Seq<char>>, pages: Set<usize>) -> Option<Set<usize>> {
    if are_readable(parts) && pages.union(covered(parts)).len() <= MAX_SELECTED_PAGES {
        Some(pages.union(covered(parts)))
    } else {
        None
    }
}

/// A range has as many pages as it counts.
pub proof fn lemma_range(first: int, last: int)
    requires
        0 <= first <= usize::MAX,
        first - 1 <= last <= usize::MAX,
    ensures
        page_range(first, last).finite(),
        page_range(first, last).len() == last - first + 1,
    decreases last - first + 1,
{
    if last < first {
        assert(page_range(first, last) =~= Set::empty());
    } else {
        lemma_range(first, last - 1);
        assert(page_range(first, last) =~= page_range(first, last - 1).insert(last as usize));
    }
}

proof fn lemma_covered_is_finite(parts: Seq<Seq<char>>)
    ensures
        covered(parts).finite(),
    decreases parts.len(),
{
    if parts.len() == 0 {
        assert(covered(parts) =~= Set::empty());
    } else {
        let rest = parts.drop_last();
        lemma_covered_is_finite(rest);
        let more = pages_of(parts.last());
        if let Some((first, last)) = part_range(parts.last()) {
            lemma_range(first as int, last as int);
        }
        assert forall|page: usize| covered(parts).contains(page) implies covered(rest).union(
            more,
        ).contains(page) by {
            let i = choose|i: int| 0 <= i < parts.len() && covers(#[trigger] parts[i], page);
            if i < rest.len() {
                assert(covers(rest[i], page));
            }
        }
        assert forall|page: usize| covered(rest).union(more).contains(page) implies covered(
            parts,
        ).contains(page) by {
            if covered(rest).contains(page) {
                let i = choose|i: int| 0 <= i < rest.len() && covers(#[trigger] rest[i], page);
                assert(covers(parts[i], page));
            } else {
                assert(covers(parts[parts.len() - 1], page));
            }
        }
        assert(covered(parts) =~= covered(rest).union(more));
    }
}

proof fn lemma_one_more(part: Seq<char>, rest: Seq<Seq<char>>)
    requires
        part_range(part) is Some,
    ensures
        covered(seq![part] + rest) == pages_of(part).union(covered(rest)),
{
    let parts = seq![part] + rest;
    let range = pages_of(part);
    assert forall|page: usize| covered(parts).contains(page) implies range.union(
        covered(rest),
    ).contains(page) by {
        let i = choose|i: int| 0 <= i < parts.len() && covers(#[trigger] parts[i], page);
        if i > 0 {
            assert(covers(rest[i - 1], page));
        }
    }
    assert forall|page: usize| range.union(covered(rest)).contains(page) implies covered(
        parts,
    ).contains(page) by {
        if range.contains(page) {
            assert(covers(parts[0], page));
        } else {
            let i = choose|i: int| 0 <= i < rest.len() && covers(#[trigger] rest[i], page);
            assert(parts[i + 1] == rest[i]);
            assert(covers(parts[i + 1], page));
        }
    }
    assert(covered(parts) =~= range.union(covered(rest)));
}

proof fn lemma_readable(part: Seq<char>, rest: Seq<Seq<char>>)
    ensures
        are_readable(seq![part] + rest) == (part_range(part) is Some && are_readable(rest)),
{
    let parts = seq![part] + rest;
    assert(parts[0] == part);
    assert forall|i: int| 0 <= i < rest.len() implies parts[i + 1] == #[trigger] rest[i] by {}
    if are_readable(parts) {
        assert forall|i: int| 0 <= i < rest.len() implies part_range(#[trigger] rest[i]) is Some by {
            assert(part_range(parts[i + 1]) is Some);
        }
    }
    if part_range(part) is Some && are_readable(rest) {
        assert forall|i: int| 0 <= i < parts.len() implies part_range(
            #[trigger] parts[i],
        ) is Some by {
            if i > 0 {
                assert(part_range(rest[i - 1]) is Some);
            }
        }
    }
}

/// What is selected is the sum of the parts.
pub proof fn lemma_selected_is_summed(s: Seq<char>, from: int, pages: Set<usize>)
    requires
        0 <= from <= s.len(),
        pages.finite(),
        pages.len() <= MAX_SELECTED_PAGES,
    ensures
        selected(s, from, pages) == summed(text::split_from(s, ',', from), pages),
    decreases s.len() - from,
{
    text::lemma_index_of(s, ',', from);
    let end = text::index_of(s, ',', from);
    let part = s.subrange(from, end);
    let parts = text::split_from(s, ',', from);
    let rest = if end < s.len() {
        text::split_from(s, ',', end + 1)
    } else {
        Seq::empty()
    };
    assert(parts =~= seq![part] + rest);
    lemma_readable(part, rest);
    if let Some((first, last)) = part_range(part) {
        let more = pages.union(page_range(first as int, last as int));
        lemma_range(first as int, last as int);
        lemma_one_more(part, rest);
        lemma_covered_is_finite(parts);
        lemma_covered_is_finite(rest);
        let all = pages.union(covered(parts));
        assert(all =~= more.union(covered(rest)));
        if more.len() > MAX_SELECTED_PAGES {
            vstd::set_lib::lemma_len_subset(more, all);
        } else if end >= s.len() {
            assert(covered(rest) =~= Set::empty());
            assert(all =~= more);
        } else {
            lemma_selected_is_summed(s, end + 1, more);
        }
    }
}

proof fn lemma_kept_at_start(s: Seq<char>, c: char)
    requires
        s.contains(c),
        !text::is_white(c),
    ensures
        text::trimmed_start(s).contains(c),
    decreases s.len(),
{
    if s.len() > 0 && text::is_white(s[0]) {
        let k = choose|k: int| 0 <= k < s.len() && s[k] == c;
        assert(s.drop_first()[k - 1] == c);
        lemma_kept_at_start(s.drop_first(), c);
    }
}

proof fn lemma_kept_at_end(s: Seq<char>, c: char)
    requires
        s.contains(c),
        !text::is_white(c),
    ensures
        text::trimmed_end(s).contains(c),
    decreases s.len(),
{
    if s.len() > 0 && text::is_white(s.last()) {
        let k = choose|k: int| 0 <= k < s.len() && s[k] == c;
        assert(s.drop_last()[k] == c);
        lemma_kept_at_end(s.drop_last(), c);
    }
}

/// A text that asks for all pages has one part.
pub proof fn lemma_all_is_one_part(s: Seq<char>)
    requires
        asks_for_all(s),
    ensures
        parts_of(s) == seq![s],
{
    reveal_strlit("all");
    reveal_strlit("全部");
    if s.contains(',') {
        lemma_kept_at_start(s, ',');
        lemma_kept_at_end(text::trimmed_start(s), ',');
        let t = text::trimmed(s);
        let k = choose|k: int| 0 <= k < t.len() && t[k] == ',';
        assert(text::lowered(t).len() == t.len());
        assert(text::lower(',') == ',');
        assert(text::lowered(t)[k] == ',');
        if text::lowered(t) == "all"@ {
            assert(k == 0 || k == 1 || k == 2);
        } else {
            assert(k == 0 || k == 1);
        }
        assert(false);
    }
    text::lemma_index_of(s, ',', 0);
    let end = text::index_of(s, ',', 0);
    if end < s.len() {
        assert(s[end] == ',');
        assert(s.contains(','));
    }
    assert(s.subrange(0, s.len() as int) =~= s);
}

/// Only a text without a comma has one part.
proof fn lemma_one_part(s: Seq<char>)
    requires
        parts_of(s).len() == 1,
    ensures
        parts_of(s) == seq![s],
{
    text::lemma_index_of(s, ',', 0);
    let end = text::index_of(s, ',', 0);
    if end < s.len() {
        text::lemma_index_of(s, ',', end + 1);
        assert(text::split_from(s, ',', end + 1).len() > 0);
    }
    assert(s.subrange(0, s.len() as int) =~= s);
}

/// Every part of one text is a part of the other.
pub open spec fn have_same_parts(a: Seq<char>, b: Seq<char>) -> bool {
    forall|part: Seq<char>| #[trigger] parts_of(a).contains(part) <==> parts_of(b).contains(part)
}

/// A selection that does not ask for every page stays what it is when its parts
/// are put in another order or are repeated.
pub proof fn law_order_of_parts_does_not_matter(a: Seq<char>, b: Seq<char>)
    requires
        have_same_parts(a, b),
        parts_of(a).len() <= parts_of(b).len(),
        wanted(Some(a)) != Some(Wanted::All),
    ensures
        wanted(Some(b)) == wanted(Some(a)),
{
    let p = parts_of(a);
    let q = parts_of(b);
    if asks_for_all(b) {
        lemma_all_is_one_part(b);
        assert(p.len() > 0);
        lemma_one_part(a);
        assert(p[0] == a);
        assert(p.contains(a));
        assert(q.contains(a));
    }
    lemma_selected_is_summed(a, 0, Set::empty());
    lemma_selected_is_summed(b, 0, Set::empty());
    lemma_same_sum(p, q);
    lemma_same_sum(q, p);
    assert(covered(p) =~= covered(q));
}

proof fn lemma_same_sum(p: Seq<Seq<char>>, q: Seq<Seq<char>>)
    requires
        forall|part: Seq<char>| #[trigger] p.contains(part) ==> q.contains(part),
    ensures
        are_readable(q) ==> are_readable(p),
        covered(p).subset_of(covered(q)),
{
    if are_readable(q) {
        assert forall|i: int| 0 <= i < p.len() implies part_range(#[trigger] p[i]) is Some by {
            assert(p.contains(p[i]));
            let j = choose|j: int| 0 <= j < q.len() && q[j] == p[i];
            assert(part_range(q[j]) is Some);
        }
    }
    assert forall|page: usize| covered(p).contains(page) implies covered(q).contains(page) by {
        let i = choose|i: int| 0 <= i < p.len() && covers(#[trigger] p[i], page);
        assert(p.contains(p[i]));
        let j = choose|j: int| 0 <= j < q.len() && q[j] == p[i];
        assert(covers(q[j], page));
    }
}

proof fn lemma_untrimmed(s: Seq<char>)
    requires
        forall|i: int| 0 <= i < s.len() ==> !text::is_white(#[trigger] s[i]),
    ensures
        text::trimmed(s) == s,
{
}

/// A number has no white space in it.
pub proof fn lemma_number_is_trimmed(s: Seq<char>)
    requires
        number_in(s) is Some,
    ensures
        text::trimmed(s) == s,
{
    let digits = unsigned_digits(s);
    assert forall|i: int| 0 <= i < s.len() implies !text::is_white(#[trigger] s[i]) by {
        if s[0] == '+' {
            if i > 0 {
                assert(digits[i - 1] == s[i]);
            }
        } else {
            assert(digits[i] == s[i]);
        }
    }
    lemma_untrimmed(s);
}

} // verus!
