//! Which pages of a document are asked for.

use std::collections::BTreeSet;

use vstd::prelude::*;

use crate::pdf::error::{Failure, PdfError};
use crate::text;
use crate::text::lower_char;

verus! {

broadcast use vstd::std_specs::btree::group_btree_axioms;

/// The most pages that may be selected.
pub const MAX_SELECTED_PAGES: usize = 10_000;

/// The most pages that a document may have.
pub const MAX_PAGES: usize = MAX_SELECTED_PAGES;

/// The pages of a document that are asked for; the first is page 1.
#[derive(Debug, Clone, PartialEq, Eq)]
pub enum PageSelection {
    All,
    Pages(BTreeSet<usize>),
}

pub open spec fn is_digit(c: char) -> bool {
    '0' <= c <= '9'
}

/// The value of the decimal digits up to `n`.
pub open spec fn decimal(s: Seq<char>, n: int) -> int
    decreases n,
{
    if n <= 0 {
        0
    } else {
        10 * decimal(s, n - 1) + (s[n - 1] as int - '0' as int)
    }
}

/// The digits of a number that may begin with a plus sign.
pub open spec fn unsigned_digits(s: Seq<char>) -> Seq<char> {
    if s.len() > 0 && s[0] == '+' {
        s.skip(1)
    } else {
        s
    }
}

/// The number that `s` writes, if it writes one that fits.
pub open spec fn number_in(s: Seq<char>) -> Option<usize> {
    let digits = unsigned_digits(s);
    if digits.len() == 0 || exists|i: int| 0 <= i < digits.len() && !is_digit(#[trigger] digits[i])
        || decimal(digits, digits.len() as int) > usize::MAX {
        None
    } else {
        Some(decimal(digits, digits.len() as int) as usize)
    }
}

/// The first and last page of a part such as `3` or `3-5`.
pub open spec fn part_range(part: Seq<char>) -> Option<(usize, usize)> {
    let part = text::trimmed(part);
    let dash = text::index_of(part, '-', 0);
    let first = number_in(text::trimmed(part.take(dash)));
    let last = if dash >= part.len() {
        first
    } else if text::index_of(part, '-', dash + 1) < part.len() {
        None
    } else {
        number_in(text::trimmed(part.skip(dash + 1)))
    };
    match (first, last) {
        (Some(first), Some(last)) => if 0 < first <= last && last - first < MAX_SELECTED_PAGES {
            Some((first, last))
        } else {
            None
        },
        _ => None,
    }
}

/// The pages from `first` to `last`.
pub open spec fn page_range(first: int, last: int) -> Set<usize> {
    Set::new(|n: usize| first <= n <= last)
}

/// The pages that the parts from `from` on select, with those selected so far.
pub open spec fn selected(s: Seq<char>, from: int, pages: Set<usize>) -> Option<Set<usize>>
    decreases s.len() - from + 1,
{
    if from < 0 || from > s.len() {
        None
    } else {
        let end = text::index_of(s, ',', from);
        match part_range(s.subrange(from, end)) {
            None => None,
            Some((first, last)) => {
                let pages = pages.union(page_range(first as int, last as int));
                if pages.len() > MAX_SELECTED_PAGES {
                    None
                } else if end >= s.len() {
                    Some(pages)
                } else if from <= end {
                    selected(s, end + 1, pages)
                } else {
                    None
                }
            },
        }
    }
}

/// `s` asks for every page.
pub open spec fn asks_for_all(s: Seq<char>) -> bool {
    let s = text::trimmed(s);
    s.len() == 0 || text::lowered(s) == "all"@ || s == "全部"@
}

/// What a selection asks for.
pub enum Wanted {
    All,
    Pages(Set<usize>),
}

impl View for PageSelection {
    type V = Wanted;

    open spec fn view(&self) -> Wanted {
        match *self {
            PageSelection::All => Wanted::All,
            PageSelection::Pages(pages) => Wanted::Pages(pages@),
        }
    }
}

/// What the text of a selection asks for, if it is one.
pub open spec fn wanted(value: Option<Seq<char>>) -> Option<Wanted> {
    match value {
        None => Some(Wanted::All),
        Some(s) => if asks_for_all(s) {
            Some(Wanted::All)
        } else {
            match selected(s, 0, Set::empty()) {
                None => None,
                Some(pages) => Some(Wanted::Pages(pages)),
            }
        },
    }
}

impl Wanted {
    pub open spec fn has(self, page: int) -> bool {
        match self {
            Wanted::All => true,
            Wanted::Pages(pages) => 0 <= page <= usize::MAX && pages.contains(page as usize),
        }
    }

    /// Every page that is asked for by number is at most `count`.
    pub open spec fn within(self, count: int) -> bool {
        match self {
            Wanted::All => true,
            Wanted::Pages(pages) => forall|n: usize| #[trigger] pages.contains(n) ==> n <= count,
        }
    }
}

proof fn lemma_beyond(pages: Set<usize>, n: usize, count: int)
    requires
        pages.contains(n),
        n > count,
    ensures
        !Wanted::Pages(pages).within(count),
{
    let wanted = Wanted::Pages(pages);
    if wanted.within(count) {
        assert(wanted->Pages_0.contains(n));
    }
}

proof fn lemma_decimal(s: Seq<char>, n: int, m: int)
    requires
        0 <= n <= m <= s.len(),
        forall|i: int| 0 <= i < s.len() ==> is_digit(#[trigger] s[i]),
    ensures
        0 <= decimal(s, n) <= decimal(s, m),
    decreases m,
{
    if n < m {
        lemma_decimal(s, n, m - 1);
    } else if n > 0 {
        lemma_decimal(s, n - 1, n - 1);
    }
}

/// Reads a number such as `12` or `+12`.
pub fn parse_page_number(s: &[char]) -> (r: Option<usize>)
    ensures
        r == number_in(s@),
{
    let from: usize = if s.len() > 0 && s[0] == '+' {
        1
    } else {
        0
    };
    let ghost digits = unsigned_digits(s@);
    assert(digits =~= s@.skip(from as int));
    if s.len() == from {
        return None;
    }
    let mut i: usize = from;
    while i < s.len()
        invariant
            from <= i <= s@.len(),
            digits == s@.skip(from as int),
            digits == unsigned_digits(s@),
            forall|k: int| 0 <= k < i - from ==> is_digit(#[trigger] digits[k]),
        decreases s@.len() - i,
    {
        if !(s[i] >= '0' && s[i] <= '9') {
            assert(!is_digit(digits[i - from]));
            return None;
        }
        i += 1;
    }
    let mut value: usize = 0;
    i = from;
    while i < s.len()
        invariant
            from <= i <= s@.len(),
            from < s@.len(),
            digits == s@.skip(from as int),
            digits == unsigned_digits(s@),
            forall|k: int| 0 <= k < digits.len() ==> is_digit(#[trigger] digits[k]),
            value == decimal(digits, i - from),
        decreases s@.len() - i,
    {
        assert(is_digit(digits[i - from]));
        let digit: usize = (s[i] as u32 - '0' as u32) as usize;
        proof {
            lemma_decimal(digits, i - from + 1, digits.len() as int);
        }
        if value > usize::MAX / 10 {
            return None;
        }
        if digit > usize::MAX - value * 10 {
            return None;
        }
        value = value * 10 + digit;
        i += 1;
    }
    assert(i - from == digits.len());
    Some(value)
}

fn piece(s: &[char], from: usize, to: usize) -> (r: Vec<char>)
    requires
        from <= to <= s@.len(),
    ensures
        r@ == text::trimmed(s@.subrange(from as int, to as int)),
{
    text::trim(vstd::slice::slice_subrange(s, from, to))
}

fn parse_part(part: &[char]) -> (r: Option<(usize, usize)>)
    ensures
        r == part_range(part@),
{
    let part = text::trim(part);
    let dash = text::find_char(part.as_slice(), '-', 0);
    assert(part@.take(dash as int) =~= part@.subrange(0, dash as int));
    let first = parse_page_number(piece(part.as_slice(), 0, dash).as_slice());
    let last = if dash >= part.len() {
        first
    } else if text::find_char(part.as_slice(), '-', dash + 1) < part.len() {
        None
    } else {
        assert(part@.skip(dash + 1) =~= part@.subrange(dash + 1, part@.len() as int));
        parse_page_number(piece(part.as_slice(), dash + 1, part.len()).as_slice())
    };
    match (first, last) {
        (Some(first), Some(last)) => if 0 < first && first <= last && last - first
            < MAX_SELECTED_PAGES {
            Some((first, last))
        } else {
            None
        },
        _ => None,
    }
}

/// `s` asks for every page.
pub fn is_all(s: &[char]) -> (r: bool)
    ensures
        r == asks_for_all(s@),
{
    let s = text::trim(s);
    if s.len() == 0 {
        return true;
    }
    proof {
        reveal_strlit("all");
        reveal_strlit("全部");
    }
    let ghost small = text::lowered(s@);
    assert(small.len() == s@.len());
    if s.len() == 3 {
        let r = lower_char(s[0]) == 'a' && lower_char(s[1]) == 'l' && lower_char(s[2]) == 'l';
        assert(r ==> small =~= "all"@);
        assert(small == "all"@ ==> small[0] == 'a' && small[1] == 'l' && small[2] == 'l');
        assert("全部"@.len() == 2);
        return r;
    }
    if s.len() == 2 {
        let r = s[0] == '全' && s[1] == '部';
        assert(r ==> s@ =~= "全部"@);
        assert("all"@.len() == 3);
        return r;
    }
    assert("all"@.len() == 3 && "全部"@.len() == 2);
    false
}

impl PageSelection {
    /// Reads a selection such as `1-3,8`. Nothing, an empty text, `all` and
    /// `全部` select every page.
    pub fn parse(value: Option<&str>) -> (r: Result<PageSelection, PdfError>)
        ensures
            match wanted(
                match value {
                    Some(s) => Some(s@),
                    None => None,
                },
            ) {
                Some(wanted) => r is Ok && r->Ok_0@ == wanted,
                None => r is Err && r->Err_0@ == Failure::InvalidPageRange,
            },
    {
        let s = match value {
            None => {
                return Ok(PageSelection::All);
            },
            Some(s) => text::chars_of(s),
        };
        if is_all(s.as_slice()) {
            return Ok(PageSelection::All);
        }
        let mut pages: BTreeSet<usize> = BTreeSet::new();
        let mut from: usize = 0;
        let ghost goal = selected(s@, 0, Set::empty());
        loop
            invariant
                from <= s@.len(),
                value is Some && s@ == value->0@ && !asks_for_all(s@),
                goal == selected(s@, 0, Set::empty()),
                selected(s@, from as int, pages@) == goal,
            decreases s@.len() - from,
        {
            let end = text::find_char(s.as_slice(), ',', from);
            let part = vstd::slice::slice_subrange(s.as_slice(), from, end);
            let (first, last) = match parse_part(part) {
                None => {
                    return Err(PdfError::InvalidPageRange);
                },
                Some((first, last)) => (first, last),
            };
            let ghost before = pages@;
            let mut page: usize = first;
            assert(before.union(page_range(first as int, first - 1)) =~= before);
            loop
                invariant_except_break
                    first <= page <= last,
                    pages@ == before.union(page_range(first as int, page - 1)),
                ensures
                    pages@ == before.union(page_range(first as int, last as int)),
                decreases last - page,
            {
                pages.insert(page);
                assert(pages@ =~= before.union(page_range(first as int, page as int)));
                if page == last {
                    break;
                }
                page += 1;
            }
            if pages.len() > MAX_SELECTED_PAGES {
                return Err(PdfError::InvalidPageRange);
            }
            if end >= s.len() {
                return Ok(PageSelection::Pages(pages));
            }
            from = end + 1;
        }
    }

    /// The page with this number is asked for.
    pub fn includes(&self, page_number: usize) -> (r: bool)
        ensures
            r == self@.has(page_number as int),
    {
        match self {
            PageSelection::All => true,
            PageSelection::Pages(pages) => pages.contains(&page_number),
        }
    }

    /// No page is asked for that a document with `count` pages lacks.
    pub fn fits(&self, count: usize) -> (r: bool)
        ensures
            r == self@.within(count as int),
    {
        match self {
            PageSelection::All => true,
            PageSelection::Pages(pages) => {
                for page in it: pages.iter()
                    invariant
                        it.seq().unref().to_set() == pages@,
                        forall|k: int| 0 <= k < it.index() ==> *(#[trigger] it.seq()[k]) <= count,
                        self@ == Wanted::Pages(pages@),
                {
                    if *page > count {
                        proof {
                            let k = it.index() as int;
                            assert(it.seq().unref()[k] == *page);
                            assert(it.seq().unref().contains(*page));
                            assert(pages@.contains(*page));
                            lemma_beyond(pages@, *page, count as int);
                        }
                        return false;
                    }
                }
                true
            },
        }
    }
}

proof fn lemma_selected(s: Seq<char>, from: int, pages: Set<usize>)
    requires
        forall|n: usize| pages.contains(n) ==> n > 0,
    ensures
        selected(s, from, pages) matches Some(all) ==> {
            &&& all.len() <= MAX_SELECTED_PAGES
            &&& pages.subset_of(all)
            &&& exists|n: usize| all.contains(n)
            &&& forall|n: usize| all.contains(n) ==> n > 0
        },
    decreases s.len() - from + 1,
{
    if 0 <= from <= s.len() {
        text::lemma_index_of(s, ',', from);
        let end = text::index_of(s, ',', from);
        if let Some((first, last)) = part_range(s.subrange(from, end)) {
            let more = pages.union(page_range(first as int, last as int));
            assert(more.contains(first));
            if more.len() <= MAX_SELECTED_PAGES && end < s.len() {
                lemma_selected(s, end + 1, more);
            }
        }
    }
}

/// Whatever text a selection is read from, it asks for every page, or for at
/// least one and at most `MAX_SELECTED_PAGES`, none of them numbered 0.
pub proof fn law_selection_is_bounded(value: Option<Seq<char>>)
    ensures
        wanted(value) matches Some(Wanted::Pages(pages)) ==> {
            &&& pages.len() <= MAX_SELECTED_PAGES
            &&& exists|n: usize| pages.contains(n)
            &&& !pages.contains(0)
        },
{
    if let Some(s) = value {
        lemma_selected(s, 0, Set::empty());
        if let Some(Wanted::Pages(pages)) = wanted(value) {
            let n = choose|n: usize| pages.contains(n);
            assert(pages == selected(s, 0, Set::empty())->0);
            assert(pages.contains(n));
        }
    }
}

} // verus!
