//! The pages that the text of a selection asks for.

use vstd::prelude::*;

use crate::bytes;
use crate::pdf::selection;
use crate::pdf::selection::{Wanted, MAX_SELECTED_PAGES};
use crate::pdf::selection_parts;
use crate::text;
use crate::words;
use crate::words::{lacks, strung};

verus! {

/// A part of a selection: the pages from `first` to `last`, or the one page
/// `first` where there is no `last`, with blanks around the numbers.
pub struct Ask {
    pub first: usize,
    pub last: Option<usize>,
    pub blanks: (Seq<char>, Seq<char>, Seq<char>, Seq<char>),
}

/// Nothing but blanks.
pub open spec fn is_blank(s: Seq<char>) -> bool {
    forall|i: int| 0 <= i < s.len() ==> words::blanks().contains((#[trigger] s[i]) as int)
}

/// The last page that is asked for.
pub open spec fn end(ask: Ask) -> usize {
    match ask.last {
        Some(last) => last,
        None => ask.first,
    }
}

/// The text of a part, such as `3` or `3 - 5`.
pub open spec fn spelled(ask: Ask) -> Seq<char> {
    let start = ask.blanks.0 + text::number(ask.first as nat) + ask.blanks.1;
    match ask.last {
        None => start,
        Some(last) => start + seq!['-'] + (ask.blanks.2 + text::number(last as nat)
            + ask.blanks.3),
    }
}

/// The part asks for pages that there can be.
pub open spec fn is_fair(ask: Ask) -> bool {
    &&& 0 < ask.first <= end(ask)
    &&& end(ask) - ask.first < MAX_SELECTED_PAGES
    &&& is_blank(ask.blanks.0)
    &&& is_blank(ask.blanks.1)
    &&& is_blank(ask.blanks.2)
    &&& is_blank(ask.blanks.3)
}

/// Some part asks for the page.
pub open spec fn is_asked(asks: Seq<Ask>, page: usize) -> bool {
    exists|k: int| 0 <= k < asks.len() && (#[trigger] asks[k]).first <= page <= end(asks[k])
}

proof fn lemma_start(a: Seq<char>, s: Seq<char>)
    requires
        is_blank(a),
    ensures
        text::trimmed_start(a + s) == text::trimmed_start(s),
    decreases a.len(),
{
    if a.len() > 0 {
        words::law_white_space_is_listed(a[0]);
        assert(words::blanks().contains(a[0] as int));
        assert((a + s).drop_first() =~= a.skip(1) + s);
        assert forall|i: int| 0 <= i < a.skip(1).len() implies words::blanks().contains(
            (#[trigger] a.skip(1)[i]) as int,
        ) by {
            assert(a.skip(1)[i] == a[i + 1]);
        }
        lemma_start(a.skip(1), s);
    } else {
        assert(a + s =~= s);
    }
}

proof fn lemma_end(s: Seq<char>, b: Seq<char>)
    requires
        is_blank(b),
    ensures
        text::trimmed_end(s + b) == text::trimmed_end(s),
    decreases b.len(),
{
    if b.len() > 0 {
        words::law_white_space_is_listed(b.last());
        assert(words::blanks().contains(b.last() as int));
        assert((s + b).drop_last() =~= s + b.drop_last());
        assert forall|i: int| 0 <= i < b.drop_last().len() implies words::blanks().contains(
            (#[trigger] b.drop_last()[i]) as int,
        ) by {
            assert(b.drop_last()[i] == b[i]);
        }
        lemma_end(s, b.drop_last());
    } else {
        assert(s + b =~= s);
    }
}

/// Blanks around a text that neither begins nor ends with one are trimmed.
proof fn lemma_core(a: Seq<char>, s: Seq<char>, b: Seq<char>)
    requires
        is_blank(a),
        is_blank(b),
        s.len() > 0,
        !text::is_white(s[0]),
        !text::is_white(s.last()),
    ensures
        text::trimmed(a + s + b) == s,
{
    assert(a + s + b =~= a + (s + b));
    lemma_start(a, s + b);
    assert((s + b)[0] == s[0]);
    lemma_end(s, b);
}

proof fn lemma_decimal(b: Seq<u8>, n: int)
    requires
        0 <= n <= b.len(),
        forall|i: int| 0 <= i < b.len() ==> 48 <= #[trigger] b[i] <= 57,
    ensures
        selection::decimal(text::ascii(b), n) == bytes::decimal_value(b.take(n)),
    decreases n,
{
    if n > 0 {
        lemma_decimal(b, n - 1);
        assert(b.take(n).drop_last() =~= b.take(n - 1));
        assert(b[n - 1] >= 48);
    }
}

proof fn lemma_number(n: usize)
    ensures
        selection::number_in(text::number(n as nat)) == Some(n),
        text::number(n as nat).len() > 0,
        forall|i: int|
            0 <= i < text::number(n as nat).len() ==> '0' <= #[trigger] text::number(n as nat)[i]
                <= '9',
{
    let b = bytes::decimal(n as nat);
    let s = text::number(n as nat);
    bytes::law_decimal_round_trip(n as nat);
    assert forall|i: int| 0 <= i < s.len() implies '0' <= #[trigger] s[i] <= '9' by {
        assert(48 <= b[i] <= 57);
    }
    assert(s[0] != '+');
    lemma_decimal(b, b.len() as int);
    assert(b.take(b.len() as int) =~= b);
}

proof fn lemma_blank_lacks(s: Seq<char>, c: char)
    requires
        is_blank(s),
        c == ',' || c == '-',
    ensures
        lacks(s, c),
{
    assert forall|i: int| 0 <= i < s.len() implies s[i] != c by {
        words::law_white_space_is_listed(s[i]);
        assert(words::blanks().contains(s[i] as int));
    }
}

proof fn lemma_found(s: Seq<char>, c: char, from: int, at: int)
    requires
        0 <= from <= at <= s.len(),
        forall|i: int| from <= i < at ==> s[i] != c,
        at < s.len() ==> s[at] == c,
    ensures
        text::index_of(s, c, from) == at,
{
    text::lemma_index_of(s, c, from);
}

proof fn lemma_part(ask: Ask)
    requires
        is_fair(ask),
    ensures
        selection::part_range(spelled(ask)) == Some((ask.first, end(ask))),
        lacks(spelled(ask), ','),
{
    let one = text::number(ask.first as nat);
    let b = ask.blanks;
    lemma_number(ask.first);
    lemma_blank_lacks(b.0, ',');
    lemma_blank_lacks(b.1, ',');
    lemma_blank_lacks(b.1, '-');
    let part = text::trimmed(spelled(ask));
    match ask.last {
        None => {
            lemma_core(b.0, one, b.1);
            lemma_core(Seq::empty(), one, Seq::empty());
            assert(Seq::<char>::empty() + one + Seq::<char>::empty() =~= one);
            lemma_found(one, '-', 0, one.len() as int);
            assert(one.take(one.len() as int) =~= one);
        },
        Some(last) => {
            let two = text::number(last as nat);
            lemma_number(last);
            lemma_blank_lacks(b.2, ',');
            lemma_blank_lacks(b.3, ',');
            lemma_blank_lacks(b.2, '-');
            let left = one + b.1;
            let right = b.2 + two;
            let core = left + seq!['-'] + right;
            assert(spelled(ask) =~= b.0 + core + b.3);
            assert(core[0] == one[0]);
            assert(core.last() == two.last());
            lemma_core(b.0, core, b.3);
            let dash = left.len() as int;
            assert forall|i: int| 0 <= i < dash implies core[i] != '-' by {
                assert(core[i] == left[i]);
            }
            lemma_found(core, '-', 0, dash);
            assert forall|i: int| dash + 1 <= i < core.len() implies core[i] != '-' by {
                assert(core[i] == right[i - dash - 1]);
            }
            lemma_found(core, '-', dash + 1, core.len() as int);
            assert(core.take(dash) =~= Seq::<char>::empty() + one + b.1);
            assert(core.skip(dash + 1) =~= b.2 + two + Seq::<char>::empty());
            lemma_core(Seq::empty(), one, b.1);
            lemma_core(b.2, two, Seq::empty());
        },
    }
}

/// A text that has a digit in it does not ask for all pages by name.
proof fn lemma_not_all(s: Seq<char>, k: int)
    requires
        0 <= k < s.len(),
        '0' <= s[k] <= '9',
    ensures
        !selection::asks_for_all(s),
{
    words::law_trimming_takes_the_blanks_away(s);
    let inner = text::trimmed(s);
    let at = choose|at: int| words::is_core(inner, s, at);
    words::law_white_space_is_listed(s[k]);
    assert(!words::blanks().contains(s[k] as int));
    assert(at <= k < at + inner.len());
    assert(inner[k - at] == s[k]);
    let i = k - at;
    reveal_strlit("all");
    reveal_strlit("全部");
    let (word, sign) = ("all"@, "全部"@);
    assert(word.len() == 3 && word[0] == 'a' && word[1] == 'l' && word[2] == 'l');
    assert(sign.len() == 2 && sign[0] == '全' && sign[1] == '部');
    if text::lowered(inner) == word {
        assert(text::lowered(inner)[i] == s[k]);
        assert(word[i] == s[k]);
        assert(i == 0 || i == 1 || i == 2);
    }
    if inner == sign {
        assert(sign[i] == s[k]);
        assert(i == 0 || i == 1);
    }
}

/// A selection asks for the pages of its parts: a number for the page that has
/// it, two with a dash between them for the pages from the one to the other, and
/// a comma for both of the parts around it. Blanks around the numbers do not
/// matter.
pub proof fn law_selection_is_the_pages_of_its_parts(asks: Seq<Ask>)
    requires
        asks.len() > 0,
        forall|k: int| 0 <= k < asks.len() ==> is_fair(#[trigger] asks[k]),
        Set::new(|page: usize| is_asked(asks, page)).len() <= MAX_SELECTED_PAGES,
    ensures
        selection::wanted(Some(strung(asks.map_values(|ask: Ask| spelled(ask)), ','))) == Some(
            Wanted::Pages(Set::new(|page: usize| is_asked(asks, page))),
        ),
{
    let parts = asks.map_values(|ask: Ask| spelled(ask));
    let s = strung(parts, ',');
    assert forall|k: int| 0 <= k < parts.len() implies lacks(#[trigger] parts[k], ',')
        && selection::part_range(parts[k]) == Some((asks[k].first, end(asks[k]))) by {
        lemma_part(asks[k]);
    }
    words::law_cutting_undoes_stringing(parts, ',');
    assert(selection_parts::parts_of(s) == parts);
    selection_parts::lemma_selected_is_summed(s, 0, Set::empty());
    let set = Set::new(|page: usize| is_asked(asks, page));
    assert forall|page: usize| #[trigger] selection_parts::covered(parts).contains(page)
        <==> set.contains(page) by {
        if selection_parts::covered(parts).contains(page) {
            let k = choose|k: int|
                0 <= k < parts.len() && selection_parts::covers(#[trigger] parts[k], page);
            assert(asks[k].first <= page <= end(asks[k]));
        }
        if set.contains(page) {
            let k = choose|k: int|
                0 <= k < asks.len() && (#[trigger] asks[k]).first <= page <= end(asks[k]);
            assert(selection_parts::covers(parts[k], page));
        }
    }
    assert(Set::<usize>::empty().union(selection_parts::covered(parts)) =~= set);
    let first = asks[0];
    lemma_number(first.first);
    assert(parts[0] == spelled(first));
    let k = first.blanks.0.len() as int;
    assert(s[k] == text::number(first.first as nat)[0]);
    lemma_not_all(s, k);
}

} // verus!
