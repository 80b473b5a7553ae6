//! How texts are laid out on pages.

use vstd::prelude::*;

use crate::paginate;
use crate::paginate::concatenated;
use crate::text;
use crate::words;
use crate::words::{lacks, strung};

verus! {

/// A line with four spaces in the place of each tab.
pub open spec fn spaced(line: Seq<char>) -> Seq<char>
    decreases line.len(),
{
    if line.len() == 0 {
        Seq::empty()
    } else if line[0] == '\t' {
        seq![' ', ' ', ' ', ' '] + spaced(line.skip(1))
    } else {
        seq![line[0]] + spaced(line.skip(1))
    }
}

/// Every piece holds `n` but the last, which holds at least one and at most
/// `n`.
pub open spec fn are_full<T>(pieces: Seq<Seq<T>>, n: int) -> bool {
    &&& pieces.len() > 0
    &&& forall|i: int| 0 <= i < pieces.len() - 1 ==> (#[trigger] pieces[i]).len() == n
    &&& 0 < pieces.last().len() <= n
}

/// The rows are those of a line: 45 characters wide as long as there is more,
/// and one empty row for an empty line.
pub open spec fn are_rows_of(rows: Seq<Seq<char>>, line: Seq<char>) -> bool {
    if line.len() == 0 {
        rows == seq![Seq::<char>::empty()]
    } else {
        are_full(rows, 45) && concatenated(rows) == spaced(line)
    }
}

/// The rows that a page shows.
pub open spec fn shown_rows(pages: Seq<Seq<char>>) -> Seq<Seq<Seq<char>>> {
    pages.map_values(|page: Seq<char>| text::split_from(page, '\n', 0))
}

proof fn lemma_spaced_push(s: Seq<char>, c: char)
    ensures
        spaced(s.push(c)) == spaced(s) + (if c == '\t' {
            seq![' ', ' ', ' ', ' ']
        } else {
            seq![c]
        }),
    decreases s.len(),
{
    if s.len() == 0 {
        assert(s.push(c).skip(1) =~= Seq::<char>::empty());
        assert(spaced(s.push(c).skip(1)) =~= Seq::<char>::empty());
        assert(spaced(s) =~= Seq::<char>::empty());
    } else {
        lemma_spaced_push(s.skip(1), c);
        assert(s.push(c).skip(1) =~= s.skip(1).push(c));
        assert(spaced(s.push(c)) =~= spaced(s) + (if c == '\t' {
            seq![' ', ' ', ' ', ' ']
        } else {
            seq![c]
        }));
    }
}

proof fn lemma_expanded(s: Seq<char>, n: int)
    requires
        0 <= n <= s.len(),
    ensures
        paginate::expanded(s, n) == spaced(s.take(n)),
    decreases n,
{
    if n > 0 {
        lemma_expanded(s, n - 1);
        lemma_spaced_push(s.take(n - 1), s[n - 1]);
        assert(s.take(n - 1).push(s[n - 1]) =~= s.take(n));
        assert(paginate::expanded(s, n) =~= spaced(s.take(n)));
    } else {
        assert(paginate::expanded(s, n) =~= spaced(s.take(n)));
    }
}

proof fn lemma_spaced_lacks(s: Seq<char>, c: char)
    requires
        lacks(s, c),
        c != ' ',
    ensures
        lacks(spaced(s), c),
        s.len() > 0 ==> spaced(s).len() > 0,
    decreases s.len(),
{
    if s.len() > 0 {
        lemma_spaced_lacks(s.skip(1), c);
    }
}

proof fn lemma_full<T>(s: Seq<T>, n: int)
    requires
        n > 0,
        s.len() > 0,
    ensures
        are_full(paginate::chunks(s, n), n),
        forall|i: int, j: int|
            0 <= i < paginate::chunks(s, n).len() && 0 <= j < paginate::chunks(s, n)[i].len()
                ==> s.contains(#[trigger] paginate::chunks(s, n)[i][j]),
    decreases s.len(),
{
    let pieces = paginate::chunks(s, n);
    if s.len() > n {
        let rest = paginate::chunks(s.skip(n), n);
        lemma_full(s.skip(n), n);
        assert(pieces =~= seq![s.take(n)] + rest);
        assert(pieces.last() == rest.last());
        assert forall|i: int| 0 <= i < pieces.len() - 1 implies (#[trigger] pieces[i]).len()
            == n by {
            if i > 0 {
                assert(pieces[i] == rest[i - 1]);
            }
        }
        assert forall|i: int, j: int|
            0 <= i < pieces.len() && 0 <= j < pieces[i].len() implies s.contains(
            #[trigger] pieces[i][j],
        ) by {
            if i == 0 {
                assert(s[j] == pieces[i][j]);
            } else {
                assert(pieces[i] == rest[i - 1]);
                let k = choose|k: int|
                    0 <= k < s.skip(n).len() && s.skip(n)[k] == rest[i - 1][j];
                assert(s[n + k] == pieces[i][j]);
            }
        }
    } else {
        assert(pieces =~= seq![s]);
        assert forall|i: int, j: int|
            0 <= i < pieces.len() && 0 <= j < pieces[i].len() implies s.contains(
            #[trigger] pieces[i][j],
        ) by {
            assert(s[j] == pieces[i][j]);
        }
    }
}

proof fn lemma_line_rows(line: Seq<char>)
    requires
        lacks(line, '\n'),
    ensures
        are_rows_of(paginate::line_rows(line), line),
        forall|i: int|
            0 <= i < paginate::line_rows(line).len() ==> lacks(
                #[trigger] paginate::line_rows(line)[i],
                '\n',
            ),
{
    let wide = paginate::expanded(line, line.len() as int);
    let rows = paginate::line_rows(line);
    lemma_expanded(line, line.len() as int);
    assert(line.take(line.len() as int) =~= line);
    lemma_spaced_lacks(line, '\n');
    if line.len() > 0 {
        lemma_full(wide, 45);
        paginate::law_chunks_lose_nothing(wide, 45);
        assert forall|i: int| 0 <= i < rows.len() implies lacks(#[trigger] rows[i], '\n') by {
            assert forall|j: int| 0 <= j < rows[i].len() implies rows[i][j] != '\n' by {
                assert(wide.contains(rows[i][j]));
            }
        }
    } else {
        assert(rows =~= seq![Seq::<char>::empty()]);
    }
}

proof fn lemma_concatenated_push<T>(pieces: Seq<Seq<T>>, piece: Seq<T>)
    ensures
        concatenated(pieces.push(piece)) == concatenated(pieces) + piece,
    decreases pieces.len(),
{
    let all = pieces.push(piece);
    if pieces.len() == 0 {
        assert(all.skip(1) =~= Seq::<Seq<T>>::empty());
        assert(concatenated(all.skip(1)) =~= Seq::<T>::empty());
        assert(concatenated(all) =~= concatenated(pieces) + piece);
    } else {
        lemma_concatenated_push(pieces.skip(1), piece);
        assert(all.skip(1) =~= pieces.skip(1).push(piece));
        assert(concatenated(all) =~= concatenated(pieces) + piece);
    }
}

/// The rows of each of the first `n` lines.
spec fn rows_by_line(lines: Seq<Seq<char>>, n: int) -> Seq<Seq<Seq<char>>> {
    Seq::new(n as nat, |k: int| paginate::line_rows(lines[k]))
}

proof fn lemma_rows(lines: Seq<Seq<char>>, n: int)
    requires
        0 <= n <= lines.len(),
        forall|k: int| 0 <= k < lines.len() ==> lacks(#[trigger] lines[k], '\n'),
    ensures
        paginate::rows_of_lines(lines, n) == concatenated(rows_by_line(lines, n)),
        paginate::rows_of_lines(lines, n).len() >= n,
        forall|i: int|
            0 <= i < paginate::rows_of_lines(lines, n).len() ==> lacks(
                #[trigger] paginate::rows_of_lines(lines, n)[i],
                '\n',
            ),
    decreases n,
{
    if n > 0 {
        lemma_rows(lines, n - 1);
        let before = paginate::rows_of_lines(lines, n - 1);
        let added = paginate::line_rows(lines[n - 1]);
        lemma_line_rows(lines[n - 1]);
        lemma_concatenated_push(rows_by_line(lines, n - 1), added);
        assert(rows_by_line(lines, n - 1).push(added) =~= rows_by_line(lines, n));
        let all = paginate::rows_of_lines(lines, n);
        assert forall|i: int| 0 <= i < all.len() implies lacks(#[trigger] all[i], '\n') by {
            if i < before.len() {
                assert(all[i] == before[i]);
            } else {
                assert(all[i] == added[i - before.len()]);
            }
        }
    } else {
        assert(paginate::rows_of_lines(lines, n) =~= concatenated(rows_by_line(lines, n)));
    }
}

/// A text is laid out row by row: each line takes rows of 45 characters, with
/// four spaces for a tab, and the rows of all lines fill one page after the
/// other.
pub proof fn law_text_is_laid_out_in_order(lines: Seq<Seq<char>>, lines_per_page: int)
    requires
        lines.len() > 0,
        lines_per_page > 0,
        forall|k: int| 0 <= k < lines.len() ==> lacks(#[trigger] lines[k], '\n'),
    ensures
        ({
            let pages = paginate::pages_of(strung(lines, '\n'), lines_per_page);
            &&& are_full(shown_rows(pages), lines_per_page)
            &&& exists|rows: Seq<Seq<Seq<char>>>| #[trigger]
                concatenated(rows) == concatenated(shown_rows(pages)) && rows.len() == lines.len()
                    && forall|k: int|
                    0 <= k < lines.len() ==> are_rows_of(#[trigger] rows[k], lines[k])
        }),
{
    let s = strung(lines, '\n');
    let pages = paginate::pages_of(s, lines_per_page);
    words::law_cutting_undoes_stringing(lines, '\n');
    lemma_rows(lines, lines.len() as int);
    let rows = paginate::rows(s);
    assert(rows == paginate::rows_of_lines(lines, lines.len() as int));
    let sheets = paginate::chunks(rows, lines_per_page);
    lemma_full(rows, lines_per_page);
    paginate::law_chunks_lose_nothing(rows, lines_per_page);
    assert forall|i: int| 0 <= i < sheets.len() implies #[trigger] shown_rows(pages)[i]
        == sheets[i] by {
        assert(pages[i] == paginate::page_of(sheets[i]));
        assert(sheets[i].len() > 0);
        assert forall|j: int| 0 <= j < sheets[i].len() implies lacks(
            #[trigger] sheets[i][j],
            '\n',
        ) by {
            assert(rows.contains(sheets[i][j]));
        }
        words::law_joining_strings_together(sheets[i], '\n');
        words::law_cutting_undoes_stringing(sheets[i], '\n');
    }
    assert(shown_rows(pages) =~= sheets);
    let by_line = rows_by_line(lines, lines.len() as int);
    assert forall|k: int| 0 <= k < lines.len() implies are_rows_of(
        #[trigger] by_line[k],
        lines[k],
    ) by {
        lemma_line_rows(lines[k]);
    }
    assert(concatenated(by_line) == concatenated(shown_rows(pages)));
}

proof fn lemma_pages_of_texts(
    a: Seq<Seq<char>>,
    b: Seq<Seq<char>>,
    lines_per_page: int,
    n: int,
)
    requires
        0 <= n <= b.len(),
    ensures
        paginate::pages_of_texts(a + b, lines_per_page, a.len() + n) == paginate::pages_of_texts(
            a,
            lines_per_page,
            a.len() as int,
        ) + paginate::pages_of_texts(b, lines_per_page, n),
    decreases n,
{
    if n > 0 {
        lemma_pages_of_texts(a, b, lines_per_page, n - 1);
        assert((a + b)[a.len() + n - 1] == b[n - 1]);
        assert(paginate::pages_of_texts(a + b, lines_per_page, a.len() + n)
            =~= paginate::pages_of_texts(a, lines_per_page, a.len() as int)
            + paginate::pages_of_texts(b, lines_per_page, n));
    } else {
        lemma_same_texts(a, a + b, lines_per_page, a.len() as int);
        assert(paginate::pages_of_texts(b, lines_per_page, n) =~= Seq::<Seq<char>>::empty());
    }
}

proof fn lemma_same_texts(a: Seq<Seq<char>>, b: Seq<Seq<char>>, lines_per_page: int, n: int)
    requires
        n <= a.len(),
        n <= b.len(),
        forall|i: int| 0 <= i < n ==> a[i] == b[i],
    ensures
        paginate::pages_of_texts(a, lines_per_page, n) == paginate::pages_of_texts(
            b,
            lines_per_page,
            n,
        ),
    decreases n,
{
    if n > 0 {
        lemma_same_texts(a, b, lines_per_page, n - 1);
    }
}

/// Texts are laid out one after the other, each from a page of its own on;
/// without any text there is one empty page.
pub proof fn law_texts_begin_on_pages_of_their_own(
    a: Seq<Seq<char>>,
    b: Seq<Seq<char>>,
    text: Seq<char>,
    lines_per_page: int,
)
    ensures
        a.len() > 0 && b.len() > 0 ==> paginate::paginated(a + b, lines_per_page)
            == paginate::paginated(a, lines_per_page) + paginate::paginated(b, lines_per_page),
        paginate::paginated(seq![text], lines_per_page) == paginate::pages_of(text, lines_per_page),
        paginate::paginated(Seq::empty(), lines_per_page) == seq![Seq::<char>::empty()],
{
    lemma_pages_of_texts(a, b, lines_per_page, b.len() as int);
    assert(paginate::pages_of_texts(seq![text], lines_per_page, 0) =~= Seq::<Seq<char>>::empty());
    assert(paginate::pages_of_texts(seq![text], lines_per_page, 1) =~= paginate::pages_of(
        text,
        lines_per_page,
    ));
}

} // verus!
