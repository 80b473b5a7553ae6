//! Breaking texts into lines and pages.

use vstd::prelude::*;

use crate::text;
use crate::text::{chars_of, split, string_of};

verus! {

/// The most characters on a line: 45 glyphs of 11 points fit between the
/// margins.
pub const MAX_CHARS_PER_LINE: usize = 45;

/// How many lines fit on a page.
pub const LINES_PER_PAGE: usize = 55;

/// `s` in pieces of `n`, of which the last may be shorter. With `n` zero it
/// stays in one piece.
pub open spec fn chunks<T>(s: Seq<T>, n: int) -> Seq<Seq<T>>
    decreases s.len(),
{
    if s.len() == 0 {
        Seq::empty()
    } else if n <= 0 || s.len() <= n {
        seq![s]
    } else {
        seq![s.take(n)] + chunks(s.skip(n), n)
    }
}

/// The pieces one after another.
pub open spec fn concatenated<T>(pieces: Seq<Seq<T>>) -> Seq<T>
    decreases pieces.len(),
{
    if pieces.len() == 0 {
        Seq::empty()
    } else {
        pieces[0] + concatenated(pieces.skip(1))
    }
}

/// The pieces hold what was broken up, in order, and none is too long or empty.
pub proof fn law_chunks_lose_nothing<T>(s: Seq<T>, n: int)
    requires
        n > 0,
    ensures
        concatenated(chunks(s, n)) == s,
        forall|i: int| 0 <= i < chunks(s, n).len() ==> 0 < (#[trigger] chunks(s, n)[i]).len() <= n,
    decreases s.len(),
{
    if s.len() == 0 {
        assert(concatenated(chunks(s, n)) =~= s);
    } else if s.len() <= n {
        let pieces = seq![s];
        assert(concatenated(pieces.skip(1)) =~= Seq::<T>::empty());
        assert(concatenated(pieces) =~= s);
    } else {
        law_chunks_lose_nothing(s.skip(n), n);
        let rest = chunks(s.skip(n), n);
        let pieces = seq![s.take(n)] + rest;
        assert(pieces.skip(1) =~= rest);
        assert(concatenated(pieces) =~= s);
        assert forall|i: int| 0 <= i < pieces.len() implies 0 < (#[trigger] pieces[i]).len()
            <= n by {
            if i > 0 {
                assert(pieces[i] == rest[i - 1]);
            }
        }
    }
}

/// The first `n` characters, with four spaces for each tab.
pub open spec fn expanded(s: Seq<char>, n: int) -> Seq<char>
    decreases n,
{
    if n <= 0 {
        Seq::empty()
    } else if s[n - 1] == '\t' {
        expanded(s, n - 1) + seq![' ', ' ', ' ', ' ']
    } else {
        expanded(s, n - 1).push(s[n - 1])
    }
}

/// The rows that a line takes.
pub open spec fn line_rows(line: Seq<char>) -> Seq<Seq<char>> {
    let wide = expanded(line, line.len() as int);
    if wide.len() == 0 {
        seq![Seq::<char>::empty()]
    } else {
        chunks(wide, MAX_CHARS_PER_LINE as int)
    }
}

/// The rows that the first `n` lines take.
pub open spec fn rows_of_lines(lines: Seq<Seq<char>>, n: int) -> Seq<Seq<char>>
    decreases n,
{
    if n <= 0 {
        Seq::empty()
    } else {
        rows_of_lines(lines, n - 1) + line_rows(lines[n - 1])
    }
}

/// The rows that a text takes.
pub open spec fn rows(text: Seq<char>) -> Seq<Seq<char>> {
    let lines = text::split_from(text, '\n', 0);
    rows_of_lines(lines, lines.len() as int)
}

/// Rows with line feeds between them.
pub open spec fn page_of(rows: Seq<Seq<char>>) -> Seq<char> {
    text::joined(rows, seq!['\n'], rows.len() as int)
}

/// The pages that a text takes.
pub open spec fn pages_of(text: Seq<char>, lines_per_page: int) -> Seq<Seq<char>> {
    chunks(rows(text), lines_per_page).map_values(|rows: Seq<Seq<char>>| page_of(rows))
}

/// The pages that the first `n` texts take.
pub open spec fn pages_of_texts(texts: Seq<Seq<char>>, lines_per_page: int, n: int) -> Seq<
    Seq<char>,
>
    decreases n,
{
    if n <= 0 {
        Seq::empty()
    } else {
        pages_of_texts(texts, lines_per_page, n - 1) + pages_of(texts[n - 1], lines_per_page)
    }
}

/// The pages that texts take. Each text begins on a page of its own; without
/// any there is an empty page.
pub open spec fn paginated(texts: Seq<Seq<char>>, lines_per_page: int) -> Seq<Seq<char>> {
    if texts.len() == 0 {
        seq![Seq::empty()]
    } else {
        pages_of_texts(texts, lines_per_page, texts.len() as int)
    }
}

/// No row is wider than a line, and the rows of a line hold it, with its tabs
/// expanded, and nothing else.
pub proof fn law_rows_fit_and_hold_the_line(line: Seq<char>)
    ensures
        concatenated(line_rows(line)) == expanded(line, line.len() as int),
        forall|i: int|
            0 <= i < line_rows(line).len() ==> (#[trigger] line_rows(line)[i]).len()
                <= MAX_CHARS_PER_LINE,
        line_rows(line).len() > 0,
{
    let wide = expanded(line, line.len() as int);
    if wide.len() == 0 {
        let pieces = seq![Seq::<char>::empty()];
        assert(concatenated(pieces.skip(1)) =~= Seq::<char>::empty());
        assert(concatenated(pieces) =~= wide);
    } else {
        law_chunks_lose_nothing(wide, MAX_CHARS_PER_LINE as int);
    }
}

proof fn lemma_rows_of_lines(lines: Seq<Seq<char>>, n: int)
    requires
        0 <= n <= lines.len(),
    ensures
        rows_of_lines(lines, n).len() >= n,
        forall|i: int|
            0 <= i < rows_of_lines(lines, n).len() ==> (#[trigger] rows_of_lines(
                lines,
                n,
            )[i]).len() <= MAX_CHARS_PER_LINE,
    decreases n,
{
    if n > 0 {
        lemma_rows_of_lines(lines, n - 1);
        law_rows_fit_and_hold_the_line(lines[n - 1]);
        let before = rows_of_lines(lines, n - 1);
        let added = line_rows(lines[n - 1]);
        let all = rows_of_lines(lines, n);
        assert forall|i: int| 0 <= i < all.len() implies (#[trigger] all[i]).len()
            <= MAX_CHARS_PER_LINE by {
            if i < before.len() {
                assert(all[i] == before[i]);
            } else {
                assert(all[i] == added[i - before.len()]);
            }
        }
    }
}

proof fn lemma_split_is_not_empty(s: Seq<char>)
    ensures
        text::split_from(s, '\n', 0).len() > 0,
{
}

/// Every text takes a page; every page has at most the lines that fit, and at
/// least one; no line is wider than fits; and the pages hold the rows of the
/// text in order.
pub proof fn law_pages_fit(text: Seq<char>, lines_per_page: int)
    requires
        lines_per_page > 0,
    ensures
        pages_of(text, lines_per_page).len() > 0,
        forall|i: int|
            0 <= i < rows(text).len() ==> (#[trigger] rows(text)[i]).len() <= MAX_CHARS_PER_LINE,
        concatenated(chunks(rows(text), lines_per_page)) == rows(text),
        forall|i: int|
            0 <= i < chunks(rows(text), lines_per_page).len() ==> 0 < (#[trigger] chunks(
                rows(text),
                lines_per_page,
            )[i]).len() <= lines_per_page,
{
    let lines = text::split_from(text, '\n', 0);
    lemma_split_is_not_empty(text);
    lemma_rows_of_lines(lines, lines.len() as int);
    law_chunks_lose_nothing(rows(text), lines_per_page);
}

fn expand(line: &[char]) -> (r: Vec<char>)
    ensures
        r@ == expanded(line@, line@.len() as int),
{
    let mut out: Vec<char> = Vec::new();
    let mut i: usize = 0;
    while i < line.len()
        invariant
            i <= line@.len(),
            out@ == expanded(line@, i as int),
        decreases line@.len() - i,
    {
        let ghost before = out@;
        if line[i] == '\t' {
            out.push(' ');
            out.push(' ');
            out.push(' ');
            out.push(' ');
            assert(out@ =~= before + seq![' ', ' ', ' ', ' ']);
        } else {
            out.push(line[i]);
        }
        i += 1;
    }
    out
}

/// Breaks a line into the rows that it takes and adds them to `out`.
fn push_rows(out: &mut Vec<Vec<char>>, line: &[char])
    ensures
        text::texts(final(out)@) == text::texts(old(out)@) + line_rows(line@),
{
    let wide = expand(line);
    let ghost before = text::texts(out@);
    if wide.len() == 0 {
        out.push(Vec::new());
        assert(text::texts(out@) =~= before + line_rows(line@));
        return;
    }
    let mut from: usize = 0;
    let ghost goal = before + line_rows(line@);
    assert(wide@.skip(0) =~= wide@);
    assert(wide.len() <= usize::MAX);
    while from < wide.len()
        invariant
            from <= wide@.len() <= usize::MAX,
            text::texts(out@) + chunks(wide@.skip(from as int), MAX_CHARS_PER_LINE as int) == goal,
        decreases wide@.len() - from,
    {
        let ghost rest = wide@.skip(from as int);
        let end: usize = if wide.len() - from <= MAX_CHARS_PER_LINE {
            wide.len()
        } else {
            from + MAX_CHARS_PER_LINE
        };
        let row: Vec<char> = vstd::slice::slice_to_vec(
            vstd::slice::slice_subrange(wide.as_slice(), from, end),
        );
        let ghost so_far = text::texts(out@);
        let ghost piece = row@;
        out.push(row);
        assert(text::texts(out@) =~= so_far.push(piece));
        if end == wide.len() {
            assert(piece =~= rest);
            assert(wide@.skip(end as int) =~= Seq::<char>::empty());
            assert(text::texts(out@) + chunks(
                wide@.skip(end as int),
                MAX_CHARS_PER_LINE as int,
            ) =~= so_far + seq![rest]);
        } else {
            assert(piece =~= rest.take(MAX_CHARS_PER_LINE as int));
            assert(wide@.skip(end as int) =~= rest.skip(MAX_CHARS_PER_LINE as int));
            let ghost tail = chunks(wide@.skip(end as int), MAX_CHARS_PER_LINE as int);
            assert(text::texts(out@) + tail =~= so_far + (seq![piece] + tail));
        }
        from = end;
    }
    assert(wide@.skip(from as int) =~= Seq::<char>::empty());
    assert(text::texts(out@) =~= goal);
}

fn break_rows(text: &[char]) -> (r: Vec<Vec<char>>)
    ensures
        text::texts(r@) == rows(text@),
{
    let lines = split(text, '\n');
    let mut out: Vec<Vec<char>> = Vec::new();
    let mut i: usize = 0;
    assert(text::texts(out@) =~= Seq::<Seq<char>>::empty());
    while i < lines.len()
        invariant
            i <= lines@.len(),
            text::texts(lines@) == text::split_from(text@, '\n', 0),
            text::texts(out@) == rows_of_lines(text::texts(lines@), i as int),
        decreases lines@.len() - i,
    {
        push_rows(&mut out, lines[i].as_slice());
        assert(text::texts(lines@)[i as int] == lines@[i as int]@);
        i += 1;
    }
    assert(text::texts(lines@).len() == lines@.len());
    out
}

/// The rows from `from` up to `end` with line feeds between them.
fn join_rows(rows: &Vec<Vec<char>>, from: usize, end: usize) -> (r: String)
    requires
        from <= end <= rows@.len(),
    ensures
        r@ == page_of(text::texts(rows@).subrange(from as int, end as int)),
{
    let ghost part = text::texts(rows@).subrange(from as int, end as int);
    let mut out: Vec<char> = Vec::new();
    let mut i: usize = from;
    while i < end
        invariant
            from <= i <= end <= rows@.len(),
            part == text::texts(rows@).subrange(from as int, end as int),
            out@ == text::joined(part, seq!['\n'], i - from),
        decreases end - i,
    {
        let ghost before = out@;
        if i > from {
            out.push('\n');
            assert(out@ =~= before + seq!['\n']);
        }
        let row = &rows[i];
        let mut k: usize = 0;
        let ghost start = out@;
        while k < row.len()
            invariant
                k <= row@.len(),
                out@ == start + row@.take(k as int),
            decreases row@.len() - k,
        {
            out.push(row[k]);
            k += 1;
            assert(out@ =~= start + row@.take(k as int));
        }
        assert(row@.take(k as int) =~= row@);
        assert(part[i - from] == row@);
        i += 1;
        assert(out@ =~= text::joined(part, seq!['\n'], i - from));
    }
    string_of(out.as_slice())
}

/// Breaks a text into the pages that it takes and adds them to `out`.
fn push_pages(out: &mut Vec<String>, text: &str, lines_per_page: usize)
    ensures
        text::strings(final(out)@) == text::strings(old(out)@) + pages_of(
            text@,
            lines_per_page as int,
        ),
{
    let chars = chars_of(text);
    let all = break_rows(chars.as_slice());
    let ghost shown = text::texts(all@);
    let ghost before = text::strings(out@);
    let ghost goal = before + pages_of(text@, lines_per_page as int);
    let ghost paged = |rows: Seq<Seq<char>>| page_of(rows);
    let mut from: usize = 0;
    assert(shown.skip(0) =~= shown);
    assert(all.len() <= usize::MAX);
    while from < all.len()
        invariant
            from <= all@.len() <= usize::MAX,
            shown == text::texts(all@),
            paged == (|rows: Seq<Seq<char>>| page_of(rows)),
            text::strings(out@) + chunks(
                shown.skip(from as int),
                lines_per_page as int,
            ).map_values(paged) == goal,
        decreases all@.len() - from,
    {
        let ghost rest = shown.skip(from as int);
        let end: usize = if lines_per_page == 0 || all.len() - from <= lines_per_page {
            all.len()
        } else {
            from + lines_per_page
        };
        let page = join_rows(&all, from, end);
        let ghost so_far = text::strings(out@);
        let ghost added = page@;
        out.push(page);
        assert(text::strings(out@) =~= so_far.push(added));
        let ghost tail = chunks(shown.skip(end as int), lines_per_page as int);
        if end == all.len() {
            assert(shown.subrange(from as int, end as int) =~= rest);
            assert(shown.skip(end as int) =~= Seq::<Seq<char>>::empty());
            assert(tail =~= Seq::<Seq<Seq<char>>>::empty());
            assert(text::strings(out@) + tail.map_values(paged) =~= so_far + seq![
                rest,
            ].map_values(paged));
        } else {
            assert(shown.subrange(from as int, end as int) =~= rest.take(lines_per_page as int));
            assert(shown.skip(end as int) =~= rest.skip(lines_per_page as int));
            assert(text::strings(out@) + tail.map_values(paged) =~= so_far + (seq![
                rest.take(lines_per_page as int),
            ] + tail).map_values(paged));
        }
        from = end;
    }
    assert(shown.skip(from as int) =~= Seq::<Seq<char>>::empty());
    assert(text::strings(out@) =~= goal);
}

/// Breaks texts into pages.
pub fn paginate_pages(text_pages: &[String], lines_per_page: usize) -> (r: Vec<String>)
    ensures
        text::strings(r@) == paginated(text::strings(text_pages@), lines_per_page as int),
{
    let mut out: Vec<String> = Vec::new();
    let ghost all = text::strings(text_pages@);
    let mut i: usize = 0;
    assert(text::strings(out@) =~= Seq::<Seq<char>>::empty());
    while i < text_pages.len()
        invariant
            i <= text_pages@.len(),
            all == text::strings(text_pages@),
            text::strings(out@) == pages_of_texts(all, lines_per_page as int, i as int),
        decreases text_pages@.len() - i,
    {
        push_pages(&mut out, text_pages[i].as_str(), lines_per_page);
        assert(all[i as int] == text_pages@[i as int]@);
        i += 1;
    }
    if text_pages.len() == 0 {
        let page = String::new();
        out.push(page);
        assert(text::strings(out@) =~= seq![Seq::<char>::empty()]);
    }
    out
}

} // verus!
