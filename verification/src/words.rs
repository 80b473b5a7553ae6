//! What cutting, joining and trimming texts keeps.

use vstd::prelude::*;

use crate::text;

verus! {

/// The code points that count as white space.
pub open spec fn blanks() -> Seq<int> {
    seq![
        0x09, 0x0a, 0x0b, 0x0c, 0x0d, 0x20, 0x85, 0xa0, 0x1680,
        0x2000, 0x2001, 0x2002, 0x2003, 0x2004, 0x2005, 0x2006, 0x2007, 0x2008, 0x2009, 0x200a,
        0x2028, 0x2029, 0x202f, 0x205f, 0x3000,
    ]
}

/// White space is what stands in the list of blanks.
pub proof fn law_white_space_is_listed(c: char)
    ensures
        text::is_white(c) <==> blanks().contains(c as int),
{
    let list = blanks();
    assert(list.len() == 25);
    if text::is_white(c) {
        let n = c as int;
        let i: int = if n <= 0x0d {
            n - 0x09
        } else if n == 0x20 {
            5
        } else if n == 0x85 {
            6
        } else if n == 0xa0 {
            7
        } else if n == 0x1680 {
            8
        } else if n <= 0x200a {
            n - 0x2000 + 9
        } else if n == 0x2028 {
            20
        } else if n == 0x2029 {
            21
        } else if n == 0x202f {
            22
        } else if n == 0x205f {
            23
        } else {
            24
        };
        assert(list[i] == n);
    }
    if list.contains(c as int) {
        let i = choose|i: int| 0 <= i < list.len() && list[i] == c as int;
        assert(text::is_white(c));
    }
}

/// `inner` stands in `s` from `at` on, and all that stands around it is blank.
pub open spec fn is_core(inner: Seq<char>, s: Seq<char>, at: int) -> bool {
    &&& 0 <= at
    &&& at + inner.len() <= s.len()
    &&& inner == s.subrange(at, at + inner.len())
    &&& forall|i: int| 0 <= i < at ==> blanks().contains((#[trigger] s[i]) as int)
    &&& forall|i: int|
        at + inner.len() <= i < s.len() ==> blanks().contains((#[trigger] s[i]) as int)
}

/// `s` neither begins nor ends with a blank.
pub open spec fn is_trim(s: Seq<char>) -> bool {
    s.len() > 0 ==> !blanks().contains(s[0] as int) && !blanks().contains(s.last() as int)
}

proof fn lemma_start(s: Seq<char>) -> (at: int)
    ensures
        0 <= at <= s.len(),
        text::trimmed_start(s) == s.subrange(at, s.len() as int),
        forall|i: int| 0 <= i < at ==> text::is_white(#[trigger] s[i]),
        at < s.len() ==> !text::is_white(s[at]),
    decreases s.len(),
{
    if s.len() > 0 && text::is_white(s[0]) {
        let rest = s.drop_first();
        let at = lemma_start(rest);
        assert(rest.subrange(at, rest.len() as int) =~= s.subrange(at + 1, s.len() as int));
        assert forall|i: int| 0 <= i < at + 1 implies text::is_white(#[trigger] s[i]) by {
            if i > 0 {
                assert(s[i] == rest[i - 1]);
            }
        }
        at + 1
    } else {
        assert(s.subrange(0, s.len() as int) =~= s);
        0
    }
}

proof fn lemma_end(s: Seq<char>) -> (end: int)
    ensures
        0 <= end <= s.len(),
        text::trimmed_end(s) == s.subrange(0, end),
        forall|i: int| end <= i < s.len() ==> text::is_white(#[trigger] s[i]),
        end > 0 ==> !text::is_white(s[end - 1]),
    decreases s.len(),
{
    if s.len() > 0 && text::is_white(s.last()) {
        let rest = s.drop_last();
        let end = lemma_end(rest);
        assert(rest.subrange(0, end) =~= s.subrange(0, end));
        assert forall|i: int| end <= i < s.len() implies text::is_white(#[trigger] s[i]) by {
            if i < rest.len() {
                assert(s[i] == rest[i]);
            }
        }
        end
    } else {
        assert(s.subrange(0, s.len() as int) =~= s);
        s.len() as int
    }
}

/// Trimming takes away the blanks around a text and nothing else.
pub proof fn law_trimming_takes_the_blanks_away(s: Seq<char>)
    ensures
        is_trim(text::trimmed(s)),
        exists|at: int| is_core(text::trimmed(s), s, at),
{
    let at = lemma_start(s);
    let rest = text::trimmed_start(s);
    let end = lemma_end(rest);
    let inner = text::trimmed(s);
    assert forall|c: char| text::is_white(c) <==> #[trigger] blanks().contains(c as int) by {
        law_white_space_is_listed(c);
    }
    assert(inner =~= s.subrange(at, at + end));
    if inner.len() > 0 {
        assert(inner[0] == s[at]);
        assert(inner.last() == rest[end - 1]);
        law_white_space_is_listed(inner[0]);
        law_white_space_is_listed(inner.last());
    }
    assert forall|i: int| 0 <= i < at implies blanks().contains((#[trigger] s[i]) as int) by {
        law_white_space_is_listed(s[i]);
    }
    assert forall|i: int| at + inner.len() <= i < s.len() implies blanks().contains(
        (#[trigger] s[i]) as int,
    ) by {
        assert(s[i] == rest[i - at]);
        law_white_space_is_listed(s[i]);
    }
    assert(is_core(inner, s, at));
}

/// The capital and the small letters stand for each other, and every other
/// character stands for itself.
pub proof fn law_letters_have_two_cases(c: char, i: int)
    requires
        0 <= i < 26,
    ensures
        text::lower("ABCDEFGHIJKLMNOPQRSTUVWXYZ"@[i]) == "abcdefghijklmnopqrstuvwxyz"@[i],
        text::upper("abcdefghijklmnopqrstuvwxyz"@[i]) == "ABCDEFGHIJKLMNOPQRSTUVWXYZ"@[i],
        !"ABCDEFGHIJKLMNOPQRSTUVWXYZ"@.contains(c) ==> text::lower(c) == c,
        !"abcdefghijklmnopqrstuvwxyz"@.contains(c) ==> text::upper(c) == c,
{
    reveal_strlit("ABCDEFGHIJKLMNOPQRSTUVWXYZ");
    reveal_strlit("abcdefghijklmnopqrstuvwxyz");
    let capitals = "ABCDEFGHIJKLMNOPQRSTUVWXYZ"@;
    let small = "abcdefghijklmnopqrstuvwxyz"@;
    assert(capitals.len() == 26 && small.len() == 26);
    assert(capitals[i] as int == 'A' as int + i);
    assert(small[i] as int == 'a' as int + i);
    if 'A' <= c <= 'Z' {
        let k = c as int - 'A' as int;
        assert(capitals[k] as int == 'A' as int + k);
        assert(capitals[k] == c);
    }
    if 'a' <= c <= 'z' {
        let k = c as int - 'a' as int;
        assert(small[k] as int == 'a' as int + k);
        assert(small[k] == c);
    }
}

/// `c` does not stand in `s`.
pub open spec fn lacks(s: Seq<char>, c: char) -> bool {
    forall|i: int| 0 <= i < s.len() ==> s[i] != c
}

/// The parts, each with a `c` behind it but the last.
pub open spec fn strung(parts: Seq<Seq<char>>, c: char) -> Seq<char>
    decreases parts.len(),
{
    if parts.len() == 0 {
        Seq::empty()
    } else if parts.len() == 1 {
        parts[0]
    } else {
        parts[0] + seq![c] + strung(parts.skip(1), c)
    }
}

proof fn lemma_found(s: Seq<char>, c: char, from: int, end: int)
    requires
        0 <= from <= end <= s.len(),
        forall|i: int| from <= i < end ==> s[i] != c,
        end < s.len() ==> s[end] == c,
    ensures
        text::index_of(s, c, from) == end,
{
    text::lemma_index_of(s, c, from);
}

proof fn lemma_split(before: Seq<char>, parts: Seq<Seq<char>>, c: char)
    requires
        parts.len() > 0,
        forall|k: int| 0 <= k < parts.len() ==> lacks(#[trigger] parts[k], c),
    ensures
        text::split_from(before + strung(parts, c), c, before.len() as int) == parts,
    decreases parts.len(),
{
    let s = before + strung(parts, c);
    let from = before.len() as int;
    let first = parts[0];
    let end = from + first.len();
    assert forall|i: int| from <= i < end implies s[i] != c by {
        assert(s[i] == first[i - from]);
    }
    if parts.len() == 1 {
        lemma_found(s, c, from, end);
        assert(s.subrange(from, s.len() as int) =~= first);
        assert(text::split_from(s, c, from) =~= parts);
    } else {
        let rest = parts.skip(1);
        assert(s[end] == c);
        lemma_found(s, c, from, end);
        let head = before + first + seq![c];
        assert(head + strung(rest, c) =~= s);
        lemma_split(head, rest, c);
        assert(s.subrange(from, end) =~= first);
        assert(seq![first] + rest =~= parts);
    }
}

/// A text that was strung together out of parts is cut into these parts.
pub proof fn law_cutting_undoes_stringing(parts: Seq<Seq<char>>, c: char)
    requires
        parts.len() > 0,
        forall|k: int| 0 <= k < parts.len() ==> lacks(#[trigger] parts[k], c),
    ensures
        text::split_from(strung(parts, c), c, 0) == parts,
{
    lemma_split(Seq::empty(), parts, c);
    assert(Seq::<char>::empty() + strung(parts, c) =~= strung(parts, c));
}

proof fn lemma_pieces(s: Seq<char>, c: char, from: int)
    requires
        0 <= from <= s.len(),
    ensures
        ({
            let parts = text::split_from(s, c, from);
            &&& parts.len() > 0
            &&& strung(parts, c) == s.subrange(from, s.len() as int)
            &&& forall|k: int| 0 <= k < parts.len() ==> lacks(#[trigger] parts[k], c)
        }),
    decreases s.len() - from,
{
    text::lemma_index_of(s, c, from);
    let end = text::index_of(s, c, from);
    let parts = text::split_from(s, c, from);
    if end < s.len() {
        lemma_pieces(s, c, end + 1);
        let rest = text::split_from(s, c, end + 1);
        assert(parts.skip(1) =~= rest);
        assert(parts[0] == s.subrange(from, end));
        assert(strung(parts, c) =~= s.subrange(from, s.len() as int));
        assert forall|k: int| 0 <= k < parts.len() implies lacks(#[trigger] parts[k], c) by {
            if k > 0 {
                assert(parts[k] == rest[k - 1]);
            }
        }
    } else {
        assert(parts =~= seq![s.subrange(from, s.len() as int)]);
    }
}

/// The parts that a text is cut into make up the text again.
pub proof fn law_cutting_keeps_the_text(s: Seq<char>, c: char)
    ensures
        strung(text::split_from(s, c, 0), c) == s,
        text::split_from(s, c, 0).len() > 0,
        forall|k: int|
            0 <= k < text::split_from(s, c, 0).len() ==> lacks(
                #[trigger] text::split_from(s, c, 0)[k],
                c,
            ),
{
    lemma_pieces(s, c, 0);
    assert(s.subrange(0, s.len() as int) =~= s);
}

proof fn lemma_strung_push(parts: Seq<Seq<char>>, part: Seq<char>, c: char)
    requires
        parts.len() > 0,
    ensures
        strung(parts.push(part), c) == strung(parts, c) + seq![c] + part,
    decreases parts.len(),
{
    let all = parts.push(part);
    if parts.len() == 1 {
        assert(all.skip(1) =~= seq![part]);
        assert(strung(all.skip(1), c) == part);
        assert(strung(all, c) == parts[0] + seq![c] + part);
    } else {
        lemma_strung_push(parts.skip(1), part, c);
        assert(all.skip(1) =~= parts.skip(1).push(part));
        assert(strung(all, c) =~= strung(parts, c) + seq![c] + part);
    }
}

/// Parts that are joined with one character between them are strung together.
pub proof fn law_joining_strings_together(parts: Seq<Seq<char>>, c: char)
    ensures
        text::joined(parts, seq![c], parts.len() as int) == strung(parts, c),
    decreases parts.len(),
{
    if parts.len() > 1 {
        let before = parts.drop_last();
        law_joining_strings_together(before, c);
        lemma_strung_push(before, parts.last(), c);
        assert(before.push(parts.last()) =~= parts);
        lemma_joined_first(parts, before, c, before.len() as int);
    }
}

proof fn lemma_joined_first(a: Seq<Seq<char>>, b: Seq<Seq<char>>, c: char, n: int)
    requires
        n <= a.len(),
        n <= b.len(),
        forall|i: int| 0 <= i < n ==> a[i] == b[i],
    ensures
        text::joined(a, seq![c], n) == text::joined(b, seq![c], n),
    decreases n,
{
    if n > 1 {
        lemma_joined_first(a, b, c, n - 1);
    }
}

/// Lines, each with a line feed behind it, and with a carriage return before
/// the line feed where `wide` says so.
pub open spec fn ended(lines: Seq<Seq<char>>, wide: Seq<bool>) -> Seq<char>
    decreases lines.len(),
{
    if lines.len() == 0 {
        Seq::empty()
    } else {
        lines[0] + (if wide[0] {
            seq!['\r', '\n']
        } else {
            seq!['\n']
        }) + ended(lines.skip(1), wide.skip(1))
    }
}

proof fn lemma_lines(
    before: Seq<char>,
    lines: Seq<Seq<char>>,
    wide: Seq<bool>,
    last: Seq<char>,
)
    requires
        lines.len() == wide.len(),
        forall|k: int|
            0 <= k < lines.len() ==> lacks(#[trigger] lines[k], '\n') && lacks(lines[k], '\r'),
        lacks(last, '\n'),
    ensures
        text::lines_from(before + ended(lines, wide) + last, before.len() as int) == (if last.len()
            == 0 {
            lines
        } else {
            lines.push(last)
        }),
    decreases lines.len(),
{
    let s = before + ended(lines, wide) + last;
    let from = before.len() as int;
    if lines.len() == 0 {
        if last.len() > 0 {
            assert forall|i: int| from <= i < s.len() implies s[i] != '\n' by {
                assert(s[i] == last[i - from]);
            }
            lemma_found(s, '\n', from, s.len() as int);
            assert(s.subrange(from, s.len() as int) =~= last);
            assert(text::lines_from(s, s.len() as int + 1) =~= Seq::<Seq<char>>::empty());
            assert(text::lines_from(s, from) =~= lines.push(last));
        } else {
            assert(text::lines_from(s, from) =~= lines);
        }
    } else {
        let first = lines[0];
        let end = from + first.len() + (if wide[0] {
            1int
        } else {
            0int
        });
        assert(s[end] == '\n');
        assert forall|i: int| from <= i < end implies s[i] != '\n' by {
            if i < from + first.len() {
                assert(s[i] == first[i - from]);
            }
        }
        lemma_found(s, '\n', from, end);
        if wide[0] {
            assert(s[end - 1] == '\r');
        } else if first.len() > 0 {
            assert(s[end - 1] == first.last());
        }
        assert(text::line_of(s, from, end) =~= first);
        let head = s.subrange(0, end + 1);
        let rest = lines.skip(1);
        assert(head + ended(rest, wide.skip(1)) + last =~= s);
        assert forall|k: int| 0 <= k < rest.len() implies lacks(#[trigger] rest[k], '\n') && lacks(
            rest[k],
            '\r',
        ) by {
            assert(rest[k] == lines[k + 1]);
        }
        lemma_lines(head, rest, wide.skip(1), last);
        assert(seq![first] + rest =~= lines);
        assert(seq![first] + rest.push(last) =~= lines.push(last));
    }
}

/// A text is read line by line. A line feed ends a line, and so does a carriage
/// return with a line feed; what stands behind the last of them is a line of
/// its own, unless it is empty.
pub proof fn law_text_is_read_line_by_line(
    lines: Seq<Seq<char>>,
    wide: Seq<bool>,
    last: Seq<char>,
)
    requires
        lines.len() == wide.len(),
        forall|k: int|
            0 <= k < lines.len() ==> lacks(#[trigger] lines[k], '\n') && lacks(lines[k], '\r'),
        lacks(last, '\n'),
    ensures
        text::lines_from(ended(lines, wide) + last, 0) == (if last.len() == 0 {
            lines
        } else {
            lines.push(last)
        }),
{
    lemma_lines(Seq::empty(), lines, wide, last);
    assert(Seq::<char>::empty() + ended(lines, wide) + last =~= ended(lines, wide) + last);
}

} // verus!
