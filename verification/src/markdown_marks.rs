//! Which characters of a text a Markdown file escapes, and where its pages
//! stand.

use vstd::prelude::*;

use crate::markdown;
use crate::markdown::{count_from, is_escaped, line_start, needs_escape, run_end, word_end};
use crate::pdf::extract::PageText;
use crate::text;
use crate::words;
use crate::words::lacks;

verus! {

/// `count` times the same character.
pub open spec fn row(c: char, count: nat) -> Seq<char> {
    Seq::new(count, |i: int| c)
}

/// `s` is empty or begins with a blank.
pub open spec fn stands_apart(s: Seq<char>) -> bool {
    s.len() == 0 || words::blanks().contains(s[0] as int)
}

/// Spaces and tabs only.
pub open spec fn is_gap(s: Seq<char>) -> bool {
    forall|i: int| 0 <= i < s.len() ==> (#[trigger] s[i] == ' ' || s[i] == '\t')
}

proof fn lemma_run(line: Seq<char>, c: char, i: int, end: int)
    requires
        0 <= i <= end <= line.len(),
        forall|j: int| i <= j < end ==> line[j] == c,
        end < line.len() ==> line[end] != c,
    ensures
        run_end(line, c, i) == end,
    decreases end - i,
{
    if i < end {
        lemma_run(line, c, i + 1, end);
    }
}

proof fn lemma_line_start(s: Seq<char>, from: int, k: int)
    requires
        0 <= from <= k <= s.len(),
        from == 0 || s[from - 1] == '\n',
        forall|i: int| from <= i < k ==> s[i] != '\n',
    ensures
        line_start(s, k) == from,
    decreases k - from,
{
    if from < k {
        lemma_line_start(s, from, k - 1);
    }
}

/// What is escaped in a line depends on this line alone.
pub proof fn law_lines_are_escaped_on_their_own(
    before: Seq<char>,
    line: Seq<char>,
    behind: Seq<char>,
    k: int,
)
    requires
        before.len() > 0 ==> before.last() == '\n',
        behind.len() > 0 ==> behind[0] == '\n',
        lacks(line, '\n'),
        0 <= k < line.len(),
    ensures
        is_escaped(before + line + behind, before.len() + k) == needs_escape(line, k),
{
    let s = before + line + behind;
    let from = before.len() as int;
    let end = from + line.len();
    assert forall|i: int| from <= i < end implies s[i] != '\n' by {
        assert(s[i] == line[i - from]);
    }
    lemma_line_start(s, from, from + k);
    text::lemma_index_of(s, '\n', from + k);
    if behind.len() > 0 {
        assert(s[end] == behind[0]);
    }
    assert(text::index_of(s, '\n', from + k) == end);
    assert(s.subrange(from, end) =~= line);
}

/// These characters are escaped wherever they stand.
pub proof fn law_controls_are_escaped(line: Seq<char>, k: int, i: int)
    requires
        0 <= k < line.len(),
        0 <= i < 12,
        line[k] == seq!['\\', '`', '*', '_', '{', '}', '[', ']', '<', '>', '|', '~'][i],
    ensures
        needs_escape(line, k),
{
    let list = seq!['\\', '`', '*', '_', '{', '}', '[', ']', '<', '>', '|', '~'];
    assert(list[0] == '\\' && list[1] == '`' && list[2] == '*' && list[3] == '_');
    assert(list[4] == '{' && list[5] == '}' && list[6] == '[' && list[7] == ']');
    assert(list[8] == '<' && list[9] == '>' && list[10] == '|' && list[11] == '~');
}

/// Only marks are escaped: no letter, no digit, no blank, nothing beyond ASCII.
pub proof fn law_only_marks_are_escaped(line: Seq<char>, k: int)
    requires
        0 <= k < line.len(),
        needs_escape(line, k),
    ensures
        "\\`*_{}[]<>|~!&#+-=.)"@.contains(line[k]),
{
    reveal_strlit("\\`*_{}[]<>|~!&#+-=.)");
    let list = "\\`*_{}[]<>|~!&#+-=.)"@;
    assert(list.len() == 20);
    assert(list[0] == '\\' && list[1] == '`' && list[2] == '*' && list[3] == '_');
    assert(list[4] == '{' && list[5] == '}' && list[6] == '[' && list[7] == ']');
    assert(list[8] == '<' && list[9] == '>' && list[10] == '|' && list[11] == '~');
    assert(list[12] == '!' && list[13] == '&' && list[14] == '#' && list[15] == '+');
    assert(list[16] == '-' && list[17] == '=' && list[18] == '.' && list[19] == ')');
}

/// One to six number signs that stand apart are escaped at the start of a line,
/// behind at most three spaces; others are not.
pub proof fn law_headings_are_escaped(indent: nat, level: nat, rest: Seq<char>)
    requires
        level > 0,
        rest.len() > 0 ==> rest[0] != '#',
    ensures
        needs_escape(row(' ', indent) + row('#', level) + rest, indent as int) <==> (indent <= 3
            && level <= 6 && stands_apart(rest)),
{
    let line = row(' ', indent) + row('#', level) + rest;
    let k = indent as int;
    assert(line[k] == '#');
    lemma_run(line, ' ', 0, k);
    lemma_run(line, '#', k, k + level);
    if rest.len() > 0 {
        words::law_white_space_is_listed(rest[0]);
        assert(line[k + level] == rest[0]);
    }
}

/// A plus sign or a dash that stands apart is escaped at the start of a line,
/// behind at most three spaces. Other plus signs are not.
pub proof fn law_items_are_escaped(indent: nat, c: char, rest: Seq<char>)
    requires
        c == '+' || c == '-',
    ensures
        indent <= 3 && stands_apart(rest) ==> needs_escape(
            row(' ', indent) + seq![c] + rest,
            indent as int,
        ),
        c == '+' && !(indent <= 3 && stands_apart(rest)) ==> !needs_escape(
            row(' ', indent) + seq![c] + rest,
            indent as int,
        ),
{
    let line = row(' ', indent) + seq![c] + rest;
    let k = indent as int;
    assert(line[k] == c);
    lemma_run(line, ' ', 0, k);
    if rest.len() > 0 {
        words::law_white_space_is_listed(rest[0]);
        assert(line[k + 1] == rest[0]);
    }
}

/// A row of equals signs or of dashes, with nothing but spaces and tabs behind
/// it, is escaped behind at most three spaces.
pub proof fn law_underlines_are_escaped(indent: nat, c: char, length: nat, rest: Seq<char>)
    requires
        indent <= 3,
        c == '=' || c == '-',
        length > 0,
        is_gap(rest),
    ensures
        needs_escape(row(' ', indent) + row(c, length) + rest, indent as int),
{
    let line = row(' ', indent) + row(c, length) + rest;
    let k = indent as int;
    assert(line[k] == c);
    lemma_run(line, ' ', 0, k);
    if rest.len() > 0 {
        assert(line[k + length] == rest[0]);
    }
    lemma_run(line, c, k, k + length);
    assert forall|j: int| k + length <= j < line.len() implies (#[trigger] line[j] == ' '
        || line[j] == '\t') by {
        assert(line[j] == rest[j - k - length]);
    }
}

proof fn lemma_count(line: Seq<char>, c: char, i: int, a: int, b: int)
    requires
        0 <= i <= line.len(),
    ensures
        count_from(line, c, i) >= 0,
        i <= a < line.len() && line[a] == c ==> count_from(line, c, i) >= 1,
        i <= a < b < line.len() && line[a] == c && line[b] == c ==> count_from(line, c, i) >= 2,
    decreases line.len() - i,
{
    if i < line.len() {
        lemma_count(line, c, i + 1, a, b);
        lemma_count(line, c, i + 1, b, b);
    }
}

/// Three dashes or more, with nothing but spaces and tabs between them, are
/// escaped behind at most three spaces.
pub proof fn law_rules_are_escaped(indent: nat, rest: Seq<char>, a: int, b: int)
    requires
        indent <= 3,
        forall|i: int|
            0 <= i < rest.len() ==> (#[trigger] rest[i] == '-' || rest[i] == ' ' || rest[i]
                == '\t'),
        0 <= a < b < rest.len(),
        rest[a] == '-',
        rest[b] == '-',
    ensures
        needs_escape(row(' ', indent) + seq!['-'] + rest, indent as int),
{
    let line = row(' ', indent) + seq!['-'] + rest;
    let k = indent as int;
    assert(line[k] == '-');
    lemma_run(line, ' ', 0, k);
    assert forall|j: int| k <= j < line.len() implies (#[trigger] line[j] == '-' || line[j] == ' '
        || line[j] == '\t') by {
        if j > k {
            assert(line[j] == rest[j - k - 1]);
        }
    }
    assert(line[k + 1 + a] == '-' && line[k + 1 + b] == '-');
    lemma_count(line, '-', k + 1, k + 1 + a, k + 1 + b);
}

/// The point or the bracket that stands apart behind one to nine digits is
/// escaped where these begin a line, behind at most three spaces; others are
/// not.
pub proof fn law_numbers_of_lists_are_escaped(
    indent: nat,
    digits: Seq<char>,
    c: char,
    rest: Seq<char>,
)
    requires
        c == '.' || c == ')',
        forall|i: int| 0 <= i < digits.len() ==> '0' <= #[trigger] digits[i] <= '9',
    ensures
        needs_escape(row(' ', indent) + digits + seq![c] + rest, (indent + digits.len()) as int)
            <==> (indent <= 3 && 1 <= digits.len() <= 9 && stands_apart(rest)),
{
    let line = row(' ', indent) + digits + seq![c] + rest;
    let start = indent as int;
    let k = start + digits.len();
    assert(line[k] == c);
    if digits.len() > 0 {
        assert(line[start] == digits[0]);
    }
    lemma_run(line, ' ', 0, start);
    assert forall|j: int| start <= j < k implies markdown::is_digit(#[trigger] line[j]) by {
        assert(line[j] == digits[j - start]);
    }
    if rest.len() > 0 {
        words::law_white_space_is_listed(rest[0]);
        assert(line[k + 1] == rest[0]);
    }
}

/// An exclamation mark is escaped where an image could begin, and nowhere else.
pub proof fn law_images_are_escaped(before: Seq<char>, rest: Seq<char>)
    ensures
        needs_escape(before + seq!['!'] + rest, before.len() as int) <==> (rest.len() > 0
            && rest[0] == '['),
{
    let line = before + seq!['!'] + rest;
    assert(line[before.len() as int] == '!');
    if rest.len() > 0 {
        assert(line[before.len() as int + 1] == rest[0]);
    }
}

proof fn lemma_word(line: Seq<char>, i: int, end: int)
    requires
        0 <= i <= end <= line.len(),
        forall|j: int| i <= j < end ==> markdown::is_word_char(#[trigger] line[j]),
        end < line.len() ==> !markdown::is_word_char(line[end]),
    ensures
        word_end(line, i) == end,
    decreases end - i,
{
    if i < end {
        assert(markdown::is_word_char(line[i]));
        lemma_word(line, i + 1, end);
    }
}

/// An ampersand is escaped before the name or the number of a character with a
/// semicolon behind it, and not where anything else follows the name.
pub proof fn law_references_are_escaped(
    before: Seq<char>,
    numbered: bool,
    name: Seq<char>,
    rest: Seq<char>,
)
    requires
        forall|i: int|
            0 <= i < name.len() ==> ('0' <= #[trigger] name[i] <= '9' || 'a' <= name[i] <= 'z'
                || 'A' <= name[i] <= 'Z'),
        rest.len() > 0 ==> !('0' <= rest[0] <= '9' || 'a' <= rest[0] <= 'z' || 'A' <= rest[0]
            <= 'Z'),
        name.len() > 0,
    ensures
        needs_escape(
            before + (if numbered {
                seq!['&', '#']
            } else {
                seq!['&']
            }) + name + rest,
            before.len() as int,
        ) <==> (rest.len() > 0 && rest[0] == ';'),
{
    let lead = if numbered {
        seq!['&', '#']
    } else {
        seq!['&']
    };
    let line = before + lead + name + rest;
    let k = before.len() as int;
    let first = k + lead.len();
    let end = first + name.len();
    assert(line[k] == '&');
    if numbered {
        assert(line[k + 1] == '#');
    } else {
        assert(line[k + 1] == name[0]);
    }
    assert forall|j: int| first <= j < end implies markdown::is_word_char(#[trigger] line[j]) by {
        assert(line[j] == name[j - first]);
    }
    if rest.len() > 0 {
        assert(line[end] == rest[0]);
    }
    lemma_word(line, first, end);
}

/// A page behind others: an empty line, its mark with its number, and, unless it
/// is empty, another empty line and its text.
pub open spec fn appended(number: nat, shown: Seq<char>) -> Seq<char> {
    "<!-- page: "@ + text::number(number) + " -->"@ + (if shown.len() == 0 {
        Seq::empty()
    } else {
        seq!['\n', '\n'] + shown
    })
}

proof fn lemma_first_pages(a: Seq<PageText>, b: Seq<PageText>, n: int)
    requires
        n <= a.len(),
        n <= b.len(),
        forall|i: int| 0 <= i < n ==> a[i] == b[i],
    ensures
        markdown::pages_text(a, n) == markdown::pages_text(b, n),
    decreases n,
{
    if n > 0 {
        lemma_first_pages(a, b, n - 1);
    }
}

/// The pages of a file stand in order, each behind its number, and the file ends
/// with a line feed.
pub proof fn law_pages_stand_behind_their_numbers(
    pages: Seq<PageText>,
    page: PageText,
    shown: Seq<char>,
)
    requires
        shown == markdown::escaped(page.text, page.text.len() as int),
    ensures
        markdown::document(seq![page]) == appended(1, shown) + seq!['\n'],
        pages.len() > 0 ==> markdown::document(pages).len() > 0 && markdown::document(
            pages.push(page),
        ) == markdown::document(pages) + seq!['\n'] + appended((pages.len() + 1) as nat, shown)
            + seq!['\n'],
{
    reveal_strlit("\n");
    reveal_strlit("\n\n");
    assert("\n"@ =~= seq!['\n']);
    assert("\n\n"@ =~= seq!['\n', '\n']);
    lemma_shown(page.text);
    assert(markdown::pages_text(seq![page], 0) =~= Seq::<char>::empty());
    assert(markdown::document(seq![page]) =~= appended(1, shown) + seq!['\n']);
    if pages.len() > 0 {
        let n = pages.len() as int;
        lemma_first_pages(pages, pages.push(page), n);
        assert(markdown::document(pages.push(page)) =~= markdown::document(pages) + seq!['\n']
            + appended((n + 1) as nat, shown) + seq!['\n']);
    }
}

proof fn lemma_shown(s: Seq<char>)
    ensures
        markdown::escaped(s, s.len() as int).len() == 0 <==> s.len() == 0,
{
    if s.len() > 0 {
        let before = markdown::escaped(s, s.len() - 1);
        assert(markdown::escaped(s, s.len() as int).len() > before.len());
    }
}

} // verus!
