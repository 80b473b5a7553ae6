//! Writing the text of PDF files as Markdown. Pages are told apart; headings,
//! lists and tables are not guessed, so nothing in the text may look like one.

use vstd::prelude::*;
use vstd::utf8::*;

use crate::pdf::error::{Failure, PdfError};
use crate::pdf::extract;
use crate::pdf::extract::{
    extract_text_from_path_with_control, ControlledReadError, PageText, TextPage,
};
use crate::pdf::selection::{PageSelection, Wanted};
use crate::stopping;
use crate::text;
use crate::text::{chars_of, find_char, is_white_space, push_number, same, to_lower};

verus! {

/// The most bytes that a PDF file may have.
pub const MAX_INPUT_BYTES: u64 = 262_144_000;

/// The most bytes that a Markdown file may have.
pub const MAX_OUTPUT_BYTES: u64 = 67_108_864;

/// How writing Markdown fails.
#[derive(Debug)]
pub enum MarkdownError {
    InvalidInputPath,
    InputTooLarge,
    InvalidOutputPath,
    OutputTooLarge,
    Cancelled,
    Pdf(PdfError),
    OutputIo(String),
}

/// What contracts say of a `MarkdownError`.
pub enum Trouble {
    InvalidInputPath,
    InputTooLarge,
    InvalidOutputPath,
    OutputTooLarge,
    Cancelled,
    Pdf(Failure),
    OutputIo(Seq<char>),
}

impl View for MarkdownError {
    type V = Trouble;

    open spec fn view(&self) -> Trouble {
        match *self {
            MarkdownError::InvalidInputPath => Trouble::InvalidInputPath,
            MarkdownError::InputTooLarge => Trouble::InputTooLarge,
            MarkdownError::InvalidOutputPath => Trouble::InvalidOutputPath,
            MarkdownError::OutputTooLarge => Trouble::OutputTooLarge,
            MarkdownError::Cancelled => Trouble::Cancelled,
            MarkdownError::Pdf(error) => Trouble::Pdf(error@),
            MarkdownError::OutputIo(message) => Trouble::OutputIo(message@),
        }
    }
}

impl MarkdownError {
    pub open spec fn code_spec(self) -> Seq<char> {
        match self@ {
            Trouble::InvalidInputPath => "PATH_NOT_ALLOWED"@,
            Trouble::InputTooLarge => "INPUT_TOO_LARGE"@,
            Trouble::InvalidOutputPath => "OUTPUT_PATH_NOT_ALLOWED"@,
            Trouble::OutputTooLarge => "OUTPUT_SIZE_EXCEEDED"@,
            Trouble::Cancelled | Trouble::Pdf(Failure::Cancelled) => "CANCELLED"@,
            Trouble::Pdf(Failure::NoTextLayer) => "NO_TEXT_LAYER"@,
            Trouble::Pdf(Failure::PageLimitExceeded) => "PAGE_LIMIT_EXCEEDED"@,
            Trouble::Pdf(Failure::InvalidPageRange) => "INVALID_PAGES"@,
            Trouble::Pdf(Failure::Io(_)) => "INPUT_READ_FAILED"@,
            Trouble::Pdf(_) => "CONVERSION_FAILED"@,
            Trouble::OutputIo(_) => "OUTPUT_WRITE_FAILED"@,
        }
    }

    /// The stable code of this class of failures.
    pub fn code(&self) -> (r: &'static str)
        ensures
            r@ == self.code_spec(),
    {
        match self {
            MarkdownError::InvalidInputPath => "PATH_NOT_ALLOWED",
            MarkdownError::InputTooLarge => "INPUT_TOO_LARGE",
            MarkdownError::InvalidOutputPath => "OUTPUT_PATH_NOT_ALLOWED",
            MarkdownError::OutputTooLarge => "OUTPUT_SIZE_EXCEEDED",
            MarkdownError::Cancelled => "CANCELLED",
            MarkdownError::Pdf(error) => match error {
                PdfError::Cancelled => "CANCELLED",
                PdfError::NoTextLayer => "NO_TEXT_LAYER",
                PdfError::PageLimitExceeded => "PAGE_LIMIT_EXCEEDED",
                PdfError::InvalidPageRange => "INVALID_PAGES",
                PdfError::Io(_) => "INPUT_READ_FAILED",
                _ => "CONVERSION_FAILED",
            },
            MarkdownError::OutputIo(_) => "OUTPUT_WRITE_FAILED",
        }
    }

    pub open spec fn message_spec(self) -> Seq<char> {
        match self {
            MarkdownError::InvalidInputPath =>
                "The PDF input must be a local regular file and cannot be a symlink"@,
            MarkdownError::InputTooLarge =>
                "The PDF input exceeds the Markdown conversion safety limit"@,
            MarkdownError::InvalidOutputPath =>
                "Markdown output must be a new .md file in an existing directory"@,
            MarkdownError::OutputTooLarge => "Markdown output exceeds the 64 MiB safety limit"@,
            MarkdownError::Cancelled => "PDF to Markdown conversion cancelled"@,
            MarkdownError::Pdf(error) => "Could not read the PDF text layer: "@
                + error.message_spec(),
            MarkdownError::OutputIo(message) => "Could not write Markdown: "@ + message@,
        }
    }

    /// The sentence that tells a user what went wrong.
    pub fn message(&self) -> (r: String)
        ensures
            r@ == self.message_spec(),
    {
        match self {
            MarkdownError::InvalidInputPath =>
                "The PDF input must be a local regular file and cannot be a symlink".to_owned(),
            MarkdownError::InputTooLarge =>
                "The PDF input exceeds the Markdown conversion safety limit".to_owned(),
            MarkdownError::InvalidOutputPath =>
                "Markdown output must be a new .md file in an existing directory".to_owned(),
            MarkdownError::OutputTooLarge =>
                "Markdown output exceeds the 64 MiB safety limit".to_owned(),
            MarkdownError::Cancelled => "PDF to Markdown conversion cancelled".to_owned(),
            MarkdownError::Pdf(error) => {
                let mut text = "Could not read the PDF text layer: ".to_owned();
                text.push_str(error.message().as_str());
                text
            },
            MarkdownError::OutputIo(message) => {
                let mut text = "Could not write Markdown: ".to_owned();
                text.push_str(message.as_str());
                text
            },
        }
    }
}

/// A character that means something wherever it stands.
pub open spec fn is_control(c: char) -> bool {
    c == '\\' || c == '`' || c == '*' || c == '_' || c == '{' || c == '}' || c == '[' || c == ']'
        || c == '<' || c == '>' || c == '|' || c == '~'
}

/// Where the run of `c` ends that goes on at `i`.
pub open spec fn run_end(line: Seq<char>, c: char, i: int) -> int
    decreases line.len() - i,
{
    if i < 0 || i >= line.len() || line[i] != c {
        i
    } else {
        run_end(line, c, i + 1)
    }
}

/// The line ends at `i`, or white space stands there.
pub open spec fn is_break(line: Seq<char>, i: int) -> bool {
    i >= line.len() || text::is_white(line[i])
}

/// A heading begins at `k`.
pub open spec fn is_heading(line: Seq<char>, k: int) -> bool {
    line[k] == '#' && run_end(line, '#', k) - k <= 6 && is_break(line, run_end(line, '#', k))
}

/// How many of the characters from `i` on are `c`.
pub open spec fn count_from(line: Seq<char>, c: char, i: int) -> int
    decreases line.len() - i,
{
    if i < 0 || i >= line.len() {
        0
    } else {
        count_from(line, c, i + 1) + if line[i] == c {
            1int
        } else {
            0
        }
    }
}

/// A list item or a rule begins at `k`.
pub open spec fn is_item_or_rule(line: Seq<char>, k: int) -> bool {
    &&& line[k] == '+' || line[k] == '-'
    &&& {
        ||| is_break(line, k + 1)
        ||| {
            &&& line[k] == '-'
            &&& forall|j: int|
                k <= j < line.len() ==> (#[trigger] line[j] == '-' || line[j] == ' ' || line[j]
                    == '\t')
            &&& count_from(line, '-', k) >= 3
        }
    }
}

pub open spec fn is_digit(c: char) -> bool {
    '0' <= c <= '9'
}

/// A number of a list that begins at `start` ends at `k`.
pub open spec fn is_numbered(line: Seq<char>, start: int, k: int) -> bool {
    &&& line[k] == '.' || line[k] == ')'
    &&& 1 <= k - start <= 9
    &&& forall|j: int| start <= j < k ==> is_digit(#[trigger] line[j])
    &&& is_break(line, k + 1)
}

/// A line begins at `k` that makes a heading of the one above it.
pub open spec fn is_underline(line: Seq<char>, k: int) -> bool {
    &&& line[k] == '=' || line[k] == '-'
    &&& forall|j: int|
        run_end(line, line[k], k) <= j < line.len() ==> (#[trigger] line[j] == ' ' || line[j]
            == '\t')
}

pub open spec fn is_word_char(c: char) -> bool {
    is_digit(c) || 'a' <= c <= 'z' || 'A' <= c <= 'Z'
}

/// Where the letters and digits end that go on at `i`.
pub open spec fn word_end(line: Seq<char>, i: int) -> int
    decreases line.len() - i,
{
    if i < 0 || i >= line.len() || !is_word_char(line[i]) {
        i
    } else {
        word_end(line, i + 1)
    }
}

/// What stands at `k` could be the name or the number of a character.
pub open spec fn is_reference(line: Seq<char>, k: int) -> bool {
    let first = if k + 1 < line.len() && line[k + 1] == '#' {
        k + 2
    } else {
        k + 1
    };
    let end = word_end(line, first);
    line[k] == '&' && end > first && end < line.len() && line[end] == ';'
}

/// The `k`-th character of a line could be taken for syntax: for code, emphasis, a
/// link, an image, a tag, a table, a fence, a heading, a list, a rule or a reference
/// to a character. What indentation means, no backslash changes.
pub open spec fn needs_escape(line: Seq<char>, k: int) -> bool {
    let start = run_end(line, ' ', 0);
    ||| is_control(line[k])
    ||| line[k] == '!' && k + 1 < line.len() && line[k + 1] == '['
    ||| is_reference(line, k)
    ||| start <= 3 && k == start && (is_heading(line, k) || is_item_or_rule(line, k)
        || is_underline(line, k))
    ||| start <= 3 && is_numbered(line, start, k)
}

/// Where the line of the `k`-th character begins.
pub open spec fn line_start(s: Seq<char>, k: int) -> int
    decreases k,
{
    if k <= 0 || k > s.len() || s[k - 1] == '\n' {
        k
    } else {
        line_start(s, k - 1)
    }
}

/// The `k`-th character of a text could be taken for syntax.
pub open spec fn is_escaped(s: Seq<char>, k: int) -> bool {
    let start = line_start(s, k);
    let end = text::index_of(s, '\n', k);
    s[k] != '\n' && needs_escape(s.subrange(start, end), k - start)
}

/// The first `n` characters of a text, with a backslash before each that could
/// be taken for syntax.
pub open spec fn escaped(s: Seq<char>, n: int) -> Seq<char>
    decreases n,
{
    if n <= 0 {
        Seq::empty()
    } else if is_escaped(s, n - 1) {
        escaped(s, n - 1) + seq!['\\', s[n - 1]]
    } else {
        escaped(s, n - 1) + seq![s[n - 1]]
    }
}

/// A text without the backslashes that escape characters.
pub open spec fn unescaped(s: Seq<char>) -> Seq<char>
    decreases s.len(),
{
    if s.len() == 0 {
        Seq::empty()
    } else if s[0] == '\\' && s.len() > 1 {
        seq![s[1]] + unescaped(s.skip(2))
    } else {
        seq![s[0]] + unescaped(s.skip(1))
    }
}

/// Every backslash escapes a character.
spec fn closed(s: Seq<char>) -> bool
    decreases s.len(),
{
    if s.len() == 0 {
        true
    } else if s[0] == '\\' {
        s.len() > 1 && closed(s.skip(2))
    } else {
        closed(s.skip(1))
    }
}

proof fn lemma_unescaped(a: Seq<char>, b: Seq<char>)
    requires
        closed(a),
        closed(b),
    ensures
        unescaped(a + b) == unescaped(a) + unescaped(b),
        closed(a + b),
    decreases a.len(),
{
    let all = a + b;
    if a.len() == 0 {
        assert(all =~= b);
        assert(unescaped(a) + unescaped(b) =~= unescaped(b));
    } else if a[0] == '\\' {
        lemma_unescaped(a.skip(2), b);
        assert(all.skip(2) =~= a.skip(2) + b);
        assert(unescaped(all) =~= unescaped(a) + unescaped(b));
    } else {
        lemma_unescaped(a.skip(1), b);
        assert(all.skip(1) =~= a.skip(1) + b);
        assert(unescaped(all) =~= unescaped(a) + unescaped(b));
    }
}

proof fn lemma_one(c: char, marked: bool)
    requires
        c == '\\' ==> marked,
    ensures
        ({
            let piece = if marked {
                seq!['\\', c]
            } else {
                seq![c]
            };
            closed(piece) && unescaped(piece) == seq![c]
        }),
{
    let none = Seq::<char>::empty();
    assert(closed(none));
    assert(unescaped(none) == none);
    if marked {
        let piece = seq!['\\', c];
        assert(piece.skip(2) =~= none);
        assert(unescaped(piece) =~= seq![c]);
    } else {
        let piece = seq![c];
        assert(piece.skip(1) =~= none);
        assert(unescaped(piece) =~= seq![c]);
    }
}

/// Escaping a text loses nothing: without the backslashes it is the text again.
pub proof fn law_escaping_is_reversible(s: Seq<char>)
    ensures
        unescaped(escaped(s, s.len() as int)) == s,
{
    lemma_escaped(s, s.len() as int);
    assert(s.take(s.len() as int) =~= s);
}

proof fn lemma_escaped(s: Seq<char>, n: int)
    requires
        0 <= n <= s.len(),
    ensures
        unescaped(escaped(s, n)) == s.take(n),
        closed(escaped(s, n)),
    decreases n,
{
    if n == 0 {
        assert(escaped(s, n) =~= Seq::<char>::empty());
        assert(s.take(0) =~= Seq::<char>::empty());
    } else {
        lemma_escaped(s, n - 1);
        let c = s[n - 1];
        let marked = is_escaped(s, n - 1);
        if c == '\\' {
            let start = line_start(s, n - 1);
            let end = text::index_of(s, '\n', n - 1);
            lemma_line_start(s, n - 1);
            text::lemma_index_of(s, '\n', n - 1);
            assert(end > n - 1);
            assert(s.subrange(start, end)[n - 1 - start] == c);
        }
        lemma_one(c, marked);
        let piece = if marked {
            seq!['\\', c]
        } else {
            seq![c]
        };
        lemma_unescaped(escaped(s, n - 1), piece);
        assert(s.take(n) =~= s.take(n - 1) + seq![c]);
    }
}

proof fn lemma_line_start(s: Seq<char>, k: int)
    requires
        0 <= k <= s.len(),
    ensures
        0 <= line_start(s, k) <= k,
    decreases k,
{
    if k > 0 && s[k - 1] != '\n' {
        lemma_line_start(s, k - 1);
    }
}

/// No text makes a mark of a page: a backslash stands before each `<` in it.
pub proof fn law_text_makes_no_mark(s: Seq<char>, n: int, k: int)
    requires
        0 <= n <= s.len(),
        0 <= k < escaped(s, n).len(),
        escaped(s, n)[k] == '<',
    ensures
        k > 0,
        escaped(s, n)[k - 1] == '\\',
    decreases n,
{
    let before = escaped(s, n - 1);
    let c = s[n - 1];
    if k < before.len() {
        law_text_makes_no_mark(s, n - 1, k);
        assert(escaped(s, n)[k] == before[k] && escaped(s, n)[k - 1] == before[k - 1]);
    } else {
        assert(c == '<');
        let start = line_start(s, n - 1);
        let end = text::index_of(s, '\n', n - 1);
        lemma_line_start(s, n - 1);
        text::lemma_index_of(s, '\n', n - 1);
        assert(end > n - 1);
        assert(s.subrange(start, end)[n - 1 - start] == c);
    }
}

/// What stands before the text of a page.
pub open spec fn page_mark(number: int) -> Seq<char> {
    "<!-- page: "@ + text::number(number as nat) + " -->"@
}

/// The first `n` pages.
pub open spec fn pages_text(pages: Seq<PageText>, n: int) -> Seq<char>
    decreases n,
{
    if n <= 0 {
        Seq::empty()
    } else {
        let page = pages[n - 1].text;
        let gap = if n > 1 {
            "\n\n"@
        } else {
            Seq::empty()
        };
        pages_text(pages, n - 1) + gap + page_mark(n) + if page.len() == 0 {
            Seq::empty()
        } else {
            "\n\n"@ + escaped(page, page.len() as int)
        }
    }
}

/// The whole document.
pub open spec fn document(pages: Seq<PageText>) -> Seq<char> {
    pages_text(pages, pages.len() as int) + "\n"@
}

fn run(line: &[char], c: char, from: usize) -> (r: usize)
    requires
        from <= line@.len(),
    ensures
        r == run_end(line@, c, from as int),
        from <= r <= line@.len(),
{
    let mut i: usize = from;
    while i < line.len() && line[i] == c
        invariant
            from <= i <= line@.len(),
            run_end(line@, c, i as int) == run_end(line@, c, from as int),
        decreases line@.len() - i,
    {
        i += 1;
    }
    i
}

fn breaks(line: &[char], i: usize) -> (r: bool)
    ensures
        r == is_break(line@, i as int),
{
    i >= line.len() || is_white_space(line[i])
}

fn begins_heading(line: &[char], k: usize) -> (r: bool)
    requires
        k < line@.len(),
    ensures
        r == is_heading(line@, k as int),
{
    let end = run(line, '#', k);
    line[k] == '#' && end - k <= 6 && breaks(line, end)
}

fn begins_item_or_rule(line: &[char], k: usize) -> (r: bool)
    requires
        k < line@.len(),
    ensures
        r == is_item_or_rule(line@, k as int),
{
    if line[k] != '+' && line[k] != '-' {
        return false;
    }
    assert(line.len() <= usize::MAX);
    if breaks(line, k + 1) {
        return true;
    }
    if line[k] != '-' {
        return false;
    }
    let mut dashes: usize = 0;
    let mut i: usize = k;
    while i < line.len()
        invariant
            k <= i <= line@.len(),
            k < line@.len() <= usize::MAX,
            line@[k as int] == '-',
            !is_break(line@, k + 1),
            dashes <= i - k,
            dashes + count_from(line@, '-', i as int) == count_from(line@, '-', k as int),
            forall|j: int|
                k <= j < i ==> (#[trigger] line@[j] == '-' || line@[j] == ' ' || line@[j] == '\t'),
        decreases line@.len() - i,
    {
        if line[i] == '-' {
            dashes += 1;
        } else if line[i] != ' ' && line[i] != '\t' {
            assert(!(line@[i as int] == '-' || line@[i as int] == ' ' || line@[i as int] == '\t'));
            return false;
        }
        i += 1;
    }
    dashes >= 3
}

fn begins_underline(line: &[char], k: usize) -> (r: bool)
    requires
        k < line@.len(),
    ensures
        r == is_underline(line@, k as int),
{
    if line[k] != '=' && line[k] != '-' {
        return false;
    }
    let from = run(line, line[k], k);
    let mut i: usize = from;
    while i < line.len()
        invariant
            k < line@.len(),
            from == run_end(line@, line@[k as int], k as int),
            from <= i <= line@.len(),
            forall|j: int| from <= j < i ==> (#[trigger] line@[j] == ' ' || line@[j] == '\t'),
        decreases line@.len() - i,
    {
        if line[i] != ' ' && line[i] != '\t' {
            assert(!(line@[i as int] == ' ' || line@[i as int] == '\t'));
            return false;
        }
        i += 1;
    }
    true
}

fn begins_reference(line: &[char], k: usize) -> (r: bool)
    requires
        k < line@.len(),
    ensures
        r == is_reference(line@, k as int),
{
    assert(line.len() <= usize::MAX);
    if line[k] != '&' {
        return false;
    }
    let first: usize = if k + 1 < line.len() && line[k + 1] == '#' {
        k + 2
    } else {
        k + 1
    };
    let mut i: usize = first;
    while i < line.len() && (line[i] >= '0' && line[i] <= '9' || line[i] >= 'a' && line[i] <= 'z'
        || line[i] >= 'A' && line[i] <= 'Z')
        invariant
            first <= i <= line@.len(),
            word_end(line@, i as int) == word_end(line@, first as int),
        decreases line@.len() - i,
    {
        i += 1;
    }
    i > first && i < line.len() && line[i] == ';'
}

fn ends_number(line: &[char], start: usize, k: usize) -> (r: bool)
    requires
        k < line@.len(),
    ensures
        r == is_numbered(line@, start as int, k as int),
{
    if (line[k] != '.' && line[k] != ')') || k <= start || k - start > 9 {
        return false;
    }
    let mut i: usize = start;
    while i < k
        invariant
            start <= i <= k < line@.len(),
            forall|j: int| start <= j < i ==> is_digit(#[trigger] line@[j]),
        decreases k - i,
    {
        if !(line[i] >= '0' && line[i] <= '9') {
            assert(!is_digit(line@[i as int]));
            return false;
        }
        i += 1;
    }
    assert(line.len() <= usize::MAX);
    breaks(line, k + 1)
}

fn could_be_syntax(line: &[char], start: usize, k: usize) -> (r: bool)
    requires
        k < line@.len(),
        start == run_end(line@, ' ', 0),
    ensures
        r == needs_escape(line@, k as int),
{
    let c: char = line[k];
    match c {
        '\\' | '`' | '*' | '_' | '{' | '}' | '[' | ']' | '<' | '>' | '|' | '~' => {
            return true;
        },
        _ => {},
    }
    assert(line.len() <= usize::MAX);
    if c == '!' && k + 1 < line.len() && line[k + 1] == '[' {
        return true;
    }
    if begins_reference(line, k) {
        return true;
    }
    if start > 3 {
        return false;
    }
    if k == start && (begins_heading(line, k) || begins_item_or_rule(line, k) || begins_underline(
        line,
        k,
    )) {
        return true;
    }
    ends_number(line, start, k)
}

/// `r` reports a cancellation, and `stop` has asked for one.
pub open spec fn halted<T, F: Fn() -> bool>(r: Result<T, MarkdownError>, stop: F) -> bool {
    &&& r is Err
    &&& r->Err_0@ == Trouble::Cancelled || r->Err_0@ == Trouble::Pdf(Failure::Cancelled)
    &&& stop.ensures((), true)
}

/// How many characters are written before it is asked whether to stop.
pub const ESCAPE_CHUNK: usize = 8192;

/// Adds a text to `out`, with a backslash before each character that could be
/// taken for syntax.
fn push_escaped<F: Fn() -> bool>(out: &mut String, s: &[char], should_stop: &F) -> (r: Result<
    (),
    MarkdownError,
>)
    requires
        should_stop.requires(()),
    ensures
        halted(r, *should_stop) || (r is Ok && final(out)@ == old(out)@ + escaped(
            s@,
            s@.len() as int,
        )),
{
    if should_stop() {
        return Err(MarkdownError::Cancelled);
    }
    let mut unasked: usize = 0;
    let ghost before = out@;
    let mut from: usize = 0;
    assert(out@ =~= before + escaped(s@, 0));
    assert(s.len() <= usize::MAX);
    while from < s.len()
        invariant
            from <= s@.len() <= usize::MAX,
            unasked < ESCAPE_CHUNK,
            should_stop.requires(()),
            from < s@.len() ==> line_start(s@, from as int) == from,
            out@ == before + escaped(s@, from as int),
        decreases s@.len() - from,
    {
        let end = find_char(s, '\n', from);
        let line = vstd::slice::slice_subrange(s, from, end);
        let start = run(line, ' ', 0);
        let mut k: usize = from;
        while k < end
            invariant
                from <= k <= end <= s@.len(),
                unasked < ESCAPE_CHUNK,
                should_stop.requires(()),
                end == text::index_of(s@, '\n', from as int),
                end == text::index_of(s@, '\n', k as int),
                end < s@.len() ==> s@[end as int] == '\n',
                line_start(s@, k as int) == from,
                line@ == s@.subrange(from as int, end as int),
                start == run_end(line@, ' ', 0),
                out@ == before + escaped(s@, k as int),
            decreases end - k,
        {
            assert(s@[k as int] != '\n');
            let ghost so_far = out@;
            if could_be_syntax(line, start, k - from) {
                out.push('\\');
            }
            out.push(s[k]);
            assert(is_escaped(s@, k as int) == needs_escape(line@, k - from));
            assert(out@ =~= before + escaped(s@, k + 1));
            k += 1;
            unasked += 1;
            if unasked == ESCAPE_CHUNK {
                if should_stop() {
                    return Err(MarkdownError::Cancelled);
                }
                unasked = 0;
            }
        }
        if end < s.len() {
            out.push('\n');
            assert(!is_escaped(s@, end as int));
            assert(out@ =~= before + escaped(s@, end + 1));
            from = end + 1;
        } else {
            from = end;
        }
    }
    if should_stop() {
        return Err(MarkdownError::Cancelled);
    }
    Ok(())
}

/// Facts about a finished export.
#[derive(Debug, Clone, Copy, PartialEq, Eq)]
pub struct MarkdownStats {
    pub page_count: usize,
    pub text_object_count: usize,
    pub output_bytes: u64,
}

/// The bytes of a document, unless they are too many.
pub open spec fn limited(document: Seq<char>, limit: u64) -> Result<Seq<u8>, Trouble> {
    if encode_utf8(document).len() > limit {
        Err(Trouble::OutputTooLarge)
    } else {
        Ok(encode_utf8(document))
    }
}

/// Writes the pages of a document.
pub fn write_document<F: Fn() -> bool>(
    pages: &Vec<TextPage>,
    output_limit: u64,
    should_stop: &F,
) -> (r: Result<Vec<u8>, MarkdownError>)
    requires
        should_stop.requires(()),
    ensures
        halted(r, *should_stop) || match limited(
            document(extract::page_texts(pages@)),
            output_limit,
        ) {
            Err(trouble) => r is Err && r->Err_0@ == trouble,
            Ok(bytes) => r is Ok && r->Ok_0@ == bytes,
        },
{
    let ghost all = extract::page_texts(pages@);
    let mut out = String::new();
    let mut i: usize = 0;
    assert(out@ =~= pages_text(all, 0));
    while i < pages.len()
        invariant
            i <= pages@.len(),
            should_stop.requires(()),
            all == extract::page_texts(pages@),
            out@ == pages_text(all, i as int),
        decreases pages@.len() - i,
    {
        if should_stop() {
            return Err(MarkdownError::Cancelled);
        }
        let ghost before = out@;
        if i > 0 {
            out.push_str("\n\n");
        }
        out.push_str("<!-- page: ");
        push_number(&mut out, i as u64 + 1);
        out.push_str(" -->");
        let chars = chars_of(pages[i].text.as_str());
        assert(all[i as int].text == chars@);
        let ghost marked = out@;
        assert(marked =~= before + (if i > 0 {
            "\n\n"@
        } else {
            Seq::empty()
        }) + page_mark(i + 1));
        if chars.len() > 0 {
            out.push_str("\n\n");
            match push_escaped(&mut out, chars.as_slice(), should_stop) {
                Err(error) => {
                    return Err(error);
                },
                Ok(()) => {},
            }
            assert(out@ =~= marked + ("\n\n"@ + escaped(chars@, chars@.len() as int)));
        }
        i += 1;
        assert(out@ =~= pages_text(all, i as int));
    }
    if should_stop() {
        return Err(MarkdownError::Cancelled);
    }
    out.push_str("\n");
    let bytes: Vec<u8> = vstd::slice::slice_to_vec(out.as_str().as_bytes());
    if bytes.len() as u64 > output_limit {
        return Err(MarkdownError::OutputTooLarge);
    }
    Ok(bytes)
}

/// The Markdown file for a PDF file.
pub open spec fn exported(
    input: Result<Vec<u8>, ControlledReadError>,
    limit: u64,
) -> Result<(extract::Extracted, Seq<u8>), Trouble> {
    match input {
        Err(error) => Err(Trouble::Pdf(extract::read_failure(error@))),
        Ok(bytes) => match extract::text_of(bytes@, Wanted::All) {
            Err(failure) => Err(Trouble::Pdf(failure)),
            Ok(found) => match limited(document(found.pages), limit) {
                Err(trouble) => Err(trouble),
                Ok(output) => Ok((found, output)),
            },
        },
    }
}

/// Writes the text of every page of a PDF file.
pub fn pdf_to_markdown_with_limit<F: Fn() -> bool>(
    input: Result<Vec<u8>, ControlledReadError>,
    output_limit: u64,
    should_stop: &F,
) -> (r: Result<(MarkdownStats, Vec<u8>), MarkdownError>)
    requires
        should_stop.requires(()),
    ensures
        stopping::always(*should_stop) ==> r is Err && r->Err_0@ == Trouble::Cancelled,
        halted(r, *should_stop) || match exported(input, output_limit) {
            Err(trouble) => r is Err && r->Err_0@ == trouble,
            Ok((found, output)) => {
                &&& r is Ok
                &&& r->Ok_0.1@ == output
                &&& r->Ok_0.0.page_count == found.page_count
                &&& r->Ok_0.0.text_object_count == found.count
                &&& r->Ok_0.0.output_bytes == output.len()
            },
        },
{
    if should_stop() {
        return Err(MarkdownError::Cancelled);
    }
    let ask = || -> (b: bool)
        ensures
            should_stop.ensures((), b),
        { should_stop() };
    let extracted = match extract_text_from_path_with_control(input, &PageSelection::All, ask) {
        Err(error) => {
            return Err(MarkdownError::Pdf(error));
        },
        Ok(extracted) => extracted,
    };
    if should_stop() {
        return Err(MarkdownError::Cancelled);
    }
    let output = match write_document(&extracted.pages, output_limit, should_stop) {
        Err(error) => {
            return Err(error);
        },
        Ok(output) => output,
    };
    let stats = MarkdownStats {
        page_count: extracted.page_count,
        text_object_count: extracted.text_object_count,
        output_bytes: output.len() as u64,
    };
    Ok((stats, output))
}

/// Writes the text of every page of a PDF file, up to the usual limit.
pub fn pdf_to_markdown<F: Fn() -> bool>(
    input: Result<Vec<u8>, ControlledReadError>,
    should_stop: &F,
) -> (r: Result<(MarkdownStats, Vec<u8>), MarkdownError>)
    requires
        should_stop.requires(()),
    ensures
        stopping::always(*should_stop) ==> r is Err && r->Err_0@ == Trouble::Cancelled,
        halted(r, *should_stop) || match exported(input, MAX_OUTPUT_BYTES) {
            Err(trouble) => r is Err && r->Err_0@ == trouble,
            Ok((found, output)) => {
                &&& r is Ok
                &&& r->Ok_0.1@ == output
                &&& r->Ok_0.0.page_count == found.page_count
                &&& r->Ok_0.0.text_object_count == found.count
                &&& r->Ok_0.0.output_bytes == output.len()
            },
        },
{
    pdf_to_markdown_with_limit(input, MAX_OUTPUT_BYTES, should_stop)
}

/// What is known of the files of an export.
#[derive(Debug)]
pub struct MarkdownPaths {
    pub input_absolute: bool,
    pub input_extension: Option<String>,
    /// The input is there and a regular file with so many bytes; nothing if it
    /// is not there. Something else went wrong otherwise.
    pub input_found: Result<Option<(bool, u64)>, String>,
    pub output_absolute: bool,
    pub output_extension: Option<String>,
    /// The output goes to a directory that is no symbolic link.
    pub output_parent: bool,
}

pub open spec fn has_extension(extension: Option<String>, name: Seq<char>) -> bool {
    match extension {
        None => false,
        Some(extension) => text::lowered(extension@) == name,
    }
}

/// What is wrong with the files of an export.
pub open spec fn paths_trouble(paths: MarkdownPaths) -> Option<Trouble> {
    if !paths.input_absolute || !has_extension(paths.input_extension, "pdf"@) {
        Some(Trouble::InvalidInputPath)
    } else {
        match paths.input_found {
            Err(message) => Some(Trouble::Pdf(Failure::Io(message@))),
            Ok(None) => Some(Trouble::InvalidInputPath),
            Ok(Some((regular, length))) => if !regular || length == 0 {
                Some(Trouble::InvalidInputPath)
            } else if length > MAX_INPUT_BYTES {
                Some(Trouble::InputTooLarge)
            } else if !paths.output_absolute || !has_extension(paths.output_extension, "md"@)
                || !paths.output_parent {
                Some(Trouble::InvalidOutputPath)
            } else {
                None
            },
        }
    }
}

fn is_extension(extension: &Option<String>, name: &str) -> (r: bool)
    ensures
        r == has_extension(*extension, name@),
{
    match extension {
        None => false,
        Some(extension) => same(to_lower(extension.as_str()).as_str(), name),
    }
}

/// Refuses files that an export must not read or write.
pub fn validate_paths(paths: MarkdownPaths) -> (r: Result<(), MarkdownError>)
    ensures
        match paths_trouble(paths) {
            None => r is Ok,
            Some(trouble) => r is Err && r->Err_0@ == trouble,
        },
{
    if !paths.input_absolute || !is_extension(&paths.input_extension, "pdf") {
        return Err(MarkdownError::InvalidInputPath);
    }
    match paths.input_found {
        Err(message) => {
            return Err(MarkdownError::Pdf(PdfError::Io(message)));
        },
        Ok(None) => {
            return Err(MarkdownError::InvalidInputPath);
        },
        Ok(Some((regular, length))) => {
            if !regular || length == 0 {
                return Err(MarkdownError::InvalidInputPath);
            }
            if length > MAX_INPUT_BYTES {
                return Err(MarkdownError::InputTooLarge);
            }
        },
    }
    if !paths.output_absolute || !is_extension(&paths.output_extension, "md")
        || !paths.output_parent {
        return Err(MarkdownError::InvalidOutputPath);
    }
    Ok(())
}

} // verus!
