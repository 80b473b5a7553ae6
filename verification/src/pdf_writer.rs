//! Writing texts as PDF files.

use vstd::prelude::*;
use vstd::utf8::*;

use crate::bytes;
use crate::bytes::{append, push_decimal, push_hex4};
use crate::paginate;
use crate::paginate::{paginate_pages, LINES_PER_PAGE};
use crate::pdf_out;
use crate::pdf_out::{Draft, PdfOutput};
use crate::text;
use crate::text::{chars_of, lines_of};

verus! {

/// How writing a text fails.
#[derive(Debug)]
pub enum PdfWriterError {
    Io(String),
    UnsupportedUnicode,
}

impl PdfWriterError {
    pub open spec fn message_spec(self) -> Seq<char> {
        match self {
            PdfWriterError::Io(message) => "Could not write the PDF: "@ + message@,
            PdfWriterError::UnsupportedUnicode =>
                "Text PDF currently does not support Unicode supplementary-plane characters"@,
        }
    }

    /// The sentence that tells a user what went wrong.
    pub fn message(&self) -> (r: String)
        ensures
            r@ == self.message_spec(),
    {
        match self {
            PdfWriterError::Io(message) => {
                let mut text = "Could not write the PDF: ".to_owned();
                text.push_str(message.as_str());
                text
            },
            PdfWriterError::UnsupportedUnicode =>
                "Text PDF currently does not support Unicode supplementary-plane characters".to_owned(),
        }
    }
}

/// The code by which a font shows a character.
pub open spec fn code_unit(c: char) -> u16 {
    if c as int <= 0xffff {
        c as u16
    } else {
        0xfffd
    }
}

fn pdf_code_unit(c: char) -> (r: u16)
    ensures
        r == code_unit(c),
{
    let code: u32 = c as u32;
    if code <= 0xffff {
        code as u16
    } else {
        0xfffd
    }
}

/// `c` is shown with the Latin font.
pub open spec fn is_plain(c: char) -> bool {
    ' ' <= c <= '~'
}

/// What begins to show characters with the Latin font, or with the other one.
pub open spec fn run_start(plain: bool) -> Seq<u8> {
    if plain {
        encode_utf8("/F2 11 Tf\n("@)
    } else {
        encode_utf8("/F1 11 Tf\n<"@)
    }
}

pub open spec fn run_end(plain: bool) -> Seq<u8> {
    if plain {
        encode_utf8(") Tj\n"@)
    } else {
        encode_utf8("> Tj\n"@)
    }
}

/// A character as it stands between `run_start` and `run_end`.
pub open spec fn glyph(c: char) -> Seq<u8> {
    if !is_plain(c) {
        bytes::hex4(code_unit(c))
    } else if c == '(' || c == ')' || c == '\\' {
        seq![0x5cu8, c as u8]
    } else {
        seq![c as u8]
    }
}

/// What stands between two characters of a line.
pub open spec fn turn(before: char, after: char) -> Seq<u8> {
    if is_plain(before) == is_plain(after) {
        Seq::empty()
    } else {
        run_end(is_plain(before)) + run_start(is_plain(after))
    }
}

/// What shows the first `n` characters of a line, still without what ends the
/// last run.
pub open spec fn open_line(line: Seq<char>, n: int) -> Seq<u8>
    decreases n,
{
    if n <= 0 {
        Seq::empty()
    } else if n == 1 {
        run_start(is_plain(line[0])) + glyph(line[0])
    } else {
        open_line(line, n - 1) + turn(line[n - 2], line[n - 1]) + glyph(line[n - 1])
    }
}

/// What shows a line.
pub open spec fn line_stream(line: Seq<char>) -> Seq<u8> {
    if line.len() == 0 {
        Seq::empty()
    } else {
        open_line(line, line.len() as int) + run_end(is_plain(line.last()))
    }
}

/// What shows the first `n` lines.
pub open spec fn lines_stream(lines: Seq<Seq<char>>, n: int) -> Seq<u8>
    decreases n,
{
    if n <= 0 {
        Seq::empty()
    } else if n == 1 {
        line_stream(lines[0])
    } else {
        lines_stream(lines, n - 1) + encode_utf8("0 -13 Td\n"@) + line_stream(lines[n - 1])
    }
}

/// What shows a page.
pub open spec fn page_stream_spec(page: Seq<char>) -> Seq<u8> {
    let lines = text::lines_from(page, 0);
    encode_utf8("BT\n54 748 Td\n"@) + lines_stream(lines, lines.len() as int) + encode_utf8(
        "ET"@,
    )
}

fn push_run_start(out: &mut Vec<u8>, plain: bool)
    ensures
        final(out)@ == old(out)@ + run_start(plain),
{
    if plain {
        append(out, "/F2 11 Tf\n(".as_bytes());
    } else {
        append(out, "/F1 11 Tf\n<".as_bytes());
    }
}

fn push_run_end(out: &mut Vec<u8>, plain: bool)
    ensures
        final(out)@ == old(out)@ + run_end(plain),
{
    if plain {
        append(out, ") Tj\n".as_bytes());
    } else {
        append(out, "> Tj\n".as_bytes());
    }
}

fn push_glyph(out: &mut Vec<u8>, c: char)
    ensures
        final(out)@ == old(out)@ + glyph(c),
{
    let code: u32 = c as u32;
    if code < 0x20 || code > 0x7e {
        push_hex4(out, pdf_code_unit(c));
    } else {
        if c == '(' || c == ')' || c == '\\' {
            out.push(0x5c);
        }
        out.push(code as u8);
        assert(out@ =~= old(out)@ + glyph(c));
    }
}

fn plain_char(c: char) -> (r: bool)
    ensures
        r == is_plain(c),
{
    let code: u32 = c as u32;
    code >= 0x20 && code <= 0x7e
}

fn push_line(out: &mut Vec<u8>, line: &[char])
    ensures
        final(out)@ == old(out)@ + line_stream(line@),
{
    let ghost before = out@;
    let mut i: usize = 0;
    assert(out@ =~= before + open_line(line@, 0));
    while i < line.len()
        invariant
            i <= line@.len(),
            out@ == before + open_line(line@, i as int),
        decreases line@.len() - i,
    {
        let plain = plain_char(line[i]);
        if i == 0 {
            push_run_start(out, plain);
        } else {
            let earlier = plain_char(line[i - 1]);
            if earlier != plain {
                push_run_end(out, earlier);
                push_run_start(out, plain);
            }
        }
        push_glyph(out, line[i]);
        i += 1;
        assert(out@ =~= before + open_line(line@, i as int));
    }
    if line.len() > 0 {
        push_run_end(out, plain_char(line[line.len() - 1]));
    }
    assert(out@ =~= before + line_stream(line@));
}

/// What shows a page.
pub fn page_stream(page: &str) -> (r: Vec<u8>)
    ensures
        r@ == page_stream_spec(page@),
{
    let chars = chars_of(page);
    let lines = lines_of(chars.as_slice());
    let ghost all = text::texts(lines@);
    let mut shown: Vec<u8> = Vec::new();
    let mut i: usize = 0;
    while i < lines.len()
        invariant
            i <= lines@.len(),
            all == text::texts(lines@),
            shown@ == lines_stream(all, i as int),
        decreases lines@.len() - i,
    {
        if i > 0 {
            append(&mut shown, "0 -13 Td\n".as_bytes());
        }
        push_line(&mut shown, lines[i].as_slice());
        assert(all[i as int] == lines@[i as int]@);
        i += 1;
        assert(shown@ =~= lines_stream(all, i as int));
    }
    let mut out: Vec<u8> = Vec::new();
    append(&mut out, "BT\n54 748 Td\n".as_bytes());
    append(&mut out, shown.as_slice());
    append(&mut out, "ET".as_bytes());
    assert(out@ =~= page_stream_spec(page@));
    out
}

/// `unit` stands for a character of a page.
pub open spec fn is_used(pages: Seq<Seq<char>>, unit: int) -> bool {
    exists|i: int, k: int|
        0 <= i < pages.len() && 0 <= k < pages[i].len() && code_unit(#[trigger] pages[i][k])
            == unit
}

/// The codes below `n` that are used, in ascending order.
pub open spec fn used_below(pages: Seq<Seq<char>>, n: int) -> Seq<u16>
    decreases n,
{
    if n <= 0 {
        Seq::empty()
    } else if is_used(pages, n - 1) {
        used_below(pages, n - 1).push((n - 1) as u16)
    } else {
        used_below(pages, n - 1)
    }
}

/// The lines of a map for the first `n` codes of a group.
pub open spec fn unit_lines(group: Seq<u16>, n: int) -> Seq<u8>
    decreases n,
{
    if n <= 0 {
        Seq::empty()
    } else {
        unit_lines(group, n - 1) + encode_utf8("<"@) + bytes::hex4(group[n - 1]) + encode_utf8(
            "> <"@,
        ) + bytes::hex4(group[n - 1]) + encode_utf8(">\n"@)
    }
}

/// A group of codes within a map.
pub open spec fn group_text(group: Seq<u16>) -> Seq<u8> {
    bytes::decimal(group.len()) + encode_utf8(" beginbfchar\n"@) + unit_lines(
        group,
        group.len() as int,
    ) + encode_utf8("endbfchar\n"@)
}

/// The codes in groups, the first `n` of them.
pub open spec fn group_texts(groups: Seq<Seq<u16>>, n: int) -> Seq<u8>
    decreases n,
{
    if n <= 0 {
        Seq::empty()
    } else {
        group_texts(groups, n - 1) + group_text(groups[n - 1])
    }
}

/// How many codes a group of a map has at most.
pub const GROUP_SIZE: usize = 100;

/// The map from codes to characters that a reader needs to find the text.
pub open spec fn unicode_map(pages: Seq<Seq<char>>) -> Seq<u8> {
    let groups = paginate::chunks(used_below(pages, 0x10000), GROUP_SIZE as int);
    encode_utf8(MAP_START@) + group_texts(groups, groups.len() as int) + encode_utf8(MAP_END@)
}

pub const MAP_START: &'static str =
    "/CIDInit /ProcSet findresource begin\n12 dict begin\nbegincmap\n/CIDSystemInfo << /Registry (Adobe) /Ordering (UCS) /Supplement 0 >> def\n/CMapName /Adobe-Identity-UCS def\n/CMapType 2 def\n1 begincodespacerange\n<0000> <FFFF>\nendcodespacerange\n";

pub const MAP_END: &'static str =
    "endcmap\nCMapName currentdict /CMap defineresource pop\nend\nend";

/// The codes of the first `n` pages are marked.
spec fn marked(flags: Seq<bool>, pages: Seq<Seq<char>>, n: int) -> bool {
    forall|unit: int|
        0 <= unit < 0x10000 ==> #[trigger] flags[unit] == is_used(pages.take(n), unit)
}

proof fn lemma_one_more(pages: Seq<Seq<char>>, n: int, unit: int)
    requires
        0 <= n < pages.len(),
    ensures
        is_used(pages.take(n + 1), unit) == (is_used(pages.take(n), unit) || exists|k: int|
            0 <= k < pages[n].len() && code_unit(#[trigger] pages[n][k]) == unit),
{
    let before = pages.take(n);
    let after = pages.take(n + 1);
    if is_used(after, unit) {
        let (i, k) = choose|i: int, k: int|
            0 <= i < after.len() && 0 <= k < after[i].len() && code_unit(#[trigger] after[i][k])
                == unit;
        if i < n {
            assert(before[i][k] == after[i][k]);
        } else {
            assert(pages[n][k] == after[i][k]);
        }
    }
    if is_used(before, unit) {
        let (i, k) = choose|i: int, k: int|
            0 <= i < before.len() && 0 <= k < before[i].len() && code_unit(#[trigger] before[i][k])
                == unit;
        assert(after[i][k] == before[i][k]);
    }
    if exists|k: int| 0 <= k < pages[n].len() && code_unit(#[trigger] pages[n][k]) == unit {
        let k = choose|k: int|
            0 <= k < pages[n].len() && code_unit(#[trigger] pages[n][k]) == unit;
        assert(after[n][k] == pages[n][k]);
    }
}

fn used_units(pages: &[String]) -> (r: Vec<u16>)
    ensures
        r@ == used_below(text::strings(pages@), 0x10000),
{
    let ghost all = text::strings(pages@);
    let mut flags: Vec<bool> = Vec::new();
    let mut unit: usize = 0;
    while unit < 0x10000
        invariant
            unit <= 0x10000,
            flags@.len() == unit,
            forall|u: int| 0 <= u < unit ==> flags@[u] == false,
        decreases 0x10000 - unit,
    {
        flags.push(false);
        unit += 1;
    }
    let mut i: usize = 0;
    while i < pages.len()
        invariant
            i <= pages@.len(),
            all == text::strings(pages@),
            flags@.len() == 0x10000,
            marked(flags@, all, i as int),
        decreases pages@.len() - i,
    {
        let chars = chars_of(pages[i].as_str());
        let ghost page = all[i as int];
        assert(chars@ == page);
        let ghost before = flags@;
        let mut k: usize = 0;
        while k < chars.len()
            invariant
                k <= chars@.len(),
                chars@ == page,
                flags@.len() == 0x10000,
                forall|u: int|
                    0 <= u < 0x10000 ==> #[trigger] flags@[u] == (before[u] || exists|j: int|
                        0 <= j < k && code_unit(#[trigger] page[j]) == u),
            decreases chars@.len() - k,
        {
            let ghost earlier = flags@;
            let unit: u16 = pdf_code_unit(chars[k]);
            flags.set(unit as usize, true);
            assert forall|u: int| 0 <= u < 0x10000 implies #[trigger] flags@[u] == (before[u]
                || exists|j: int| 0 <= j < k + 1 && code_unit(#[trigger] page[j]) == u) by {
                assert(earlier[u] == (before[u] || exists|j: int|
                    0 <= j < k && code_unit(#[trigger] page[j]) == u));
                if u == unit {
                    assert(code_unit(page[k as int]) == u);
                }
            }
            k += 1;
        }
        assert forall|u: int| 0 <= u < 0x10000 implies #[trigger] flags@[u] == is_used(
            all.take(i + 1),
            u,
        ) by {
            lemma_one_more(all, i as int, u);
            assert(before[u] == is_used(all.take(i as int), u));
        }
        i += 1;
    }
    assert(all.take(i as int) =~= all);
    let mut out: Vec<u16> = Vec::new();
    let mut unit: usize = 0;
    while unit < 0x10000
        invariant
            unit <= 0x10000,
            flags@.len() == 0x10000,
            forall|u: int| 0 <= u < 0x10000 ==> #[trigger] flags@[u] == is_used(all, u),
            out@ == used_below(all, unit as int),
        decreases 0x10000 - unit,
    {
        if flags[unit] {
            out.push(unit as u16);
        }
        unit += 1;
    }
    out
}

fn push_group(out: &mut Vec<u8>, group: &[u16])
    ensures
        final(out)@ == old(out)@ + group_text(group@),
{
    let mut lines: Vec<u8> = Vec::new();
    let mut i: usize = 0;
    while i < group.len()
        invariant
            i <= group@.len(),
            lines@ == unit_lines(group@, i as int),
        decreases group@.len() - i,
    {
        append(&mut lines, "<".as_bytes());
        push_hex4(&mut lines, group[i]);
        append(&mut lines, "> <".as_bytes());
        push_hex4(&mut lines, group[i]);
        append(&mut lines, ">\n".as_bytes());
        i += 1;
    }
    let ghost before = out@;
    push_decimal(out, group.len() as u128);
    append(out, " beginbfchar\n".as_bytes());
    append(out, lines.as_slice());
    append(out, "endbfchar\n".as_bytes());
    assert(out@ =~= before + group_text(group@));
}

proof fn lemma_group_texts(groups: Seq<Seq<u16>>, first: Seq<u16>, n: int)
    requires
        0 <= n <= groups.len(),
    ensures
        group_texts(seq![first] + groups, n + 1) == group_text(first) + group_texts(groups, n),
    decreases n,
{
    let all = seq![first] + groups;
    if n == 0 {
        assert(group_texts(all, 0) =~= Seq::<u8>::empty());
        assert(group_texts(all, 1) =~= group_text(first) + group_texts(groups, 0));
    } else {
        lemma_group_texts(groups, first, n - 1);
        assert(all[n] == groups[n - 1]);
        assert(group_texts(all, n + 1) =~= group_text(first) + group_texts(groups, n));
    }
}

/// What the groups of `units` are written as.
spec fn grouped(units: Seq<u16>) -> Seq<u8> {
    let groups = paginate::chunks(units, GROUP_SIZE as int);
    group_texts(groups, groups.len() as int)
}

/// The map from codes to characters that a reader needs to find the text.
pub fn to_unicode_cmap(pages: &[String]) -> (r: Vec<u8>)
    ensures
        r@ == unicode_map(text::strings(pages@)),
{
    let units = used_units(pages);
    let mut body: Vec<u8> = Vec::new();
    let mut from: usize = 0;
    assert(units.len() <= usize::MAX);
    assert(units@.skip(0) =~= units@);
    assert(body@ + grouped(units@.skip(0)) =~= grouped(units@));
    while from < units.len()
        invariant
            from <= units@.len() <= usize::MAX,
            body@ + grouped(units@.skip(from as int)) == grouped(units@),
        decreases units@.len() - from,
    {
        let ghost rest = units@.skip(from as int);
        let end: usize = if units.len() - from <= GROUP_SIZE {
            units.len()
        } else {
            from + GROUP_SIZE
        };
        let group = vstd::slice::slice_subrange(units.as_slice(), from, end);
        let ghost before = body@;
        push_group(&mut body, group);
        proof {
            let next = units@.skip(end as int);
            let groups = paginate::chunks(next, GROUP_SIZE as int);
            lemma_group_texts(groups, group@, groups.len() as int);
            if end == units@.len() {
                assert(group@ =~= rest);
                assert(next =~= Seq::<u16>::empty());
                assert(seq![rest] + groups =~= paginate::chunks(rest, GROUP_SIZE as int));
            } else {
                assert(group@ =~= rest.take(GROUP_SIZE as int));
                assert(next =~= rest.skip(GROUP_SIZE as int));
                assert(seq![group@] + groups =~= paginate::chunks(rest, GROUP_SIZE as int));
            }
            assert(grouped(rest) == group_text(group@) + grouped(next));
            assert(body@ + grouped(next) =~= before + grouped(rest));
        }
        from = end;
    }
    assert(units@.skip(from as int) =~= Seq::<u16>::empty());
    assert(body@ =~= grouped(units@));
    let mut out: Vec<u8> = Vec::new();
    append(&mut out, MAP_START.as_bytes());
    append(&mut out, body.as_slice());
    append(&mut out, MAP_END.as_bytes());
    assert(out@ =~= unicode_map(text::strings(pages@)));
    out
}

/// A stream as the body of an object.
pub open spec fn stream_body(data: Seq<u8>) -> Seq<u8> {
    encode_utf8("<< /Length "@) + bytes::decimal(data.len()) + encode_utf8(" >>\nstream\n"@) + data
        + encode_utf8("\nendstream"@)
}

fn stream_object(data: &[u8]) -> (r: Vec<u8>)
    ensures
        r@ == stream_body(data@),
{
    let mut out: Vec<u8> = Vec::new();
    append(&mut out, "<< /Length ".as_bytes());
    assert(out@ =~= encode_utf8("<< /Length "@));
    push_decimal(&mut out, data.len() as u128);
    append(&mut out, " >>\nstream\n".as_bytes());
    append(&mut out, data);
    append(&mut out, "\nendstream".as_bytes());
    out
}

/// The number of the object of page `index`.
pub open spec fn page_number(index: int) -> int {
    3 + index * 2
}

/// The references to the first `n` pages.
pub open spec fn kids(n: int) -> Seq<u8>
    decreases n,
{
    if n <= 0 {
        Seq::empty()
    } else if n == 1 {
        bytes::decimal(page_number(0) as nat) + encode_utf8(" 0 R"@)
    } else {
        kids(n - 1) + encode_utf8(" "@) + bytes::decimal(page_number(n - 1) as nat) + encode_utf8(
            " 0 R"@,
        )
    }
}

/// The object that lists the pages.
#[verifier::opaque]
pub open spec fn pages_body(count: int) -> Seq<u8> {
    encode_utf8("<< /Type /Pages /Kids ["@) + kids(count) + encode_utf8("] /Count "@)
        + bytes::decimal(count as nat) + encode_utf8(" >>"@)
}

fn pages_object(count: usize) -> (r: Vec<u8>)
    ensures
        r@ == pages_body(count as int),
{
    reveal(pages_body);
    let mut list: Vec<u8> = Vec::new();
    let mut i: usize = 0;
    while i < count
        invariant
            i <= count,
            list@ == kids(i as int),
        decreases count - i,
    {
        if i > 0 {
            append(&mut list, " ".as_bytes());
        }
        push_decimal(&mut list, 3 + i as u128 * 2);
        append(&mut list, " 0 R".as_bytes());
        i += 1;
        assert(list@ =~= kids(i as int));
    }
    let mut out: Vec<u8> = Vec::new();
    append(&mut out, "<< /Type /Pages /Kids [".as_bytes());
    assert(out@ =~= encode_utf8("<< /Type /Pages /Kids ["@));
    append(&mut out, list.as_slice());
    append(&mut out, "] /Count ".as_bytes());
    push_decimal(&mut out, count as u128);
    append(&mut out, " >>".as_bytes());
    out
}

/// The object of page `index` of a file with `count` pages.
#[verifier::opaque]
pub open spec fn page_body(count: int, index: int) -> Seq<u8> {
    encode_utf8(
        "<< /Type /Page /Parent 2 0 R /MediaBox [0 0 612 792] /Resources << /Font << /F1 "@,
    ) + bytes::decimal(page_number(count) as nat) + encode_utf8(" 0 R /F2 "@) + bytes::decimal(
        (page_number(count) + 3) as nat,
    ) + encode_utf8(" 0 R >> >> /Contents "@) + bytes::decimal((page_number(index) + 1) as nat)
        + encode_utf8(" 0 R >>"@)
}

fn page_object(count: usize, index: usize) -> (r: Vec<u8>)
    ensures
        r@ == page_body(count as int, index as int),
{
    reveal(page_body);
    let font: u128 = 3 + count as u128 * 2;
    let mut out: Vec<u8> = Vec::new();
    append(
        &mut out,
        "<< /Type /Page /Parent 2 0 R /MediaBox [0 0 612 792] /Resources << /Font << /F1 ".as_bytes(),
    );
    assert(out@ =~= encode_utf8(
        "<< /Type /Page /Parent 2 0 R /MediaBox [0 0 612 792] /Resources << /Font << /F1 "@,
    ));
    push_decimal(&mut out, font);
    append(&mut out, " 0 R /F2 ".as_bytes());
    push_decimal(&mut out, font + 3);
    append(&mut out, " 0 R >> >> /Contents ".as_bytes());
    push_decimal(&mut out, 3 + index as u128 * 2 + 1);
    append(&mut out, " 0 R >>".as_bytes());
    out
}

/// The object of the font for what is not Latin text.
#[verifier::opaque]
pub open spec fn font_body(count: int) -> Seq<u8> {
    encode_utf8(
        "<< /Type /Font /Subtype /Type0 /BaseFont /STSong-Light /Encoding /UniGB-UCS2-H /DescendantFonts ["@,
    ) + bytes::decimal((page_number(count) + 1) as nat) + encode_utf8(" 0 R] /ToUnicode "@)
        + bytes::decimal((page_number(count) + 2) as nat) + encode_utf8(" 0 R >>"@)
}

fn font_object(count: usize) -> (r: Vec<u8>)
    ensures
        r@ == font_body(count as int),
{
    reveal(font_body);
    let font: u128 = 3 + count as u128 * 2;
    let mut out: Vec<u8> = Vec::new();
    append(
        &mut out,
        "<< /Type /Font /Subtype /Type0 /BaseFont /STSong-Light /Encoding /UniGB-UCS2-H /DescendantFonts [".as_bytes(),
    );
    assert(out@ =~= encode_utf8(
        "<< /Type /Font /Subtype /Type0 /BaseFont /STSong-Light /Encoding /UniGB-UCS2-H /DescendantFonts ["@,
    ));
    push_decimal(&mut out, font + 1);
    append(&mut out, " 0 R] /ToUnicode ".as_bytes());
    push_decimal(&mut out, font + 2);
    append(&mut out, " 0 R >>".as_bytes());
    out
}

/// The first line of a file, and a line of bytes that are no text.
pub open spec fn header() -> Seq<u8> {
    encode_utf8("%PDF-1.7\n%"@) + seq![0xe2u8, 0xe3u8, 0xcfu8, 0xd3u8, 0x0au8]
}

/// A file of which the first `n` pages are written.
pub open spec fn with_pages(pages: Seq<Seq<char>>, n: int) -> Draft
    decreases n,
{
    let count = pages.len() as int;
    if n <= 0 {
        Draft::begun(header()).with_object(
            encode_utf8("<< /Type /Catalog /Pages 2 0 R >>"@),
        ).with_object(pages_body(count))
    } else {
        with_pages(pages, n - 1).with_object(page_body(count, n - 1)).with_object(
            stream_body(page_stream_spec(pages[n - 1])),
        )
    }
}

pub const DESCENDANT_FONT: &'static str =
    "<< /Type /Font /Subtype /CIDFontType0 /BaseFont /STSong-Light /CIDSystemInfo << /Registry (Adobe) /Ordering (GB1) /Supplement 4 >> /DW 1000 >>";

pub const LATIN_FONT: &'static str =
    "<< /Type /Font /Subtype /Type1 /BaseFont /Helvetica /Encoding /WinAnsiEncoding >>";

/// A file with the given pages, before its cross-reference table.
pub open spec fn pages_draft(pages: Seq<Seq<char>>) -> Draft {
    with_pages(pages, pages.len() as int).with_object(font_body(pages.len() as int)).with_object(
        encode_utf8(DESCENDANT_FONT@),
    ).with_object(stream_body(unicode_map(pages))).with_object(encode_utf8(LATIN_FONT@))
}

/// Some character has no code of two bytes.
pub open spec fn is_supplementary(page: Seq<char>) -> bool {
    exists|k: int| 0 <= k < page.len() && (#[trigger] page[k]) as int > 0xffff
}

/// Some page holds a character without a code of two bytes.
pub open spec fn unsupported(pages: Seq<Seq<char>>) -> bool {
    exists|i: int| 0 <= i < pages.len() && is_supplementary(#[trigger] pages[i])
}

fn is_wide(c: char) -> (r: bool)
    ensures
        r == (c as int > 0xffff),
{
    let code: u32 = c as u32;
    code > 0xffff
}

fn has_supplementary(page: &str) -> (r: bool)
    ensures
        r == is_supplementary(page@),
{
    let chars = chars_of(page);
    let mut k: usize = 0;
    while k < chars.len()
        invariant
            k <= chars@.len(),
            chars@ == page@,
            forall|j: int| 0 <= j < k ==> (#[trigger] page@[j]) as int <= 0xffff,
        decreases chars@.len() - k,
    {
        if is_wide(chars[k]) {
            assert(page@[k as int] as int > 0xffff);
            return true;
        }
        k += 1;
    }
    false
}

fn is_unsupported(pages: &[String]) -> (r: bool)
    ensures
        r == unsupported(text::strings(pages@)),
{
    let ghost all = text::strings(pages@);
    let mut i: usize = 0;
    while i < pages.len()
        invariant
            i <= pages@.len(),
            all == text::strings(pages@),
            forall|j: int| 0 <= j < i ==> !is_supplementary(#[trigger] all[j]),
        decreases pages@.len() - i,
    {
        let found = has_supplementary(pages[i].as_str());
        assert(all[i as int] == pages@[i as int]@);
        if found {
            return true;
        }
        i += 1;
    }
    false
}

fn begin(count: usize) -> (r: PdfOutput)
    ensures
        r@ == Draft::begun(header()).with_object(
            encode_utf8("<< /Type /Catalog /Pages 2 0 R >>"@),
        ).with_object(pages_body(count as int)),
{
    let mut head: Vec<u8> = Vec::new();
    append(&mut head, "%PDF-1.7\n%".as_bytes());
    head.push(0xe2);
    head.push(0xe3);
    head.push(0xcf);
    head.push(0xd3);
    head.push(0x0a);
    assert(head@ =~= header());
    let mut pdf = PdfOutput::new(head);
    pdf.object("<< /Type /Catalog /Pages 2 0 R >>".as_bytes());
    let list = pages_object(count);
    pdf.object(list.as_slice());
    pdf
}

fn write_page(pdf: &mut PdfOutput, pages: &[String], index: usize)
    requires
        index < pages@.len(),
        old(pdf)@ == with_pages(text::strings(pages@), index as int),
    ensures
        final(pdf)@ == with_pages(text::strings(pages@), index + 1),
{
    let page = page_object(pages.len(), index);
    pdf.object(page.as_slice());
    let stream = page_stream(pages[index].as_str());
    let content = stream_object(stream.as_slice());
    pdf.object(content.as_slice());
}

/// Writes texts, each on a page of its own.
pub fn write_pages_pdf(pages: &[String]) -> (r: Result<Vec<u8>, PdfWriterError>)
    ensures
        if unsupported(text::strings(pages@)) {
            r matches Err(error) && error is UnsupportedUnicode
        } else {
            r is Ok && r->Ok_0@ == pages_draft(text::strings(pages@)).finished()
        },
{
    if is_unsupported(pages) {
        return Err(PdfWriterError::UnsupportedUnicode);
    }
    let mut pdf = begin(pages.len());
    let mut i: usize = 0;
    while i < pages.len()
        invariant
            i <= pages@.len(),
            pdf@ == with_pages(text::strings(pages@), i as int),
        decreases pages@.len() - i,
    {
        write_page(&mut pdf, pages, i);
        i += 1;
    }
    let font = font_object(pages.len());
    let map = to_unicode_cmap(pages);
    let map = stream_object(map.as_slice());
    pdf.object(font.as_slice());
    pdf.object(DESCENDANT_FONT.as_bytes());
    pdf.object(map.as_slice());
    pdf.object(LATIN_FONT.as_bytes());
    assert(pdf@ == pages_draft(text::strings(pages@)));
    Ok(pdf.finish())
}

/// The file that texts are written as, if their characters have codes of two
/// bytes.
pub open spec fn text_file(texts: Seq<Seq<char>>) -> Option<Seq<u8>> {
    let pages = paginate::paginated(texts, LINES_PER_PAGE as int);
    if unsupported(pages) {
        None
    } else {
        Some(pages_draft(pages).finished())
    }
}

/// Writes texts on as many pages as they take; each begins on a page of its own.
pub fn write_text_pages_pdf(text_pages: &[String]) -> (r: Result<Vec<u8>, PdfWriterError>)
    ensures
        match text_file(text::strings(text_pages@)) {
            None => r matches Err(error) && error is UnsupportedUnicode,
            Some(file) => r is Ok && r->Ok_0@ == file,
        },
{
    let pages = paginate_pages(text_pages, LINES_PER_PAGE);
    write_pages_pdf(pages.as_slice())
}

/// Writes a text on as many pages as it takes.
pub fn write_text_pdf(text: &str) -> (r: Result<Vec<u8>, PdfWriterError>)
    ensures
        match text_file(seq![text@]) {
            None => r matches Err(error) && error is UnsupportedUnicode,
            Some(file) => r is Ok && r->Ok_0@ == file,
        },
{
    let mut pages: Vec<String> = Vec::new();
    pages.push(text.to_owned());
    assert(text::strings(pages@) =~= seq![text@]);
    write_text_pages_pdf(pages.as_slice())
}

/// The objects of a file begin where its cross-reference table says, and its
/// pages are those that its list of pages names.
pub proof fn law_text_file_is_well_formed(pages: Seq<Seq<char>>, n: int)
    requires
        0 <= n <= pages.len(),
    ensures
        with_pages(pages, n).wf(),
        with_pages(pages, n).offsets.len() + 1 == page_number(n),
        pages_draft(pages).wf(),
        pages_draft(pages).offsets.len() == page_number(pages.len() as int) + 3,
{
    lemma_pages(pages, n);
    let count = pages.len() as int;
    lemma_pages(pages, count);
    let a = with_pages(pages, count);
    let b = a.with_object(font_body(count));
    let c = b.with_object(encode_utf8(DESCENDANT_FONT@));
    let d = c.with_object(stream_body(unicode_map(pages)));
    pdf_out::law_draft_keeps_offsets(a, font_body(count));
    pdf_out::law_draft_keeps_offsets(b, encode_utf8(DESCENDANT_FONT@));
    pdf_out::law_draft_keeps_offsets(c, stream_body(unicode_map(pages)));
    pdf_out::law_draft_keeps_offsets(d, encode_utf8(LATIN_FONT@));
}

proof fn lemma_pages(pages: Seq<Seq<char>>, n: int)
    requires
        0 <= n <= pages.len(),
    ensures
        with_pages(pages, n).wf(),
        with_pages(pages, n).offsets.len() + 1 == page_number(n),
    decreases n,
{
    let count = pages.len() as int;
    if n == 0 {
        let a = Draft::begun(header());
        let catalog = encode_utf8("<< /Type /Catalog /Pages 2 0 R >>"@);
        pdf_out::law_draft_keeps_offsets(a, catalog);
        pdf_out::law_draft_keeps_offsets(a.with_object(catalog), pages_body(count));
    } else {
        lemma_pages(pages, n - 1);
        let a = with_pages(pages, n - 1);
        pdf_out::law_draft_keeps_offsets(a, page_body(count, n - 1));
        pdf_out::law_draft_keeps_offsets(
            a.with_object(page_body(count, n - 1)),
            stream_body(page_stream_spec(pages[n - 1])),
        );
    }
}

} // verus!
