//! What is read of the character map that goes with written texts.

use vstd::prelude::*;
use vstd::utf8::*;

use crate::bytes;
use crate::paginate;
use crate::pdf::cmap;
use crate::pdf::cmap::{CmapBudget, Glyphs, Progress};
use crate::pdf::lexer;
use crate::pdf_writer;
use crate::pdf_writer::{code_unit, is_used, used_below, MAP_END, MAP_START};
use crate::read_back::page_text::lemma_parts;
use crate::read_back::tokens;
use crate::table;
use crate::text;

verus! {

/// The two bytes of a code.
pub open spec fn unit_bytes(unit: u16) -> Seq<u8> {
    seq![(unit / 256) as u8, (unit % 256) as u8]
}

/// The line of a map for a code stands at `q`.
spec fn unit_at(b: Seq<u8>, q: int, unit: u16) -> bool {
    let digits = bytes::hex4(unit);
    &&& 0 <= q && q + 14 <= b.len()
    &&& b[q] == 60
    &&& b[q + 1] == digits[0]
    &&& b[q + 2] == digits[1]
    &&& b[q + 3] == digits[2]
    &&& b[q + 4] == digits[3]
    &&& b[q + 5] == 62
    &&& b[q + 6] == 32
    &&& b[q + 7] == 60
    &&& b[q + 8] == digits[0]
    &&& b[q + 9] == digits[1]
    &&& b[q + 10] == digits[2]
    &&& b[q + 11] == digits[3]
    &&& b[q + 12] == 62
    &&& b[q + 13] == 10
}

proof fn lemma_unit_lines(b: Seq<u8>, q: int, group: Seq<u16>, n: int)
    requires
        0 <= n <= group.len(),
        bytes::occurs(b, q, pdf_writer::unit_lines(group, n)),
    ensures
        pdf_writer::unit_lines(group, n).len() == 14 * n,
        forall|k: int| 0 <= k < n ==> unit_at(b, q + 14 * k, #[trigger] group[k]),
    decreases n,
{
    if n > 0 {
        let before = pdf_writer::unit_lines(group, n - 1);
        let unit = group[n - 1];
        let digits = bytes::hex4(unit);
        let s1 = before + encode_utf8("<"@);
        let s2 = s1 + digits;
        let s3 = s2 + encode_utf8("> <"@);
        let s4 = s3 + digits;
        let s5 = s4 + encode_utf8(">\n"@);
        assert(s5 == pdf_writer::unit_lines(group, n));
        lemma_parts(b, q, s4, encode_utf8(">\n"@));
        lemma_parts(b, q, s3, digits);
        lemma_parts(b, q, s2, encode_utf8("> <"@));
        lemma_parts(b, q, s1, digits);
        lemma_parts(b, q, before, encode_utf8("<"@));
        lemma_unit_lines(b, q, group, n - 1);
        reveal_strlit("<");
        reveal_strlit("> <");
        reveal_strlit(">\n");
        let p = q + 14 * (n - 1);
        tokens::lemma_letters(b, p, "<"@);
        assert("<"@[0] == '<');
        tokens::lemma_letters(b, p + 5, "> <"@);
        assert("> <"@[0] == '>' && "> <"@[1] == ' ' && "> <"@[2] == '<');
        tokens::lemma_letters(b, p + 12, ">\n"@);
        assert(">\n"@[0] == '>' && ">\n"@[1] == '\n');
        let one = b.subrange(p + 1, p + 5);
        let two = b.subrange(p + 8, p + 12);
        assert(one[0] == digits[0] && one[1] == digits[1] && one[2] == digits[2] && one[3]
            == digits[3]);
        assert(two[0] == digits[0] && two[1] == digits[1] && two[2] == digits[2] && two[3]
            == digits[3]);
        assert(unit_at(b, p, unit));
    }
}

proof fn lemma_hex_digit(n: int)
    requires
        0 <= n < 16,
    ensures
        lexer::hex_value(bytes::hex_digit(n)) == Some(n as u8),
        bytes::hex_digit(n) != 60,
        bytes::hex_digit(n) != 62,
        bytes::hex_digit(n) != 98,
        bytes::hex_digit(n) != 102,
        !lexer::is_space(bytes::hex_digit(n)),
{
}

proof fn lemma_digits(unit: u16)
    ensures
        forall|k: int| 0 <= k < 4 ==> {
            let digit = #[trigger] bytes::hex4(unit)[k];
            &&& lexer::hex_value(digit) is Some
            &&& digit != 60
            &&& digit != 62
            &&& digit != 98
            &&& digit != 102
            &&& !lexer::is_space(digit)
        },
{
    lemma_hex_digit((unit / 4096) as int);
    lemma_hex_digit(((unit / 256) % 16) as int);
    lemma_hex_digit(((unit / 16) % 16) as int);
    lemma_hex_digit((unit % 16) as int);
}

/// One code in angle brackets.
proof fn lemma_hex_token(b: Seq<u8>, pos: int, q: int, unit: u16, budget: CmapBudget)
    requires
        0 <= pos,
        pos + 1 == q,
        q + 6 <= b.len(),
        b[pos] != 60,
        b[q] == 60,
        b[q + 1] == bytes::hex4(unit)[0],
        b[q + 2] == bytes::hex4(unit)[1],
        b[q + 3] == bytes::hex4(unit)[2],
        b[q + 4] == bytes::hex4(unit)[3],
        b[q + 5] == 62,
        budget.tokens < cmap::MAX_CMAP_TOKENS,
    ensures
        cmap::hex_token(b, pos, budget) == Some(
            (
                Some(unit_bytes(unit)),
                q + 6,
                CmapBudget { tokens: (budget.tokens + 1) as usize, ..budget },
            ),
        ),
{
    lemma_digits(unit);
    let digits = bytes::hex4(unit);
    assert(cmap::seek(b, pos, 60) == q) by {
        reveal_with_fuel(cmap::seek, 2);
    }
    assert(cmap::seek(b, q + 1, 62) == q + 5) by {
        reveal_with_fuel(cmap::seek, 5);
    }
    let s = cmap::solid(b, q + 1, q + 5);
    assert(s =~= digits) by {
        reveal_with_fuel(cmap::solid, 5);
    }
    let values = cmap::hex_values(s);
    lemma_hex_digit((unit / 4096) as int);
    lemma_hex_digit(((unit / 256) % 16) as int);
    lemma_hex_digit(((unit / 16) % 16) as int);
    lemma_hex_digit((unit % 16) as int);
    assert(values[0] == unit / 4096);
    assert(values[1] == (unit / 256) % 16);
    assert(values[2] == (unit / 16) % 16);
    assert(values[3] == unit % 16);
    assert(unit / 4096 * 16 + (unit / 256) % 16 == unit / 256);
    assert((unit / 16) % 16 * 16 + unit % 16 == unit % 256);
    let paired = lexer::pair_up(values);
    assert(paired.len() == 2);
    assert(paired[0] == (values[0] * 16 + values[1]) as u8);
    assert(paired[1] == (values[2] * 16 + values[3]) as u8);
    assert(paired =~= unit_bytes(unit));
}

/// A code stands for a character.
pub open spec fn is_code(unit: u16) -> bool {
    text::scalar(unit as int) is Some
}

pub open spec fn code_char(unit: u16) -> Seq<char> {
    seq![unit as char]
}

/// A key is that of one of the codes.
pub open spec fn is_among(key: Seq<u8>, units: Seq<u16>) -> bool {
    exists|k: int| 0 <= k < units.len() && key == unit_bytes(#[trigger] units[k])
}

/// The map so far shows the codes, and nothing else.
pub open spec fn shows(glyphs: Glyphs, units: Seq<u16>) -> bool {
    &&& table::ascending::<Vec<u8>, Seq<char>>(glyphs.values)
    &&& units.len() > 0 ==> glyphs.width == 2 && glyphs.values.len() > 0
    &&& units.len() == 0 ==> glyphs == cmap::no_glyphs()
    &&& forall|k: int|
        0 <= k < units.len() ==> table::find::<Vec<u8>, Seq<char>>(
            glyphs.values,
            unit_bytes(#[trigger] units[k]),
        ) == Some(code_char(units[k]))
    &&& forall|key: Seq<u8>| #[trigger]
        table::find::<Vec<u8>, Seq<char>>(glyphs.values, key) is Some ==> is_among(key, units)
}

/// What was read so far: `units`, within the limits.
spec fn read(p: Progress, units: Seq<u16>) -> bool {
    &&& shows(p.glyphs, units)
    &&& p.budget.entries == units.len()
    &&& p.budget.tokens == 2 * units.len()
    &&& p.budget.mapping_bytes <= 6 * units.len()
}

proof fn lemma_one_char(c: char)
    ensures
        encode_utf8(seq![c]).len() <= 4,
{
    assert(seq![c].drop_first() =~= Seq::<char>::empty());
    reveal_with_fuel(encode_utf8, 2);
}

proof fn lemma_bytes_differ(a: u16, b: u16)
    requires
        unit_bytes(a) == unit_bytes(b),
    ensures
        a == b,
{
    assert(unit_bytes(a)[0] == unit_bytes(b)[0]);
    assert(unit_bytes(a)[1] == unit_bytes(b)[1]);
    assert((a / 256) as u8 == a / 256 && (b / 256) as u8 == b / 256);
    assert((a % 256) as u8 == a % 256 && (b % 256) as u8 == b % 256);
}

/// One more code is read.
proof fn lemma_inserted(p: Progress, units: Seq<u16>, unit: u16, budget: CmapBudget) -> (r:
    Progress)
    requires
        read(p, units),
        is_code(unit),
        units.len() < cmap::MAX_CMAP_ENTRIES,
        budget == (CmapBudget { tokens: (p.budget.tokens + 2) as usize, ..p.budget }),
    ensures
        cmap::unicode_text(unit_bytes(unit)) == Some(code_char(unit)),
        cmap::inserted(Progress { budget, ..p }, unit_bytes(unit), code_char(unit)) == Some(r),
        read(r, units.push(unit)),
{
    let source = unit_bytes(unit);
    let value = code_char(unit);
    assert(cmap::pair_code(source, 0) == unit) by {
        assert((unit / 256) as u8 == unit / 256);
        assert((unit % 256) as u8 == unit % 256);
    }
    let target = cmap::unicode_text(source);
    assert forall|i: int| 0 <= i < source.len() / 2 implies text::scalar(
        #[trigger] cmap::pair_code(source, i),
    ) is Some by {
        assert(i == 0);
    }
    assert(target is Some);
    assert(target->0 =~= value);
    lemma_one_char(unit as char);
    let r = cmap::inserted(Progress { budget, ..p }, source, value)->0;
    let more = units.push(unit);
    table::law_put_keeps_order::<Vec<u8>, Seq<char>>(p.glyphs.values, source, value);
    table::law_find_after_put::<Vec<u8>, Seq<char>>(p.glyphs.values, source, value, source);
    assert forall|k: int| 0 <= k < more.len() implies table::find::<Vec<u8>, Seq<char>>(
        r.glyphs.values,
        unit_bytes(#[trigger] more[k]),
    ) == Some(code_char(more[k])) by {
        let other = more[k];
        if other != unit {
            if unit_bytes(other) == source {
                lemma_bytes_differ(other, unit);
            }
            table::law_find_after_put::<Vec<u8>, Seq<char>>(
                p.glyphs.values,
                source,
                value,
                unit_bytes(other),
            );
            assert(units[k] == other);
        }
    }
    assert forall|key: Seq<u8>| #[trigger]
        table::find::<Vec<u8>, Seq<char>>(r.glyphs.values, key) is Some implies is_among(
        key,
        more,
    ) by {
        if key == source {
            assert(more[units.len() as int] == unit);
        } else {
            table::law_find_after_put::<Vec<u8>, Seq<char>>(p.glyphs.values, source, value, key);
            let k = choose|k: int| 0 <= k < units.len() && key == unit_bytes(#[trigger] units[k]);
            assert(more[k] == units[k]);
        }
    }
    r
}

/// The codes of a group from `k` on are read.
proof fn lemma_bfchar(
    block: Seq<u8>,
    group: Seq<u16>,
    k: int,
    p: Progress,
    units: Seq<u16>,
) -> (r: Progress)
    requires
        0 <= k <= group.len(),
        block.len() == 14 * group.len() + 1,
        block[0] == 10,
        forall|i: int| 0 <= i < group.len() ==> unit_at(block, 1 + 14 * i, #[trigger] group[i]),
        forall|i: int| 0 <= i < group.len() ==> is_code(#[trigger] group[i]),
        read(p, units),
        units.len() + group.len() - k <= cmap::MAX_CMAP_ENTRIES,
    ensures
        cmap::bfchar(block, 14 * k, p) == Some(r),
        read(r, units + group.skip(k)),
    decreases group.len() - k,
{
    let pos = 14 * k;
    if k > 0 {
        assert(unit_at(block, 1 + 14 * (k - 1), group[k - 1]));
        assert(block[1 + 14 * (k - 1) + 13] == 10);
    }
    assert(block[pos] == 10);
    if k < group.len() {
        let unit = group[k];
        assert(unit_at(block, 1 + 14 * k, unit));
        lemma_hex_token(block, pos, pos + 1, unit, p.budget);
        let b1 = CmapBudget { tokens: (p.budget.tokens + 1) as usize, ..p.budget };
        lemma_hex_token(block, pos + 7, pos + 8, unit, b1);
        let b2 = CmapBudget { tokens: (p.budget.tokens + 2) as usize, ..p.budget };
        let next = lemma_inserted(p, units, unit, b2);
        let r = lemma_bfchar(block, group, k + 1, next, units.push(unit));
        assert(units.push(unit) + group.skip(k + 1) =~= units + group.skip(k));
        r
    } else {
        assert(cmap::seek(block, pos, 60) == block.len()) by {
            reveal_with_fuel(cmap::seek, 2);
        }
        assert(units + group.skip(k) =~= units);
        p
    }
}

/// No `b` is followed by an `f` from `from` up to `to`.
spec fn bare(b: Seq<u8>, from: int, to: int) -> bool {
    forall|i: int| from <= i < to ==> !(#[trigger] b[i] == 98 && b[i + 1] == 102)
}

/// No `f` is followed by an `r`.
spec fn unranged(s: Seq<u8>) -> bool {
    forall|i: int| 0 <= i < s.len() - 1 ==> !(#[trigger] s[i] == 102 && s[i + 1] == 114)
}

proof fn lemma_unranged(a: Seq<u8>, b: Seq<u8>)
    requires
        unranged(a),
        unranged(b),
        a.len() > 0 ==> a.last() != 102,
    ensures
        unranged(a + b),
{
    let s = a + b;
    assert forall|i: int| 0 <= i < s.len() - 1 implies !(#[trigger] s[i] == 102 && s[i + 1]
        == 114) by {
        if i < a.len() - 1 {
            assert(a[i] == s[i] && a[i + 1] == s[i + 1]);
        } else if i >= a.len() {
            assert(b[i - a.len()] == s[i] && b[i - a.len() + 1] == s[i + 1]);
        }
    }
}

proof fn lemma_first(b: Seq<u8>, from: int, word: Seq<u8>, to: int)
    requires
        0 <= from <= to,
        bytes::occurs(b, to, word),
        forall|i: int| from <= i < to ==> !#[trigger] bytes::occurs(b, i, word),
    ensures
        bytes::first_at(b, from, word) == Some(to),
    decreases to - from,
{
    if from < to {
        lemma_first(b, from + 1, word, to);
    }
}

proof fn lemma_absent(b: Seq<u8>, from: int, word: Seq<u8>)
    requires
        0 <= from,
        forall|i: int| from <= i ==> !#[trigger] bytes::occurs(b, i, word),
    ensures
        bytes::first_at(b, from, word) is None,
    decreases b.len() - from + 1,
{
    if from + word.len() <= b.len() {
        lemma_absent(b, from + 1, word);
    }
}

proof fn lemma_words()
    ensures
        cmap::opening(false).len() == 11,
        cmap::closing(false).len() == 9,
        cmap::opening(true).len() == 12,
        cmap::opening(false)[5] == 98,
        cmap::opening(false)[6] == 102,
        cmap::closing(false)[3] == 98,
        cmap::opening(true)[6] == 102,
        cmap::opening(true)[7] == 114,
{
    reveal_strlit("beginbfchar");
    reveal_strlit("endbfchar");
    reveal_strlit("beginbfrange");
    is_ascii_chars_encode_utf8("beginbfchar"@);
    is_ascii_chars_encode_utf8("endbfchar"@);
    is_ascii_chars_encode_utf8("beginbfrange"@);
    assert("beginbfchar"@[5] == 'b' && "beginbfchar"@[6] == 'f');
    assert("endbfchar"@[3] == 'b');
    assert("beginbfrange"@[6] == 'f' && "beginbfrange"@[7] == 'r');
}

/// Where the parts of a group stand.
proof fn lemma_group(b: Seq<u8>, at: int, group: Seq<u16>)
    requires
        bytes::occurs(b, at, pdf_writer::group_text(group)),
    ensures
        ({
            let d = bytes::decimal(group.len()).len();
            let open = at + d + 1;
            let start = open + 11;
            let close = start + 1 + 14 * group.len();
            &&& pdf_writer::group_text(group).len() == d + 23 + 14 * group.len()
            &&& d > 0
            &&& forall|i: int| at <= i < at + d ==> 48 <= #[trigger] b[i] <= 57
            &&& b[at + d] == 32
            &&& bytes::occurs(b, open, cmap::opening(false))
            &&& b[open] == 98 && b[open + 1] == 101 && b[open + 2] == 103 && b[open + 3] == 105
                && b[open + 4] == 110
            &&& b[start] == 10
            &&& forall|i: int|
                0 <= i < group.len() ==> unit_at(b, start + 1 + 14 * i, #[trigger] group[i])
            &&& bytes::occurs(b, close, cmap::closing(false))
            &&& b[close] == 101 && b[close + 1] == 110 && b[close + 2] == 100
            &&& b[close + 9] == 10
            &&& close + 10 <= b.len()
        }),
{
    let n = group.len() as int;
    let digits = bytes::decimal(group.len());
    let lines = pdf_writer::unit_lines(group, n);
    let s = " beginbfchar\n"@;
    let t = "endbfchar\n"@;
    bytes::law_decimal_round_trip(group.len());
    reveal_strlit(" beginbfchar\n");
    reveal_strlit("endbfchar\n");
    reveal_strlit("beginbfchar");
    reveal_strlit("endbfchar");
    let s1 = digits + encode_utf8(s);
    let s2 = s1 + lines;
    lemma_parts(b, at, s2, encode_utf8(t));
    lemma_parts(b, at, s1, lines);
    lemma_parts(b, at, digits, encode_utf8(s));
    let d = digits.len();
    tokens::lemma_letters(b, at + d, s);
    assert forall|i: int| at <= i < at + d implies 48 <= #[trigger] b[i] <= 57 by {
        assert(b.subrange(at, at + d)[i - at] == digits[i - at]);
    }
    let open = at + d + 1;
    assert(s[0] == ' ' && s[1] == 'b' && s[2] == 'e' && s[3] == 'g' && s[4] == 'i' && s[5] == 'n');
    assert(s[6] == 'b' && s[7] == 'f' && s[8] == 'c' && s[9] == 'h' && s[10] == 'a' && s[11] == 'r');
    assert(s[12] == '\n');
    let word = "beginbfchar"@;
    is_ascii_chars_encode_utf8(word);
    assert(s.subrange(1, 12) =~= word);
    assert(b.subrange(open, open + 11) =~= encode_utf8(word)) by {
        assert forall|i: int| 0 <= i < 11 implies b.subrange(open, open + 11)[i] == encode_utf8(
            word,
        )[i] by {
            assert(word[i] == s[i + 1]);
            assert(b[at + d + (i + 1)] == s[i + 1] as u8);
        }
    }
    let start = open + 11;
    lemma_unit_lines(b, start + 1, group, n);
    let close = start + 1 + 14 * n;
    tokens::lemma_letters(b, close, t);
    assert(t[0] == 'e' && t[1] == 'n' && t[2] == 'd' && t[9] == '\n');
    let last = "endbfchar"@;
    is_ascii_chars_encode_utf8(last);
    assert(t.subrange(0, 9) =~= last);
    assert(b.subrange(close, close + 9) =~= encode_utf8(last)) by {
        assert forall|i: int| 0 <= i < 9 implies b.subrange(close, close + 9)[i] == encode_utf8(
            last,
        )[i] by {
            assert(last[i] == t[i]);
            assert(b[close + i] == t[i] as u8);
        }
    }
}

/// The next block begins with the next group.
proof fn lemma_next(b: Seq<u8>, from: int, at: int, group: Seq<u16>)
    requires
        0 <= from <= at,
        bare(b, from, at),
        bytes::occurs(b, at, pdf_writer::group_text(group)),
    ensures
        ({
            let open = at + bytes::decimal(group.len()).len() + 1;
            let start = open + 11;
            let close = start + 1 + 14 * group.len();
            &&& bytes::first_at(b, from, cmap::opening(false)) == Some(open)
            &&& bytes::first_at(b, start, cmap::closing(false)) == Some(close)
        }),
{
    lemma_group(b, at, group);
    lemma_words();
    let d = bytes::decimal(group.len()).len();
    let open = at + d + 1;
    let start = open + 11;
    let close = start + 1 + 14 * group.len();
    let first = cmap::opening(false);
    assert forall|i: int| from <= i < open implies !#[trigger] bytes::occurs(b, i, first) by {
        if bytes::occurs(b, i, first) {
            assert(b.subrange(i, i + 11)[5] == first[5]);
            assert(b.subrange(i, i + 11)[6] == first[6]);
            assert(b[i + 5] == 98 && b[i + 6] == 102);
            if i + 5 < at {
                assert(!(b[i + 5] == 98 && b[i + 5 + 1] == 102));
            }
        }
    }
    lemma_first(b, from, first, open);
    let last = cmap::closing(false);
    assert forall|i: int| start <= i < close implies !#[trigger] bytes::occurs(b, i, last) by {
        if bytes::occurs(b, i, last) {
            assert(b.subrange(i, i + 9)[3] == last[3]);
            assert(b[i + 3] == 98);
            let m = i + 3;
            if m > start && m < close {
                let k = (m - start - 1) / 14;
                let off = (m - start - 1) % 14;
                assert(0 <= k < group.len());
                assert(unit_at(b, start + 1 + 14 * k, group[k]));
                lemma_digits(group[k]);
                assert(m == start + 1 + 14 * k + off);
            }
        }
    }
    lemma_first(b, start, last, close);
}

/// The pieces from `from` on together.
spec fn together(groups: Seq<Seq<u16>>, from: int) -> Seq<u16>
    decreases groups.len() - from,
{
    if 0 <= from < groups.len() {
        groups[from] + together(groups, from + 1)
    } else {
        Seq::empty()
    }
}

/// The next group is read.
proof fn lemma_block(
    b: Seq<u8>,
    from: int,
    here: int,
    group: Seq<u16>,
    p: Progress,
    units: Seq<u16>,
) -> (r: Progress)
    requires
        0 <= from <= here,
        bare(b, from, here),
        bytes::occurs(b, here, pdf_writer::group_text(group)),
        forall|i: int| 0 <= i < group.len() ==> is_code(#[trigger] group[i]),
        read(p, units),
        units.len() + group.len() <= cmap::MAX_CMAP_ENTRIES,
    ensures
        ({
            let after = here + pdf_writer::group_text(group).len();
            &&& cmap::blocks(b, from, false, p) == cmap::blocks(b, after - 1, false, r)
            &&& bare(b, after - 1, after)
            &&& 0 < after
        }),
        read(r, units + group),
{
    lemma_words();
    lemma_group(b, here, group);
    lemma_next(b, from, here, group);
    let start = here + bytes::decimal(group.len()).len() + 12;
    let close = start + 1 + 14 * group.len();
    let block = b.subrange(start, close);
    assert forall|i: int| 0 <= i < group.len() implies unit_at(
        block,
        1 + 14 * i,
        #[trigger] group[i],
    ) by {
        assert(unit_at(b, start + 1 + 14 * i, group[i]));
    }
    let r = lemma_bfchar(block, group, 0, p, units);
    assert(group.skip(0) =~= group);
    assert(close + 9 == here + pdf_writer::group_text(group).len() - 1);
    assert(b[close + 9] == 10);
    r
}

/// No group follows.
proof fn lemma_no_block(b: Seq<u8>, from: int, here: int, p: Progress)
    requires
        0 <= from,
        bare(b, from, here),
        forall|i: int| here <= i < b.len() ==> #[trigger] b[i] != 98,
    ensures
        cmap::blocks(b, from, false, p) == Some(p),
{
    lemma_words();
    let first = cmap::opening(false);
    assert forall|i: int| from <= i implies !#[trigger] bytes::occurs(b, i, first) by {
        if bytes::occurs(b, i, first) {
            assert(b.subrange(i, i + 11)[5] == first[5]);
            assert(b.subrange(i, i + 11)[6] == first[6]);
            assert(b[i + 5] == 98 && b[i + 6] == 102);
            if i + 5 < here {
                assert(!(b[i + 5] == 98 && b[i + 5 + 1] == 102));
            }
        }
    }
    lemma_absent(b, from, first);
}

/// The groups from `k` on are read.
proof fn lemma_blocks(
    b: Seq<u8>,
    from: int,
    at: int,
    groups: Seq<Seq<u16>>,
    k: int,
    p: Progress,
    units: Seq<u16>,
) -> (r: Progress)
    requires
        0 <= k <= groups.len(),
        0 <= from <= at + pdf_writer::group_texts(groups, k).len(),
        0 <= at,
        bytes::occurs(b, at, pdf_writer::group_texts(groups, groups.len() as int)),
        bare(b, from, at + pdf_writer::group_texts(groups, k).len()),
        forall|i: int|
            at + pdf_writer::group_texts(groups, groups.len() as int).len() <= i < b.len()
                ==> #[trigger] b[i] != 98,
        forall|g: int, i: int|
            0 <= g < groups.len() && 0 <= i < groups[g].len() ==> is_code(
                #[trigger] groups[g][i],
            ),
        read(p, units),
        units.len() + together(groups, k).len() <= cmap::MAX_CMAP_ENTRIES,
    ensures
        cmap::blocks(b, from, false, p) == Some(r),
        read(r, units + together(groups, k)),
    decreases groups.len() - k,
{
    let before = pdf_writer::group_texts(groups, k);
    let here = at + before.len();
    if k < groups.len() {
        let group = groups[k];
        let text = pdf_writer::group_text(group);
        lemma_texts(b, at, groups, k + 1, groups.len() as int);
        lemma_parts(b, at, before, text);
        assert(pdf_writer::group_texts(groups, k + 1).len() == before.len() + text.len());
        assert forall|i: int| 0 <= i < group.len() implies is_code(#[trigger] group[i]) by {
            assert(is_code(groups[k][i]));
        }
        let next = lemma_block(b, from, here, group, p, units);
        let r = lemma_blocks(
            b,
            here + text.len() - 1,
            at,
            groups,
            k + 1,
            next,
            units + group,
        );
        assert(units + group + together(groups, k + 1) =~= units + together(groups, k));
        r
    } else {
        lemma_no_block(b, from, here, p);
        assert(units + together(groups, k) =~= units);
        p
    }
}

/// The first groups stand where all of them do.
proof fn lemma_texts(b: Seq<u8>, at: int, groups: Seq<Seq<u16>>, k: int, n: int)
    requires
        0 <= k <= n <= groups.len(),
        bytes::occurs(b, at, pdf_writer::group_texts(groups, n)),
    ensures
        bytes::occurs(b, at, pdf_writer::group_texts(groups, k)),
    decreases n,
{
    if k < n {
        lemma_parts(
            b,
            at,
            pdf_writer::group_texts(groups, n - 1),
            pdf_writer::group_text(groups[n - 1]),
        );
        lemma_texts(b, at, groups, k, n - 1);
    }
}

proof fn lemma_lines_unranged(group: Seq<u16>)
    ensures
        unranged(pdf_writer::unit_lines(group, group.len() as int)),
        group.len() > 0 ==> pdf_writer::unit_lines(group, group.len() as int).last() == 10,
{
    let n = group.len() as int;
    let b = pdf_writer::unit_lines(group, n);
    assert(b.subrange(0, b.len() as int) =~= b);
    lemma_unit_lines(b, 0, group, n);
    assert forall|i: int| 0 <= i < b.len() implies #[trigger] b[i] != 102 by {
        let k = i / 14;
        let off = i % 14;
        assert(0 <= k < group.len());
        assert(unit_at(b, 0 + 14 * k, group[k]));
        lemma_digits(group[k]);
        assert(i == 14 * k + off);
    }
    if n > 0 {
        assert(unit_at(b, 0 + 14 * (n - 1), group[n - 1]));
    }
}

proof fn lemma_words_unranged()
    ensures
        unranged(encode_utf8(" beginbfchar\n"@)),
        unranged(encode_utf8("endbfchar\n"@)),
        encode_utf8(" beginbfchar\n"@).len() == 13,
        encode_utf8("endbfchar\n"@).len() == 10,
        encode_utf8(" beginbfchar\n"@).last() == 10,
        encode_utf8("endbfchar\n"@).last() == 10,
{
    let s = " beginbfchar\n"@;
    let t = "endbfchar\n"@;
    reveal_strlit(" beginbfchar\n");
    reveal_strlit("endbfchar\n");
    is_ascii_chars_encode_utf8(s);
    is_ascii_chars_encode_utf8(t);
    let a = encode_utf8(s);
    let b = encode_utf8(t);
    assert forall|i: int| 0 <= i < a.len() - 1 implies !(#[trigger] a[i] == 102 && a[i + 1]
        == 114) by {
        assert(s[i] as u8 == a[i] && s[i + 1] as u8 == a[i + 1]);
    }
    assert forall|i: int| 0 <= i < b.len() - 1 implies !(#[trigger] b[i] == 102 && b[i + 1]
        == 114) by {
        assert(t[i] as u8 == b[i] && t[i + 1] as u8 == b[i + 1]);
    }
    assert(s[12] as u8 == a[12] && t[9] as u8 == b[9]);
}

proof fn lemma_group_unranged(group: Seq<u16>)
    ensures
        unranged(pdf_writer::group_text(group)),
        pdf_writer::group_text(group).len() > 0,
        pdf_writer::group_text(group).last() == 10,
{
    let digits = bytes::decimal(group.len());
    let lines = pdf_writer::unit_lines(group, group.len() as int);
    let s = encode_utf8(" beginbfchar\n"@);
    let t = encode_utf8("endbfchar\n"@);
    bytes::law_decimal_round_trip(group.len());
    lemma_lines_unranged(group);
    lemma_words_unranged();
    lemma_unranged(digits, s);
    lemma_unranged(digits + s, lines);
    if group.len() == 0 {
        assert(lines =~= Seq::<u8>::empty());
        assert(digits + s + lines =~= digits + s);
    } else {
        lemma_unit_lines_len(group);
    }
    lemma_unranged(digits + s + lines, t);
}

proof fn lemma_unit_lines_len(group: Seq<u16>)
    ensures
        pdf_writer::unit_lines(group, group.len() as int).len() == 14 * group.len(),
{
    let b = pdf_writer::unit_lines(group, group.len() as int);
    assert(b.subrange(0, b.len() as int) =~= b);
    lemma_unit_lines(b, 0, group, group.len() as int);
}

proof fn lemma_texts_unranged(groups: Seq<Seq<u16>>, n: int)
    requires
        0 <= n <= groups.len(),
    ensures
        unranged(pdf_writer::group_texts(groups, n)),
        pdf_writer::group_texts(groups, n).len() > 0 ==> pdf_writer::group_texts(groups, n).last()
            == 10,
    decreases n,
{
    if n > 0 {
        lemma_texts_unranged(groups, n - 1);
        lemma_group_unranged(groups[n - 1]);
        lemma_unranged(
            pdf_writer::group_texts(groups, n - 1),
            pdf_writer::group_text(groups[n - 1]),
        );
    }
}

/// The characters before and behind the groups.
proof fn lemma_frame()
    ensures
        is_ascii_chars(MAP_START@),
        is_ascii_chars(MAP_END@),
        0 < MAP_START@.len() < 1000,
        MAP_END@.len() < 1000,
        MAP_START@.last() == '\n',
        forall|i: int|
            0 <= i < MAP_START@.len() - 1 ==> !(#[trigger] MAP_START@[i] == 'b' && MAP_START@[i + 1]
                == 'f') && !(MAP_START@[i] == 'f' && MAP_START@[i + 1] == 'r'),
        forall|i: int| 0 <= i < MAP_END@.len() ==> #[trigger] MAP_END@[i] != 'b',
        forall|i: int|
            0 <= i < MAP_END@.len() - 1 ==> !(#[trigger] MAP_END@[i] == 'f' && MAP_END@[i + 1]
                == 'r'),
{
    reveal_strlit(
        "/CIDInit /ProcSet findresource begin\n12 dict begin\nbegincmap\n/CIDSystemInfo << /Registry (Adobe) /Ordering (UCS) /Supplement 0 >> def\n/CMapName /Adobe-Identity-UCS def\n/CMapType 2 def\n1 begincodespacerange\n<0000> <FFFF>\nendcodespacerange\n",
    );
    reveal_strlit("endcmap\nCMapName currentdict /CMap defineresource pop\nend\nend");
}

proof fn lemma_together(groups: Seq<Seq<u16>>, k: int)
    requires
        0 <= k <= groups.len(),
    ensures
        together(groups, k) == paginate::concatenated(groups.skip(k)),
    decreases groups.len() - k,
{
    if k < groups.len() {
        lemma_together(groups, k + 1);
        assert(groups.skip(k).skip(1) =~= groups.skip(k + 1));
    }
}

proof fn lemma_piece(s: Seq<u16>, n: int, g: int, i: int)
    requires
        n > 0,
        0 <= g < paginate::chunks(s, n).len(),
        0 <= i < paginate::chunks(s, n)[g].len(),
    ensures
        exists|m: int| 0 <= m < s.len() && #[trigger] s[m] == paginate::chunks(s, n)[g][i],
    decreases s.len(),
{
    let pieces = paginate::chunks(s, n);
    if s.len() <= n {
        assert(pieces[g] == s);
        assert(s[i] == pieces[g][i]);
    } else if g == 0 {
        assert(pieces[0] == s.take(n));
        assert(s[i] == pieces[0][i]);
    } else {
        let rest = paginate::chunks(s.skip(n), n);
        assert(pieces[g] == rest[g - 1]);
        lemma_piece(s.skip(n), n, g - 1, i);
        let m = choose|m: int|
            0 <= m < s.skip(n).len() && #[trigger] s.skip(n)[m] == rest[g - 1][i];
        assert(s[m + n] == pieces[g][i]);
    }
}

proof fn lemma_used(pages: Seq<Seq<char>>, n: int)
    requires
        0 <= n <= 0x10000,
    ensures
        used_below(pages, n).len() <= n,
        forall|k: int|
            0 <= k < used_below(pages, n).len() ==> is_used(
                pages,
                #[trigger] used_below(pages, n)[k] as int,
            ),
        forall|unit: u16|
            unit < n && is_used(pages, unit as int) ==> used_below(pages, n).contains(unit),
    decreases n,
{
    if n > 0 {
        lemma_used(pages, n - 1);
        let before = used_below(pages, n - 1);
        let now = used_below(pages, n);
        assert forall|unit: u16| unit < n && is_used(pages, unit as int) implies now.contains(
            unit,
        ) by {
            if unit == n - 1 {
                assert(now.last() == unit);
            } else {
                let k = before.index_of(unit);
                assert(now[k] == unit);
            }
        }
    }
}

proof fn lemma_code(pages: Seq<Seq<char>>, unit: u16)
    requires
        is_used(pages, unit as int),
    ensures
        is_code(unit),
{
    let (i, k) = choose|i: int, k: int|
        0 <= i < pages.len() && 0 <= k < pages[i].len() && code_unit(#[trigger] pages[i][k])
            == unit as int;
    lemma_scalar(pages[i][k]);
}

proof fn lemma_scalar(c: char)
    ensures
        is_code(code_unit(c)),
{
}

/// A map gives every code of the pages the character that it is of, and holds no
/// other code.
pub open spec fn maps(glyphs: Glyphs, pages: Seq<Seq<char>>) -> bool {
    &&& glyphs.width == 2
    &&& table::ascending::<Vec<u8>, Seq<char>>(glyphs.values)
    &&& forall|unit: u16|
        is_used(pages, unit as int) ==> table::find::<Vec<u8>, Seq<char>>(
            glyphs.values,
            #[trigger] unit_bytes(unit),
        ) == Some(code_char(unit))
    &&& forall|key: Seq<u8>| #[trigger]
        table::find::<Vec<u8>, Seq<char>>(glyphs.values, key) is Some ==> is_code_of(key, pages)
}

/// A key is that of a code of the pages.
pub open spec fn is_code_of(key: Seq<u8>, pages: Seq<Seq<char>>) -> bool {
    exists|unit: u16| is_used(pages, unit as int) && key == #[trigger] unit_bytes(unit)
}

/// The character map of written pages is read as the map of their codes, each two
/// bytes wide, to the characters, with no other entry; pages without characters
/// have none.
pub proof fn law_map_is_read_back(pages: Seq<Seq<char>>)
    ensures
        match cmap::font_map(pdf_writer::unicode_map(pages)) {
            Ok(Some(glyphs)) => maps(glyphs, pages),
            Ok(None) => forall|unit: u16| !is_used(pages, unit as int),
            Err(_) => false,
        },
{
    let b = pdf_writer::unicode_map(pages);
    let used = used_below(pages, 0x10000);
    let size = pdf_writer::GROUP_SIZE as int;
    let groups = paginate::chunks(used, size);
    let body = pdf_writer::group_texts(groups, groups.len() as int);
    let head = encode_utf8(MAP_START@);
    let tail = encode_utf8(MAP_END@);
    lemma_used(pages, 0x10000);
    paginate::law_chunks_lose_nothing(used, size);
    lemma_together(groups, 0);
    assert(groups.skip(0) =~= groups);
    lemma_frame();
    is_ascii_chars_encode_utf8(MAP_START@);
    is_ascii_chars_encode_utf8(MAP_END@);
    assert(b.subrange(0, b.len() as int) =~= b);
    assert(bytes::occurs(b, 0, head + body + tail));
    lemma_parts(b, 0, head + body, tail);
    lemma_parts(b, 0, head, body);
    let at = head.len() as int;
    assert(bare(b, 0, at)) by {
        assert forall|i: int| 0 <= i < at implies !(#[trigger] b[i] == 98 && b[i + 1] == 102) by {
            assert(b[i] == head[i]);
            assert(MAP_START@[i] as u8 == head[i]);
            if i < at - 1 {
                assert(b[i + 1] == head[i + 1]);
                assert(MAP_START@[i + 1] as u8 == head[i + 1]);
            }
        }
    }
    assert forall|i: int| at + body.len() <= i < b.len() implies #[trigger] b[i] != 98 by {
        let m = i - at - body.len();
        assert(b[i] == tail[m]);
        assert(MAP_END@[m] as u8 == tail[m]);
    }
    assert forall|g: int, i: int| 0 <= g < groups.len() && 0 <= i < groups[g].len() implies is_code(
        #[trigger] groups[g][i],
    ) by {
        lemma_piece(used, size, g, i);
        let m = choose|m: int| 0 <= m < used.len() && #[trigger] used[m] == groups[g][i];
        lemma_code(pages, used[m]);
    }
    let none = Seq::<u16>::empty();
    let fresh = Progress { glyphs: cmap::no_glyphs(), budget: cmap::fresh_budget() };
    assert(read(fresh, none));
    assert(pdf_writer::group_texts(groups, 0).len() == 0);
    let p = lemma_blocks(b, 0, at, groups, 0, fresh, none);
    assert(none + together(groups, 0) =~= used);
    lemma_unranged_frame();
    lemma_texts_unranged(groups, groups.len() as int);
    lemma_unranged(head, body);
    lemma_unranged(head + body, tail);
    lemma_words();
    let word = cmap::opening(true);
    assert forall|i: int| 0 <= i implies !#[trigger] bytes::occurs(b, i, word) by {
        if bytes::occurs(b, i, word) {
            assert(b.subrange(i, i + 12)[6] == word[6]);
            assert(b.subrange(i, i + 12)[7] == word[7]);
            assert(b[i + 6] == 102 && b[i + 6 + 1] == 114);
        }
    }
    lemma_absent(b, 0, word);
    assert(cmap::blocks(b, 0, true, p) == Some(p));
    assert forall|unit: u16| is_used(pages, unit as int) implies used.len() > 0
        && table::find::<Vec<u8>, Seq<char>>(p.glyphs.values, #[trigger] unit_bytes(unit)) == Some(
        code_char(unit),
    ) by {
        assert(used.contains(unit));
        let k = used.index_of(unit);
        assert(used[k] == unit);
    }
    assert forall|key: Seq<u8>| #[trigger]
        table::find::<Vec<u8>, Seq<char>>(p.glyphs.values, key) is Some implies is_code_of(
        key,
        pages,
    ) by {
        let k = choose|k: int| 0 <= k < used.len() && key == unit_bytes(#[trigger] used[k]);
        assert(is_used(pages, used[k] as int));
    }
}

proof fn lemma_unranged_frame()
    ensures
        unranged(encode_utf8(MAP_START@)),
        unranged(encode_utf8(MAP_END@)),
        encode_utf8(MAP_START@).len() > 0,
        encode_utf8(MAP_START@).last() == 10,
{
    lemma_frame();
    let head = encode_utf8(MAP_START@);
    let tail = encode_utf8(MAP_END@);
    is_ascii_chars_encode_utf8(MAP_START@);
    is_ascii_chars_encode_utf8(MAP_END@);
    assert forall|i: int| 0 <= i < head.len() - 1 implies !(#[trigger] head[i] == 102 && head[i + 1]
        == 114) by {
        assert(MAP_START@[i] as u8 == head[i]);
        assert(MAP_START@[i + 1] as u8 == head[i + 1]);
    }
    assert forall|i: int| 0 <= i < tail.len() - 1 implies !(#[trigger] tail[i] == 102 && tail[i + 1]
        == 114) by {
        assert(MAP_END@[i] as u8 == tail[i]);
        assert(MAP_END@[i + 1] as u8 == tail[i + 1]);
    }
}

proof fn lemma_few_digits(n: nat)
    requires
        n > 0,
    ensures
        bytes::decimal(n).len() <= n,
    decreases n,
{
    if n >= 10 {
        lemma_few_digits(n / 10);
    }
}

proof fn lemma_texts_size(groups: Seq<Seq<u16>>, n: int)
    requires
        0 <= n <= groups.len(),
        forall|g: int| 0 <= g < groups.len() ==> 0 < (#[trigger] groups[g]).len(),
    ensures
        pdf_writer::group_texts(groups, n).len() + 38 * together(groups, n).len() <= 38 * together(
            groups,
            0,
        ).len(),
    decreases n,
{
    if n > 0 {
        lemma_texts_size(groups, n - 1);
        let group = groups[n - 1];
        lemma_few_digits(group.len());
        lemma_unit_lines_len(group);
        lemma_words_unranged();
        assert(together(groups, n - 1) == group + together(groups, n));
    }
}

/// The character map of written pages is small.
pub proof fn lemma_map_size(pages: Seq<Seq<char>>)
    ensures
        pdf_writer::unicode_map(pages).len() <= 3_000_000,
{
    let used = used_below(pages, 0x10000);
    let size = pdf_writer::GROUP_SIZE as int;
    let groups = paginate::chunks(used, size);
    lemma_used(pages, 0x10000);
    paginate::law_chunks_lose_nothing(used, size);
    lemma_together(groups, 0);
    assert(groups.skip(0) =~= groups);
    lemma_texts_size(groups, groups.len() as int);
    lemma_frame();
    is_ascii_chars_encode_utf8(MAP_START@);
    is_ascii_chars_encode_utf8(MAP_END@);
}

} // verus!
