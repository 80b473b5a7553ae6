//! What is read of the stream that shows a page.

use vstd::prelude::*;
use vstd::utf8::*;

use crate::bytes;
use crate::pdf::cmap::Glyphs;
use crate::pdf::content;
use crate::pdf::content::{Scene, Setting, Shown, Spent};
use crate::pdf::error::Failure;
use crate::pdf::font_text;
use crate::pdf::lexer;
use crate::pdf::lexer::Lexeme;
use crate::pdf::number;
use crate::pdf::value::Datum;
use crate::pdf_writer;
use crate::pdf_writer::{code_unit, glyph, is_plain, run_end, run_start};
use crate::read_back::tokens;
use crate::read_back::tokens::{at, gap, whole};
use crate::table;
use crate::text;

verus! {

/// The two bytes of a character's code.
pub open spec fn code_bytes(c: char) -> Seq<u8> {
    seq![(code_unit(c) / 256) as u8, (code_unit(c) % 256) as u8]
}

/// The fonts of a page show its characters: the Latin font without a map, the
/// other one with a map of two-byte codes.
pub open spec fn fonts_show(fonts: Seq<(Seq<u8>, Glyphs)>, c: char) -> bool {
    is_plain(c) || match table::find::<Vec<u8>, Glyphs>(fonts, encode_utf8("F1"@)) {
        None => false,
        Some(glyphs) => glyphs.width == 2 && table::find::<Vec<u8>, Seq<char>>(
            glyphs.values,
            code_bytes(c),
        ) == Some(seq![c]),
    }
}

/// The fonts show every character of a line.
pub open spec fn line_shows(fonts: Seq<(Seq<u8>, Glyphs)>, line: Seq<char>) -> bool {
    &&& table::find::<Vec<u8>, Glyphs>(fonts, encode_utf8("F2"@)) is None
    &&& forall|k: int| 0 <= k < line.len() ==> fonts_show(fonts, #[trigger] line[k])
}

/// Where the characters from `i` on end that are shown with the same font.
pub open spec fn run_stop(line: Seq<char>, i: int, plain: bool) -> int
    decreases line.len() - i,
{
    if 0 <= i < line.len() && is_plain(line[i]) == plain {
        run_stop(line, i + 1, plain)
    } else {
        i
    }
}

proof fn lemma_run_stop(line: Seq<char>, i: int, plain: bool)
    requires
        0 <= i <= line.len(),
    ensures
        i <= run_stop(line, i, plain) <= line.len(),
        i < line.len() && is_plain(line[i]) == plain ==> i < run_stop(line, i, plain),
        forall|k: int|
            i <= k < run_stop(line, i, plain) ==> is_plain(#[trigger] line[k]) == plain,
        run_stop(line, i, plain) < line.len() ==> is_plain(line[run_stop(line, i, plain)])
            != plain,
    decreases line.len() - i,
{
    if i < line.len() && is_plain(line[i]) == plain {
        lemma_run_stop(line, i + 1, plain);
    }
}

/// What stands for the characters from `i` up to `j`.
pub open spec fn glyphs(line: Seq<char>, i: int, j: int) -> Seq<u8>
    decreases j - i,
{
    if i < j {
        glyph(line[i]) + glyphs(line, i + 1, j)
    } else {
        Seq::empty()
    }
}

proof fn lemma_glyphs(line: Seq<char>, i: int, j: int)
    requires
        i <= j,
    ensures
        glyphs(line, i, j + 1) == glyphs(line, i, j) + glyph(line[j]),
    decreases j - i,
{
    if i < j {
        lemma_glyphs(line, i + 1, j);
        assert(glyph(line[i]) + (glyphs(line, i + 1, j) + glyph(line[j])) =~= (glyph(line[i])
            + glyphs(line, i + 1, j)) + glyph(line[j]));
    } else {
        assert(glyphs(line, i + 1, j + 1) =~= Seq::<u8>::empty());
        assert(glyphs(line, i, j + 1) =~= glyph(line[j]));
        assert(glyphs(line, i, j) =~= Seq::<u8>::empty());
    }
}

/// One run of a line.
pub open spec fn run_text(line: Seq<char>, i: int, j: int) -> Seq<u8> {
    run_start(is_plain(line[i])) + glyphs(line, i, j) + run_end(is_plain(line[i]))
}

/// The runs of a line from `i` on.
pub open spec fn runs_from(line: Seq<char>, i: int) -> Seq<u8>
    decreases line.len() - i,
{
    if 0 <= i < line.len() {
        let j = run_stop(line, i, is_plain(line[i]));
        if i < j <= line.len() {
            run_text(line, i, j) + runs_from(line, j)
        } else {
            Seq::empty()
        }
    } else {
        Seq::empty()
    }
}

/// How many runs a line has from `i` on.
pub open spec fn run_count(line: Seq<char>, i: int) -> int
    decreases line.len() - i,
{
    if 0 <= i < line.len() {
        let j = run_stop(line, i, is_plain(line[i]));
        if i < j <= line.len() {
            1 + run_count(line, j)
        } else {
            0
        }
    } else {
        0
    }
}

/// The runs of a line before `i`, if one ends there.
spec fn closed_line(line: Seq<char>, i: int) -> Seq<u8> {
    if i <= 0 {
        Seq::empty()
    } else {
        pdf_writer::open_line(line, i) + run_end(is_plain(line[i - 1]))
    }
}

proof fn lemma_open_run(line: Seq<char>, i: int, n: int)
    requires
        0 <= i < n <= line.len(),
        forall|k: int| i <= k < n ==> is_plain(#[trigger] line[k]) == is_plain(line[i]),
        i > 0 ==> is_plain(line[i - 1]) != is_plain(line[i]),
    ensures
        pdf_writer::open_line(line, n) == closed_line(line, i) + run_start(is_plain(line[i]))
            + glyphs(line, i, n),
    decreases n,
{
    lemma_glyphs(line, i, n - 1);
    if n == i + 1 {
        assert(glyphs(line, i, i) =~= Seq::<u8>::empty());
        assert(glyphs(line, i, n) =~= glyph(line[i]));
        if i == 0 {
            assert(closed_line(line, 0) + run_start(is_plain(line[0])) + glyph(line[0])
                =~= run_start(is_plain(line[0])) + glyph(line[0]));
        } else {
            assert(pdf_writer::open_line(line, n) == pdf_writer::open_line(line, i)
                + pdf_writer::turn(line[i - 1], line[i]) + glyph(line[i]));
            assert(pdf_writer::open_line(line, i) + (run_end(is_plain(line[i - 1])) + run_start(
                is_plain(line[i]),
            )) + glyph(line[i]) =~= closed_line(line, i) + run_start(is_plain(line[i])) + glyph(
                line[i],
            ));
        }
    } else {
        lemma_open_run(line, i, n - 1);
        assert(is_plain(line[n - 2]) == is_plain(line[n - 1]));
        let before = closed_line(line, i) + run_start(is_plain(line[i]));
        assert(before + glyphs(line, i, n - 1) + Seq::<u8>::empty() + glyph(line[n - 1]) =~= before
            + (glyphs(line, i, n - 1) + glyph(line[n - 1])));
    }
}

/// A line is its runs, one after the other.
proof fn lemma_line_is_runs(line: Seq<char>, i: int)
    requires
        0 <= i <= line.len(),
        0 < i < line.len() ==> is_plain(line[i - 1]) != is_plain(line[i]),
    ensures
        pdf_writer::line_stream(line) == closed_line(line, i) + runs_from(line, i),
    decreases line.len() - i,
{
    if i < line.len() {
        let plain = is_plain(line[i]);
        let j = run_stop(line, i, plain);
        lemma_run_stop(line, i, plain);
        assert(is_plain(line[j - 1]) == plain);
        lemma_open_run(line, i, j);
        lemma_line_is_runs(line, j);
        let a = closed_line(line, i);
        assert(closed_line(line, j) =~= a + run_text(line, i, j));
        assert(closed_line(line, j) + runs_from(line, j) =~= a + (run_text(line, i, j)
            + runs_from(line, j)));
    } else {
        assert(closed_line(line, i) + runs_from(line, i) =~= pdf_writer::line_stream(line));
    }
}

/// The codes of the characters from `i` up to `j` in the Latin font.
spec fn codes(line: Seq<char>, i: int, j: int) -> Seq<u8> {
    Seq::new((j - i) as nat, |k: int| line[i + k] as u8)
}

/// A string in parentheses.
proof fn lemma_literal(b: Seq<u8>, q: int, line: Seq<char>, i: int, j: int, out: Seq<u8>)
    requires
        0 <= i <= j <= line.len(),
        forall|k: int| i <= k < j ==> is_plain(#[trigger] line[k]),
        bytes::occurs(b, q, glyphs(line, i, j)),
        q + glyphs(line, i, j).len() < b.len(),
        b[q + glyphs(line, i, j).len()] == 41,
    ensures
        lexer::literal(b, q, 1, out) == (
            Some(out + codes(line, i, j)),
            q + glyphs(line, i, j).len() + 1,
        ),
    decreases j - i,
{
    if i < j {
        let g = glyph(line[i]);
        let rest = glyphs(line, i + 1, j);
        let all = glyphs(line, i, j);
        assert(is_plain(line[i]));
        assert(all =~= g + rest);
        assert(b.subrange(q, q + all.len())[0] == all[0]);
        assert(b.subrange(q + g.len(), q + g.len() + rest.len()) =~= b.subrange(
            q,
            q + all.len(),
        ).subrange(g.len() as int, all.len() as int));
        assert(all.subrange(g.len() as int, all.len() as int) =~= rest);
        let c = line[i] as u8;
        if g.len() == 2 {
            assert(b.subrange(q, q + all.len())[1] == all[1]);
        }
        lemma_literal(b, q + g.len(), line, i + 1, j, out.push(c));
        assert(out.push(c) + codes(line, i + 1, j) =~= out + codes(line, i, j));
    } else {
        assert(out + codes(line, i, j) =~= out);
    }
}

proof fn lemma_plain_text(line: Seq<char>, i: int, j: int, n: int)
    requires
        0 <= i <= j <= line.len(),
        0 <= n <= j - i,
        forall|k: int| i <= k < j ==> is_plain(#[trigger] line[k]),
    ensures
        font_text::ansi_text(codes(line, i, j), n) == line.subrange(i, i + n),
    decreases n,
{
    if n > 0 {
        lemma_plain_text(line, i, j, n - 1);
        assert(is_plain(line[i + n - 1]));
        let byte = codes(line, i, j)[n - 1];
        assert(byte == line[i + (n - 1)] as u8);
        assert(font_text::ansi(byte) == line[i + n - 1]);
        assert(line.subrange(i, i + n) =~= line.subrange(i, i + n - 1).push(line[i + n - 1]));
    } else {
        assert(line.subrange(i, i + n) =~= Seq::<char>::empty());
    }
}

/// The value of a digit of a character's code.
spec fn nibble(c: char, m: int) -> u8 {
    let unit = code_unit(c);
    if m == 0 {
        (unit / 4096) as u8
    } else if m == 1 {
        ((unit / 256) % 16) as u8
    } else if m == 2 {
        ((unit / 16) % 16) as u8
    } else {
        (unit % 16) as u8
    }
}

spec fn nibbles(line: Seq<char>, i: int, j: int) -> Seq<u8> {
    Seq::new((4 * (j - i)) as nat, |k: int| nibble(line[i + k / 4], k % 4))
}

spec fn pairs(line: Seq<char>, i: int, j: int) -> Seq<u8> {
    Seq::new((2 * (j - i)) as nat, |k: int| code_bytes(line[i + k / 2])[k % 2])
}

proof fn lemma_hex_value(n: int)
    requires
        0 <= n < 16,
    ensures
        lexer::hex_value(bytes::hex_digit(n)) == Some(n as u8),
        bytes::hex_digit(n) != 62,
        !lexer::is_space(bytes::hex_digit(n)),
        bytes::hex_digit(n) != 60,
{
}

/// The digits of a string in angle brackets.
proof fn lemma_hex_digits(b: Seq<u8>, q: int, line: Seq<char>, i: int, j: int, out: Seq<u8>)
    requires
        0 <= i <= j <= line.len(),
        forall|k: int| i <= k < j ==> !is_plain(#[trigger] line[k]),
        bytes::occurs(b, q, glyphs(line, i, j)),
        q + glyphs(line, i, j).len() < b.len(),
        b[q + glyphs(line, i, j).len()] == 62,
    ensures
        lexer::hex_digits(b, q, out) == (
            Some(out + nibbles(line, i, j)),
            q + glyphs(line, i, j).len() + 1,
        ),
        glyphs(line, i, j).len() == 4 * (j - i),
        i < j ==> b[q] != 60,
    decreases j - i,
{
    if i < j {
        let unit = code_unit(line[i]);
        let g = bytes::hex4(unit);
        let rest = glyphs(line, i + 1, j);
        let all = glyphs(line, i, j);
        assert(!is_plain(line[i]));
        assert(all =~= g + rest);
        let w = b.subrange(q, q + all.len());
        assert(w[0] == all[0] && w[1] == all[1] && w[2] == all[2] && w[3] == all[3]);
        assert(b.subrange(q + 4, q + 4 + rest.len()) =~= w.subrange(4, all.len() as int));
        assert(all.subrange(4, all.len() as int) =~= rest);
        let c = line[i];
        lemma_hex_value((unit / 4096) as int);
        lemma_hex_value(((unit / 256) % 16) as int);
        lemma_hex_value(((unit / 16) % 16) as int);
        lemma_hex_value((unit % 16) as int);
        let o1 = out.push(nibble(c, 0));
        let o2 = o1.push(nibble(c, 1));
        let o3 = o2.push(nibble(c, 2));
        let o4 = o3.push(nibble(c, 3));
        assert(lexer::hex_digits(b, q, out) == lexer::hex_digits(b, q + 1, o1));
        assert(lexer::hex_digits(b, q + 1, o1) == lexer::hex_digits(b, q + 2, o2));
        assert(lexer::hex_digits(b, q + 2, o2) == lexer::hex_digits(b, q + 3, o3));
        assert(lexer::hex_digits(b, q + 3, o3) == lexer::hex_digits(b, q + 4, o4));
        lemma_hex_digits(b, q + 4, line, i + 1, j, o4);
        let now = nibbles(line, i, j);
        let later = nibbles(line, i + 1, j);
        assert forall|k: int| 0 <= k < (o4 + later).len() implies (o4 + later)[k] == (out
            + now)[k] by {
            let m = k - out.len();
            if m >= 4 {
                assert(later[m - 4] == nibble(line[i + 1 + (m - 4) / 4], (m - 4) % 4));
                assert(now[m] == nibble(line[i + m / 4], m % 4));
                assert((m - 4) / 4 == m / 4 - 1 && (m - 4) % 4 == m % 4);
            } else if m >= 0 {
                assert(now[m] == nibble(line[i + m / 4], m % 4));
                assert(m / 4 == 0 && m % 4 == m);
            }
        }
        assert(o4 + later =~= out + now);
    } else {
        assert(out + nibbles(line, i, j) =~= out);
    }
}

proof fn lemma_pair_up(line: Seq<char>, i: int, j: int)
    requires
        0 <= i <= j <= line.len(),
    ensures
        lexer::pair_up(nibbles(line, i, j)) == pairs(line, i, j),
{
    let s = nibbles(line, i, j);
    let r = lexer::pair_up(s);
    assert(r.len() == pairs(line, i, j).len());
    assert forall|m: int| 0 <= m < r.len() implies r[m] == pairs(line, i, j)[m] by {
        let c = line[i + m / 2];
        let unit = code_unit(c);
        assert((2 * m) / 4 == m / 2 && (2 * m + 1) / 4 == m / 2);
        assert(s[2 * m] == nibble(c, (2 * m) % 4));
        assert(s[2 * m + 1] == nibble(c, (2 * m + 1) % 4));
        if m % 2 == 0 {
            assert((2 * m) % 4 == 0 && (2 * m + 1) % 4 == 1);
            assert(unit / 4096 * 16 + (unit / 256) % 16 == unit / 256);
        } else {
            assert((2 * m) % 4 == 2 && (2 * m + 1) % 4 == 3);
            assert((unit / 16) % 16 * 16 + unit % 16 == unit % 256);
        }
    }
    assert(r =~= pairs(line, i, j));
}

proof fn lemma_mapped(line: Seq<char>, i: int, j: int, k: int, glyphs: Glyphs)
    requires
        0 <= i <= k <= j <= line.len(),
        glyphs.width == 2,
        forall|m: int|
            i <= m < j ==> table::find::<Vec<u8>, Seq<char>>(
                glyphs.values,
                code_bytes(#[trigger] line[m]),
            ) == Some(seq![line[m]]),
    ensures
        font_text::mapped_text(pairs(line, i, j), 2 * (k - i), glyphs) == line.subrange(k, j),
    decreases j - k,
{
    let b = pairs(line, i, j);
    let p = 2 * (k - i);
    if k < j {
        lemma_mapped(line, i, j, k + 1, glyphs);
        assert(p / 2 == k - i && (p + 1) / 2 == k - i && p % 2 == 0 && (p + 1) % 2 == 1);
        assert(b[p] == code_bytes(line[i + p / 2])[0]);
        assert(b[p + 1] == code_bytes(line[i + (p + 1) / 2])[1]);
        assert(b.subrange(p, p + 2) =~= code_bytes(line[k]));
        assert(line.subrange(k, j) =~= seq![line[k]] + line.subrange(k + 1, j));
    } else {
        assert(line.subrange(k, j) =~= Seq::<char>::empty());
    }
}

/// The operators of a page's stream differ from those that are looked for
/// before them.
proof fn lemma_operators()
    ensures
        "Tf"@ != "BT"@,
        "Tf"@ != "ET"@,
        "Tj"@ != "BT"@,
        "Tj"@ != "ET"@,
        "Tj"@ != "Tf"@,
        "Td"@ != "BT"@,
        "Td"@ != "ET"@,
        "Td"@ != "Tf"@,
        "Td"@ != "Tj"@,
        "Td"@ != "TJ"@,
        "Td"@ != "'"@,
        "Td"@ != "\""@,
        "Td"@ != "T*"@,
        "BT"@ != "Do"@,
        "ET"@ != "BT"@,
{
    reveal_strlit("BT");
    reveal_strlit("ET");
    reveal_strlit("Tf");
    reveal_strlit("Tj");
    reveal_strlit("TJ");
    reveal_strlit("Td");
    reveal_strlit("T*");
    reveal_strlit("Do");
    reveal_strlit("'");
    reveal_strlit("\"");
    assert("Tf"@[0] == 'T' && "Tf"@[1] == 'f');
    assert("Tj"@[0] == 'T' && "Tj"@[1] == 'j');
    assert("TJ"@[1] == 'J');
    assert("T*"@[1] == '*');
    assert("Td"@[0] == 'T' && "Td"@[1] == 'd');
    assert("BT"@[0] == 'B' && "ET"@[0] == 'E' && "Do"@[0] == 'D');
    assert("'"@.len() == 1 && "\""@.len() == 1 && "Td"@.len() == 2);
}

/// One token of a stream.
proof fn lemma_step(
    setting: Setting,
    b: Seq<u8>,
    from: int,
    token: Lexeme,
    to: int,
    scene: Scene,
    spent: Spent,
)
    requires
        0 <= from < to <= b.len(),
        lexer::token_at(b, from) == (Some(token), to),
    ensures
        token matches Lexeme::Keyword(operator) ==> scene.in_text || operator != "Do"@
            ==> content::content(setting, b, at(from), scene, spent) == content::content(
            setting,
            b,
            at(to),
            scene.after(operator, setting.fonts).cleared(),
            spent,
        ),
        token matches Lexeme::Number(n) ==> content::content(setting, b, at(from), scene, spent)
            == content::content(setting, b, at(to), scene.with_operand(Datum::Number(n)), spent),
        token matches Lexeme::Name(n) ==> content::content(setting, b, at(from), scene, spent)
            == content::content(setting, b, at(to), scene.with_operand(Datum::Name(n)), spent),
        token matches Lexeme::LiteralString(s) ==> content::content(
            setting,
            b,
            at(from),
            scene,
            spent,
        ) == content::content(setting, b, at(to), scene.with_operand(Datum::String(s)), spent),
        token matches Lexeme::HexString(s) ==> content::content(setting, b, at(from), scene, spent)
            == content::content(
            setting,
            b,
            at(to),
            scene.with_operand(Datum::HexString(s)),
            spent,
        ),
{
}

pub open spec fn font_name(plain: bool) -> Seq<char> {
    if plain {
        "F2"@
    } else {
        "F1"@
    }
}

/// Text can be shown.
spec fn is_ready(scene: Scene) -> bool {
    &&& scene.in_text
    &&& scene.operands == Seq::<Datum>::empty()
    &&& scene.y matches Some(y) && y.wf()
    &&& 0 <= scene.count <= usize::MAX
}

/// The font is set.
proof fn lemma_font(
    setting: Setting,
    b: Seq<u8>,
    from: int,
    q: int,
    plain: bool,
    scene: Scene,
    spent: Spent,
)
    requires
        gap(b, from, q),
        bytes::occurs(b, q, run_start(plain)),
        is_ready(scene),
    ensures
        run_start(plain).len() == 11,
        b[q + 9] == 10,
        b[q + 10] == if plain {
            40u8
        } else {
            60u8
        },
        content::content(setting, b, at(from), scene, spent) == content::content(
            setting,
            b,
            at(q + 9),
            Scene { font: Some(font_name(plain)), ..scene },
            spent,
        ),
{
    let s = if plain {
        "/F2 11 Tf\n("@
    } else {
        "/F1 11 Tf\n<"@
    };
    reveal_strlit("/F2 11 Tf\n(");
    reveal_strlit("/F1 11 Tf\n<");
    reveal_strlit("F1");
    reveal_strlit("F2");
    reveal_strlit("Tf");
    tokens::lemma_letters(b, q, s);
    assert(s[0] == '/' && s[1] == 'F' && s[3] == ' ' && s[4] == '1' && s[5] == '1' && s[6] == ' ');
    assert(s[7] == 'T' && s[8] == 'f' && s[9] == '\n');
    assert(s[10] == if plain {
        '('
    } else {
        '<'
    });
    let name = font_name(plain);
    assert(s[2] == name[1] && name[0] == 'F');
    reveal_with_fuel(tokens::spells, 3);
    assert(tokens::spells(b, q + 1, name, 2));
    tokens::lemma_name(b, from, q, name);
    assert(b.subrange(q + 4, q + 6) =~= seq![49u8, 49u8]);
    lemma_eleven();
    tokens::lemma_number(b, q + 3, q + 4, q + 6);
    assert("Tf"@[0] == 'T' && "Tf"@[1] == 'f');
    assert(tokens::spells(b, q + 7, "Tf"@, 2));
    tokens::lemma_keyword(b, q + 6, q + 7, "Tf"@);
    lemma_operators();
    let named = scene.with_operand(Datum::Name(name));
    let sized = named.with_operand(Datum::Number(whole(11)));
    lemma_step(setting, b, from, Lexeme::Name(name), q + 3, scene, spent);
    lemma_step(setting, b, q + 3, Lexeme::Number(whole(11)), q + 6, named, spent);
    lemma_step(setting, b, q + 6, Lexeme::Keyword("Tf"@), q + 9, sized, spent);
    let after = Scene { font: Some(name), ..scene };
    assert(sized.after("Tf"@, setting.fonts).cleared() == after);
}

proof fn lemma_eleven()
    ensures
        bytes::decimal_value(seq![49u8, 49u8]) == 11,
        bytes::decimal_value(seq![49u8, 51u8]) == 13,
        bytes::decimal_value(seq![53u8, 52u8]) == 54,
        bytes::decimal_value(seq![55u8, 52u8, 56u8]) == 748,
        bytes::decimal_value(seq![48u8]) == 0,
{
    reveal_with_fuel(bytes::decimal_value, 4);
    assert(seq![49u8, 49u8].drop_last() =~= seq![49u8]);
    assert(seq![49u8, 51u8].drop_last() =~= seq![49u8]);
    assert(seq![53u8, 52u8].drop_last() =~= seq![53u8]);
    assert(seq![55u8, 52u8, 56u8].drop_last() =~= seq![55u8, 52u8]);
    assert(seq![55u8, 52u8].drop_last() =~= seq![55u8]);
    assert(seq![49u8].drop_last() =~= Seq::<u8>::empty());
    assert(seq![53u8].drop_last() =~= Seq::<u8>::empty());
    assert(seq![55u8].drop_last() =~= Seq::<u8>::empty());
    assert(seq![48u8].drop_last() =~= Seq::<u8>::empty());
}

/// The string of a run shows its characters.
proof fn lemma_string(
    setting: Setting,
    b: Seq<u8>,
    q: int,
    line: Seq<char>,
    i: int,
    j: int,
    scene: Scene,
    spent: Spent,
)
    requires
        0 <= i < j <= line.len(),
        forall|k: int| i <= k < j ==> is_plain(#[trigger] line[k]) == is_plain(line[i]),
        line_shows(setting.fonts, line),
        0 < q,
        b[q - 2] == 10,
        b[q - 1] == if is_plain(line[i]) {
            40u8
        } else {
            60u8
        },
        bytes::occurs(b, q, glyphs(line, i, j) + run_end(is_plain(line[i]))),
        is_ready(scene),
        scene.font == Some(font_name(is_plain(line[i]))),
        1 < q,
    ensures
        content::content(setting, b, at(q - 2), scene, spent) == content::content(
            setting,
            b,
            at(q + glyphs(line, i, j).len() + 4),
            scene.showing(line.subrange(i, j)).counting(1),
            spent,
        ),
        run_end(is_plain(line[i])).len() == 5,
        b[q + glyphs(line, i, j).len() + 4] == 10,
{
    let plain = is_plain(line[i]);
    let g = glyphs(line, i, j);
    let tail = if plain {
        ") Tj\n"@
    } else {
        "> Tj\n"@
    };
    reveal_strlit(") Tj\n");
    reveal_strlit("> Tj\n");
    reveal_strlit("Tj");
    let both = g + run_end(plain);
    let e = q + g.len();
    is_ascii_chars_encode_utf8(tail);
    assert(b.subrange(q, e) =~= b.subrange(q, q + both.len()).subrange(0, g.len() as int));
    assert(both.subrange(0, g.len() as int) =~= g);
    assert(b.subrange(e, e + 5) =~= b.subrange(q, q + both.len()).subrange(
        g.len() as int,
        both.len() as int,
    ));
    assert(both.subrange(g.len() as int, both.len() as int) =~= run_end(plain));
    tokens::lemma_letters(b, e, tail);
    assert(tail[1] == ' ' && tail[2] == 'T' && tail[3] == 'j' && tail[4] == '\n');
    assert(tail[0] == if plain {
        ')'
    } else {
        '>'
    });
    tokens::lemma_gap(b, q - 2, q - 1);
    let text = line.subrange(i, j);
    let token = if plain {
        Lexeme::LiteralString(codes(line, i, j))
    } else {
        Lexeme::HexString(pairs(line, i, j))
    };
    if plain {
        lemma_literal(b, q, line, i, j, Seq::empty());
        assert(Seq::<u8>::empty() + codes(line, i, j) =~= codes(line, i, j));
        lemma_plain_text(line, i, j, j - i);
        assert(codes(line, i, j)[0] < 128);
        assert(font_text::plain_text(codes(line, i, j)) == text);
    } else {
        lemma_hex_digits(b, q, line, i, j, Seq::empty());
        assert(Seq::<u8>::empty() + nibbles(line, i, j) =~= nibbles(line, i, j));
        lemma_pair_up(line, i, j);
        assert(fonts_show(setting.fonts, line[i]));
        let map = table::find::<Vec<u8>, Glyphs>(setting.fonts, encode_utf8("F1"@))->0;
        assert forall|m: int| i <= m < j implies table::find::<Vec<u8>, Seq<char>>(
            map.values,
            code_bytes(#[trigger] line[m]),
        ) == Some(seq![line[m]]) by {
            assert(fonts_show(setting.fonts, line[m]));
        }
        lemma_mapped(line, i, j, i, map);
        assert(font_text::font_text(pairs(line, i, j), map) == text);
    }
    reveal(lexer::token_at);
    assert(lexer::token_at(b, q - 2) == (Some(token), e + 1));
    reveal_with_fuel(tokens::spells, 3);
    assert("Tj"@[0] == 'T' && "Tj"@[1] == 'j');
    assert(tokens::spells(b, e + 2, "Tj"@, 2));
    tokens::lemma_keyword(b, e + 1, e + 2, "Tj"@);
    lemma_operators();
    let datum = if plain {
        Datum::String(codes(line, i, j))
    } else {
        Datum::HexString(pairs(line, i, j))
    };
    let held = scene.with_operand(datum);
    lemma_step(setting, b, q - 2, token, e + 1, scene, spent);
    lemma_step(setting, b, e + 1, Lexeme::Keyword("Tj"@), e + 4, held, spent);
    assert(content::string_text(datum, held.glyphs(setting.fonts)) == Some(text));
    let shown = held.showing(text).counting(1);
    assert(held.after("Tj"@, setting.fonts) == shown);
    assert(shown.cleared() == scene.showing(text).counting(1));
}

/// The text before which the next characters of a line are put.
spec fn begun(scene: Scene) -> Seq<char> {
    if scene.last_y is Some && scene.y is Some && content::apart(scene.last_y->0, scene.y->0) {
        content::line_ended(scene.text)
    } else {
        scene.text
    }
}

/// The runs of a line from `i` on are shown.
proof fn lemma_runs(
    setting: Setting,
    b: Seq<u8>,
    from: int,
    q: int,
    line: Seq<char>,
    i: int,
    scene: Scene,
    spent: Spent,
) -> (r: (int, Scene))
    requires
        0 <= i <= line.len(),
        line_shows(setting.fonts, line),
        gap(b, from, q),
        bytes::occurs(b, q, runs_from(line, i)),
        is_ready(scene),
    ensures
        content::content(setting, b, at(from), scene, spent) == content::content(
            setting,
            b,
            at(r.0),
            r.1,
            spent,
        ),
        gap(b, r.0, q + runs_from(line, i).len()),
        is_ready(r.1),
        r.1.y == scene.y,
        i == line.len() ==> r.1 == scene,
        i < line.len() ==> r.1.last_y == scene.y && r.1.text == begun(scene) + line.skip(i),
        r.1.count == content::counted(scene.count, run_count(line, i)),
        0 <= run_count(line, i) <= runs_from(line, i).len(),
    decreases line.len() - i,
{
    if i < line.len() {
        let plain = is_plain(line[i]);
        let j = run_stop(line, i, plain);
        lemma_run_stop(line, i, plain);
        let all = runs_from(line, i);
        let run = run_text(line, i, j);
        let rest = runs_from(line, j);
        let head = run_start(plain);
        let body = glyphs(line, i, j) + run_end(plain);
        assert(all =~= run + rest);
        assert(run =~= head + body);
        lemma_parts(b, q, run, rest);
        lemma_parts(b, q, head, body);
        lemma_font(setting, b, from, q, plain, scene, spent);
        let named = Scene { font: Some(font_name(plain)), ..scene };
        lemma_string(setting, b, q + 11, line, i, j, named, spent);
        let shown = named.showing(line.subrange(i, j)).counting(1);
        let end = q + run.len();
        assert(end - 1 == q + 11 + glyphs(line, i, j).len() + 4);
        assert(shown.y == scene.y && shown.last_y == scene.y);
        assert(shown.text == begun(scene) + line.subrange(i, j));
        let r = lemma_runs(setting, b, end - 1, end, line, j, shown, spent);
        number::lemma_opposites(scene.y->0);
        assert(!content::apart(scene.y->0, scene.y->0));
        assert(begun(shown) == shown.text);
        assert(line.skip(i) =~= line.subrange(i, j) + line.skip(j));
        assert(begun(scene) + line.subrange(i, j) + line.skip(j) =~= begun(scene) + line.skip(i));
        if j == line.len() {
            assert(line.skip(j) =~= Seq::<char>::empty());
        }
        r
    } else {
        (from, scene)
    }
}

/// What stands somewhere in two parts.
pub proof fn lemma_parts(b: Seq<u8>, q: int, first: Seq<u8>, second: Seq<u8>)
    requires
        bytes::occurs(b, q, first + second),
    ensures
        bytes::occurs(b, q, first),
        bytes::occurs(b, q + first.len(), second),
{
    let both = first + second;
    let w = b.subrange(q, q + both.len());
    assert(b.subrange(q, q + first.len()) =~= w.subrange(0, first.len() as int));
    assert(both.subrange(0, first.len() as int) =~= first);
    assert(b.subrange(q + first.len(), q + first.len() + second.len()) =~= w.subrange(
        first.len() as int,
        both.len() as int,
    ));
    assert(both.subrange(first.len() as int, both.len() as int) =~= second);
}

proof fn lemma_line_ended(s: Seq<char>)
    ensures
        content::line_ended(content::line_ended(s)) == content::line_ended(s),
{
    let r = content::line_ended(s);
    lemma_unpadded(s);
    if r.len() > 0 {
        assert(r.last() == '\n');
        assert(content::unpadded(r) == r);
    }
}

proof fn lemma_unpadded(s: Seq<char>)
    ensures
        content::unpadded(content::unpadded(s)) == content::unpadded(s),
        content::unpadded(s).len() > 0 ==> content::unpadded(s).last() != ' ',
    decreases s.len(),
{
    if s.len() > 0 && s.last() == ' ' {
        lemma_unpadded(s.drop_last());
    }
}

/// The text that is read of the first `n` lines of a page: each on a line of
/// its own, without the spaces at its end, and none for an empty line.
pub open spec fn lines_read(lines: Seq<Seq<char>>, n: int) -> Seq<char>
    decreases n,
{
    if n <= 0 {
        Seq::empty()
    } else {
        content::line_ended(lines_read(lines, n - 1)) + lines[n - 1]
    }
}

/// How many runs the first `n` lines have.
pub open spec fn runs_in(lines: Seq<Seq<char>>, n: int) -> int
    decreases n,
{
    if n <= 0 {
        0
    } else {
        runs_in(lines, n - 1) + run_count(lines[n - 1], 0)
    }
}

/// The tokens that begin the next line.
proof fn lemma_down_tokens(b: Seq<u8>, from: int, q: int)
    requires
        gap(b, from, q),
        bytes::occurs(b, q, encode_utf8("0 -13 Td\n"@)),
    ensures
        encode_utf8("0 -13 Td\n"@).len() == 9,
        q + 9 <= b.len(),
        gap(b, q + 8, q + 9),
        lexer::token_at(b, from) == (Some(Lexeme::Number(whole(0))), q + 1),
        lexer::token_at(b, q + 1) == (Some(Lexeme::Number(whole(-13))), q + 5),
        lexer::token_at(b, q + 5) == (Some(Lexeme::Keyword("Td"@)), q + 8),
{
    let s = "0 -13 Td\n"@;
    reveal_strlit("0 -13 Td\n");
    reveal_strlit("Td");
    tokens::lemma_letters(b, q, s);
    assert(s[0] == '0' && s[1] == ' ' && s[2] == '-' && s[3] == '1' && s[4] == '3' && s[5] == ' ');
    assert(s[6] == 'T' && s[7] == 'd' && s[8] == '\n');
    assert(b.subrange(q, q + 1) =~= seq![48u8]);
    lemma_eleven();
    tokens::lemma_number(b, from, q, q + 1);
    let word = b.subrange(q + 2, q + 5);
    assert(word =~= seq![45u8, 49u8, 51u8]);
    assert(word.skip(1) =~= seq![49u8, 51u8]);
    tokens::lemma_whole(seq![49u8, 51u8]);
    tokens::lemma_ascii(word);
    assert(number::number_of(word) == Some(whole(-13))) by {
        reveal(whole);
    }
    tokens::lemma_gap(b, q + 1, q + 2);
    assert(lexer::word_end(b, q + 2) == q + 5) by {
        reveal_with_fuel(lexer::word_end, 4);
    }
    assert(lexer::token_at(b, q + 1) == (Some(Lexeme::Number(whole(-13))), q + 5)) by {
        reveal(lexer::token_at);
    }
    reveal_with_fuel(tokens::spells, 3);
    assert("Td"@[0] == 'T' && "Td"@[1] == 'd');
    assert(tokens::spells(b, q + 6, "Td"@, 2));
    tokens::lemma_keyword(b, q + 5, q + 6, "Td"@);
}

/// The line moves.
proof fn lemma_moved(scene: Scene, x: int, y: int, fonts: Seq<(Seq<u8>, Glyphs)>) -> (r: Scene)
    requires
        scene.in_text,
        scene.operands == Seq::<Datum>::empty(),
        0 <= scene.count <= usize::MAX,
        -1000 <= y <= 1000,
        y != 0,
    ensures
        r == scene.with_operand(Datum::Number(whole(x))).with_operand(
            Datum::Number(whole(y)),
        ).after("Td"@, fonts).cleared(),
        is_ready(r),
        r.text == if scene.y is Some {
            content::line_ended(scene.text)
        } else {
            scene.text
        },
        r.count == scene.count,
{
    lemma_operators();
    let held = scene.with_operand(Datum::Number(whole(x))).with_operand(Datum::Number(whole(y)));
    assert(held.operands.len() == 2);
    assert(held.after("Td"@, fonts) == held.moved());
    reveal(whole);
    number::lemma_above_thousandth(if y < 0 {
        -y
    } else {
        y
    });
    number::lemma_sum_wf(
        match scene.y {
            Some(from) => from,
            None => number::nothing(),
        },
        whole(y),
    );
    held.moved().cleared()
}

/// The next line begins.
proof fn lemma_down(
    setting: Setting,
    b: Seq<u8>,
    from: int,
    q: int,
    scene: Scene,
    spent: Spent,
) -> (r: Scene)
    requires
        gap(b, from, q),
        bytes::occurs(b, q, encode_utf8("0 -13 Td\n"@)),
        is_ready(scene),
    ensures
        encode_utf8("0 -13 Td\n"@).len() == 9,
        gap(b, q + 8, q + 9),
        is_ready(r),
        r.text == content::line_ended(scene.text),
        r.count == scene.count,
        content::content(setting, b, at(from), scene, spent) == content::content(
            setting,
            b,
            at(q + 8),
            r,
            spent,
        ),
{
    lemma_down_tokens(b, from, q);
    let one = scene.with_operand(Datum::Number(whole(0)));
    let two = one.with_operand(Datum::Number(whole(-13)));
    lemma_step(setting, b, from, Lexeme::Number(whole(0)), q + 1, scene, spent);
    lemma_step(setting, b, q + 1, Lexeme::Number(whole(-13)), q + 5, one, spent);
    lemma_step(setting, b, q + 5, Lexeme::Keyword("Td"@), q + 8, two, spent);
    lemma_moved(scene, 0, -13, setting.fonts)
}

/// The first `n` lines are shown.
proof fn lemma_lines(
    setting: Setting,
    b: Seq<u8>,
    from: int,
    q: int,
    lines: Seq<Seq<char>>,
    n: int,
    scene: Scene,
    spent: Spent,
) -> (r: (int, Scene))
    requires
        0 <= n <= lines.len(),
        forall|k: int| 0 <= k < n ==> line_shows(setting.fonts, #[trigger] lines[k]),
        gap(b, from, q),
        bytes::occurs(b, q, pdf_writer::lines_stream(lines, n)),
        is_ready(scene),
        scene.text == Seq::<char>::empty(),
        scene.count == 0,
    ensures
        content::content(setting, b, at(from), scene, spent) == content::content(
            setting,
            b,
            at(r.0),
            r.1,
            spent,
        ),
        gap(b, r.0, q + pdf_writer::lines_stream(lines, n).len()),
        is_ready(r.1),
        r.1.text == lines_read(lines, n),
        r.1.count == content::counted(0, runs_in(lines, n)),
        0 <= runs_in(lines, n) <= pdf_writer::lines_stream(lines, n).len(),
    decreases n,
{
    if n <= 0 {
        (from, scene)
    } else {
        let line = lines[n - 1];
        lemma_line_is_runs(line, 0);
        assert(closed_line(line, 0) + runs_from(line, 0) =~= runs_from(line, 0));
        assert(line.skip(0) =~= line);
        if n == 1 {
            assert(lines_read(lines, 0) =~= Seq::<char>::empty());
            assert(content::line_ended(Seq::<char>::empty()) =~= Seq::<char>::empty());
            assert(lines_read(lines, 1) =~= line);
            assert(runs_in(lines, 0) == 0);
            let r = lemma_runs(setting, b, from, q, line, 0, scene, spent);
            assert(begun(scene) =~= Seq::<char>::empty());
            assert(begun(scene) + line =~= line);
            r
        } else {
            let before = pdf_writer::lines_stream(lines, n - 1);
            let down = encode_utf8("0 -13 Td\n"@);
            lemma_parts(b, q, before + down, pdf_writer::line_stream(line));
            lemma_parts(b, q, before, down);
            let (p, earlier) = lemma_lines(setting, b, from, q, lines, n - 1, scene, spent);
            let at_line = q + before.len();
            let moved = lemma_down(setting, b, p, at_line, earlier, spent);
            lemma_line_ended(earlier.text);
            let r = lemma_runs(
                setting,
                b,
                at_line + 8,
                at_line + 9,
                line,
                0,
                moved,
                spent,
            );
            assert(begun(moved) == moved.text);
            if line.len() == 0 {
                assert(moved.text + line =~= moved.text);
            }
            r
        }
    }
}

/// The text that is read of a page.
pub open spec fn page_read(page: Seq<char>) -> Seq<char> {
    let lines = text::lines_from(page, 0);
    text::trimmed_end(lines_read(lines, lines.len() as int))
}

/// How many strings show a page.
pub open spec fn page_runs(page: Seq<char>) -> int {
    let lines = text::lines_from(page, 0);
    runs_in(lines, lines.len() as int)
}

/// The fonts show every character of a page.
pub open spec fn page_shows(fonts: Seq<(Seq<u8>, Glyphs)>, page: Seq<char>) -> bool {
    &&& table::find::<Vec<u8>, Glyphs>(fonts, encode_utf8("F2"@)) is None
    &&& forall|k: int| 0 <= k < page.len() ==> fonts_show(fonts, #[trigger] page[k])
}

/// The characters of a text's lines are characters of the text.
proof fn lemma_line_chars(page: Seq<char>, from: int, i: int, k: int)
    requires
        0 <= from,
        0 <= i < text::lines_from(page, from).len(),
        0 <= k < text::lines_from(page, from)[i].len(),
    ensures
        exists|m: int|
            0 <= m < page.len() && #[trigger] page[m] == text::lines_from(page, from)[i][k],
    decreases page.len() - from + 1,
{
    let end = text::index_of(page, '\n', from);
    text::lemma_index_of(page, '\n', from);
    let first = text::line_of(page, from, end);
    if i == 0 {
        assert(text::lines_from(page, from)[0] == first);
        assert(page[from + k] == first[k]);
    } else {
        assert(text::lines_from(page, from)[i] == text::lines_from(page, end + 1)[i - 1]);
        lemma_line_chars(page, end + 1, i - 1, k);
    }
}

/// The tokens that begin a page.
proof fn lemma_head_tokens(b: Seq<u8>)
    requires
        bytes::occurs(b, 0, encode_utf8("BT\n54 748 Td\n"@)),
    ensures
        encode_utf8("BT\n54 748 Td\n"@).len() == 13,
        13 <= b.len(),
        gap(b, 12, 13),
        lexer::token_at(b, 0) == (Some(Lexeme::Keyword("BT"@)), 2int),
        lexer::token_at(b, 2) == (Some(Lexeme::Number(whole(54))), 5int),
        lexer::token_at(b, 5) == (Some(Lexeme::Number(whole(748))), 9int),
        lexer::token_at(b, 9) == (Some(Lexeme::Keyword("Td"@)), 12int),
{
    let s = "BT\n54 748 Td\n"@;
    reveal_strlit("BT\n54 748 Td\n");
    reveal_strlit("BT");
    reveal_strlit("Td");
    tokens::lemma_letters(b, 0, s);
    assert(s[0] == 'B' && s[1] == 'T' && s[2] == '\n' && s[3] == '5' && s[4] == '4' && s[5] == ' ');
    assert(s[6] == '7' && s[7] == '4' && s[8] == '8' && s[9] == ' ' && s[10] == 'T' && s[11] == 'd'
        && s[12] == '\n');
    reveal_with_fuel(tokens::spells, 3);
    assert("BT"@[0] == 'B' && "BT"@[1] == 'T');
    assert(tokens::spells(b, 0, "BT"@, 2));
    tokens::lemma_keyword(b, 0, 0, "BT"@);
    lemma_eleven();
    assert(b.subrange(3, 5) =~= seq![53u8, 52u8]);
    tokens::lemma_number(b, 2, 3, 5);
    assert(b.subrange(6, 9) =~= seq![55u8, 52u8, 56u8]);
    tokens::lemma_number(b, 5, 6, 9);
    assert("Td"@[0] == 'T' && "Td"@[1] == 'd');
    assert(tokens::spells(b, 10, "Td"@, 2));
    tokens::lemma_keyword(b, 9, 10, "Td"@);
}

/// A page begins.
proof fn lemma_head(setting: Setting, b: Seq<u8>, spent: Spent) -> (r: Scene)
    requires
        bytes::occurs(b, 0, encode_utf8("BT\n54 748 Td\n"@)),
    ensures
        encode_utf8("BT\n54 748 Td\n"@).len() == 13,
        gap(b, 12, 13),
        is_ready(r),
        r.text == Seq::<char>::empty(),
        r.count == 0,
        content::content(setting, b, at(0), content::blank(), spent) == content::content(
            setting,
            b,
            at(12),
            r,
            spent,
        ),
{
    lemma_head_tokens(b);
    lemma_operators();
    let s0 = content::blank();
    let s1 = s0.after("BT"@, setting.fonts).cleared();
    let s2 = s1.with_operand(Datum::Number(whole(54)));
    let s3 = s2.with_operand(Datum::Number(whole(748)));
    lemma_step(setting, b, 0, Lexeme::Keyword("BT"@), 2, s0, spent);
    lemma_step(setting, b, 2, Lexeme::Number(whole(54)), 5, s1, spent);
    lemma_step(setting, b, 5, Lexeme::Number(whole(748)), 9, s2, spent);
    lemma_step(setting, b, 9, Lexeme::Keyword("Td"@), 12, s3, spent);
    lemma_moved(s1, 54, 748, setting.fonts)
}

/// A page ends.
proof fn lemma_tail(setting: Setting, b: Seq<u8>, from: int, e: int, scene: Scene, spent: Spent)
    requires
        gap(b, from, e),
        bytes::occurs(b, e, encode_utf8("ET"@)),
        e + 2 == b.len(),
        is_ready(scene),
    ensures
        content::content(setting, b, at(from), scene, spent) == Ok::<(Shown, Spent), Failure>(
            (Shown { text: text::trimmed_end(scene.text), count: scene.count }, spent),
        ),
{
    reveal_strlit("ET");
    reveal_with_fuel(tokens::spells, 3);
    tokens::lemma_letters(b, e, "ET"@);
    assert("ET"@[0] == 'E' && "ET"@[1] == 'T');
    assert(tokens::spells(b, e, "ET"@, 2));
    tokens::lemma_keyword(b, from, e, "ET"@);
    lemma_operators();
    lemma_step(setting, b, from, Lexeme::Keyword("ET"@), e + 2, scene, spent);
    assert(lexer::token_at(b, e + 2) == (None::<Lexeme>, e + 2)) by {
        reveal(lexer::token_at);
    }
    let done = scene.after("ET"@, setting.fonts).cleared();
    assert(done.text == scene.text && done.count == scene.count);
}

/// The stream that shows a page is read as the page's text, if its fonts show
/// the page's characters.
pub proof fn law_page_stream_is_read_back(setting: Setting, page: Seq<char>, spent: Spent)
    requires
        page_shows(setting.fonts, page),
    ensures
        content::content(
            setting,
            pdf_writer::page_stream_spec(page),
            content::start(),
            content::blank(),
            spent,
        ) == Ok::<(Shown, Spent), Failure>(
            (
                Shown { text: page_read(page), count: content::counted(0, page_runs(page)) },
                spent,
            ),
        ),
        0 <= page_runs(page) <= pdf_writer::page_stream_spec(page).len(),
{
    let b = pdf_writer::page_stream_spec(page);
    let lines = text::lines_from(page, 0);
    let n = lines.len() as int;
    let body = pdf_writer::lines_stream(lines, n);
    let head = encode_utf8("BT\n54 748 Td\n"@);
    let tail = encode_utf8("ET"@);
    assert(b.subrange(0, b.len() as int) =~= b);
    assert(bytes::occurs(b, 0, head + body + tail));
    lemma_parts(b, 0, head + body, tail);
    lemma_parts(b, 0, head, body);
    let first = lemma_head(setting, b, spent);
    assert forall|k: int| 0 <= k < n implies line_shows(setting.fonts, #[trigger] lines[k]) by {
        assert forall|m: int| 0 <= m < lines[k].len() implies fonts_show(
            setting.fonts,
            #[trigger] lines[k][m],
        ) by {
            lemma_line_chars(page, 0, k, m);
        }
    }
    let (p, last) = lemma_lines(setting, b, 12, 13, lines, n, first, spent);
    reveal_strlit("ET");
    is_ascii_chars_encode_utf8("ET"@);
    lemma_tail(setting, b, p, 13 + body.len() as int, last, spent);
}

proof fn lemma_encoded(a: Seq<char>, b: Seq<char>)
    ensures
        encode_utf8(a + b) == encode_utf8(a) + encode_utf8(b),
    decreases a.len(),
{
    if a.len() == 0 {
        assert(a + b =~= b);
        assert(encode_utf8(a) + encode_utf8(b) =~= encode_utf8(b));
    } else {
        lemma_encoded(a.drop_first(), b);
        assert((a + b).drop_first() =~= a.drop_first() + b);
        assert((a + b)[0] == a[0]);
        assert(encode_utf8(a + b) =~= encode_utf8(a) + encode_utf8(b));
    }
}

proof fn lemma_encoded_push(s: Seq<char>, c: char)
    ensures
        encode_utf8(s.push(c)).len() == encode_utf8(s).len() + encode_scalar(c as u32).len(),
{
    assert(s.push(c) =~= s + seq![c]);
    lemma_encoded(s, seq![c]);
    assert(seq![c].drop_first() =~= Seq::<char>::empty());
    reveal_with_fuel(encode_utf8, 2);
}

/// A character takes no more bytes as UTF-8 than it takes in a stream.
proof fn lemma_glyph_size(c: char)
    requires
        c as int <= 0xffff,
    ensures
        encode_scalar(c as u32).len() <= glyph(c).len(),
{
}

proof fn lemma_open_size(line: Seq<char>, n: int)
    requires
        0 <= n <= line.len(),
        forall|k: int| 0 <= k < line.len() ==> (#[trigger] line[k]) as int <= 0xffff,
    ensures
        encode_utf8(line.take(n)).len() <= pdf_writer::open_line(line, n).len(),
    decreases n,
{
    if n > 0 {
        lemma_open_size(line, n - 1);
        let c = line[n - 1];
        lemma_encoded_push(line.take(n - 1), c);
        assert(line.take(n - 1).push(c) =~= line.take(n));
        lemma_glyph_size(c);
        if n == 1 {
            assert(line.take(0) =~= Seq::<char>::empty());
        }
    } else {
        assert(line.take(n) =~= Seq::<char>::empty());
    }
}

proof fn lemma_unpadded_size(s: Seq<char>)
    ensures
        encode_utf8(content::unpadded(s)).len() <= encode_utf8(s).len(),
    decreases s.len(),
{
    if s.len() > 0 && s.last() == ' ' {
        lemma_unpadded_size(s.drop_last());
        lemma_encoded_push(s.drop_last(), s.last());
        assert(s.drop_last().push(s.last()) =~= s);
    }
}

proof fn lemma_trimmed_size(s: Seq<char>)
    ensures
        encode_utf8(text::trimmed_end(s)).len() <= encode_utf8(s).len(),
    decreases s.len(),
{
    if s.len() > 0 && text::is_white(s.last()) {
        lemma_trimmed_size(s.drop_last());
        lemma_encoded_push(s.drop_last(), s.last());
        assert(s.drop_last().push(s.last()) =~= s);
    }
}

proof fn lemma_ended_size(s: Seq<char>)
    ensures
        encode_utf8(content::line_ended(s)).len() <= encode_utf8(s).len() + 1,
        s.len() == 0 ==> content::line_ended(s).len() == 0,
{
    lemma_unpadded_size(s);
    lemma_encoded_push(content::unpadded(s), '\n');
}

proof fn lemma_lines_size(lines: Seq<Seq<char>>, n: int)
    requires
        0 <= n <= lines.len(),
        forall|i: int, k: int|
            0 <= i < lines.len() && 0 <= k < lines[i].len() ==> (#[trigger] lines[i][k]) as int
                <= 0xffff,
    ensures
        encode_utf8(lines_read(lines, n)).len() <= pdf_writer::lines_stream(lines, n).len(),
    decreases n,
{
    if n > 0 {
        let line = lines[n - 1];
        let before = lines_read(lines, n - 1);
        lemma_lines_size(lines, n - 1);
        lemma_ended_size(before);
        lemma_encoded(content::line_ended(before), line);
        assert forall|k: int| 0 <= k < line.len() implies (#[trigger] line[k]) as int <= 0xffff by {
            assert(lines[n - 1][k] as int <= 0xffff);
        }
        lemma_open_size(line, line.len() as int);
        assert(line.take(line.len() as int) =~= line);
        reveal_strlit("0 -13 Td\n");
        is_ascii_chars_encode_utf8("0 -13 Td\n"@);
        if line.len() == 0 {
            assert(line =~= Seq::<char>::empty());
        }
        if n == 1 {
            assert(before =~= Seq::<char>::empty());
            assert(content::line_ended(before) =~= Seq::<char>::empty());
        }
    }
}

/// The text that is read of a page is no longer than the stream that shows it.
pub proof fn lemma_page_size(page: Seq<char>)
    requires
        !pdf_writer::is_supplementary(page),
    ensures
        encode_utf8(page_read(page)).len() <= pdf_writer::page_stream_spec(page).len(),
{
    let lines = text::lines_from(page, 0);
    let n = lines.len() as int;
    assert forall|i: int, k: int| 0 <= i < lines.len() && 0 <= k < lines[i].len() implies (
    #[trigger] lines[i][k]) as int <= 0xffff by {
        lemma_line_chars(page, 0, i, k);
        let m = choose|m: int| 0 <= m < page.len() && #[trigger] page[m] == lines[i][k];
        assert(!(page[m] as int > 0xffff));
    }
    lemma_lines_size(lines, n);
    lemma_trimmed_size(lines_read(lines, n));
}

} // verus!
