//! What the operators of a content stream show.

use vstd::prelude::*;

use crate::pdf::cmap::Glyphs;
use crate::pdf::content;
use crate::pdf::content::Scene;
use crate::pdf::font_text;
use crate::pdf::number;
use crate::pdf::number::PdfNumber;
use crate::pdf::value::Datum;

verus! {

/// How a line of text is shown.
pub enum Line {
    /// One string, with the operator `Tj`.
    One(Seq<u8>),
    /// Several strings with numbers between them, with the operator `TJ`.
    Many(Seq<Seq<u8>>, Seq<PdfNumber>),
}

/// How the next line is reached.
pub enum Turn {
    /// With the operator `T*`.
    Star,
    /// With the operator `Td`, by a distance across and one down.
    Down(PdfNumber, PdfNumber),
    /// With the operator `TD`.
    DownAgain(PdfNumber, PdfNumber),
}

/// What a line says.
pub open spec fn line_text(line: Line) -> Seq<char> {
    match line {
        Line::One(s) => font_text::plain_text(s),
        Line::Many(strings, _) => together(strings),
    }
}

/// The texts of strings, one behind the other.
pub open spec fn together(strings: Seq<Seq<u8>>) -> Seq<char>
    decreases strings.len(),
{
    if strings.len() == 0 {
        Seq::empty()
    } else {
        together(strings.drop_last()) + font_text::plain_text(strings.last())
    }
}

/// The items of an array: a string, a number, a string and so on.
pub open spec fn items(strings: Seq<Seq<u8>>, gaps: Seq<PdfNumber>) -> Seq<Datum>
    decreases strings.len(),
{
    if strings.len() == 0 {
        Seq::empty()
    } else {
        items(strings.drop_last(), gaps).push(Datum::String(strings.last())).push(
            Datum::Number(gaps[strings.len() - 1]),
        )
    }
}

/// An operator with its operands.
pub open spec fn done(
    scene: Scene,
    operands: Seq<Datum>,
    operator: Seq<char>,
    fonts: Seq<(Seq<u8>, Glyphs)>,
) -> Scene {
    Scene { operands, ..scene }.after(operator, fonts).cleared()
}

/// A line is shown.
pub open spec fn shown(scene: Scene, line: Line, fonts: Seq<(Seq<u8>, Glyphs)>) -> Scene {
    match line {
        Line::One(s) => done(scene, seq![Datum::String(s)], "Tj"@, fonts),
        Line::Many(strings, gaps) => done(
            scene,
            seq![Datum::Array(items(strings, gaps))],
            "TJ"@,
            fonts,
        ),
    }
}

/// The next line is reached.
pub open spec fn turned(scene: Scene, turn: Turn, fonts: Seq<(Seq<u8>, Glyphs)>) -> Scene {
    match turn {
        Turn::Star => done(scene, Seq::empty(), "T*"@, fonts),
        Turn::Down(x, y) => done(scene, seq![Datum::Number(x), Datum::Number(y)], "Td"@, fonts),
        Turn::DownAgain(x, y) => done(scene, seq![Datum::Number(x), Datum::Number(y)], "TD"@, fonts),
    }
}

/// The first `n` lines with what leads from each to the next.
pub open spec fn shown_all(
    scene: Scene,
    lines: Seq<Line>,
    turns: Seq<Turn>,
    n: int,
    fonts: Seq<(Seq<u8>, Glyphs)>,
) -> Scene
    decreases n,
{
    if n <= 0 {
        scene
    } else if n == 1 {
        shown(scene, lines[0], fonts)
    } else {
        shown(
            turned(shown_all(scene, lines, turns, n - 1, fonts), turns[n - 2], fonts),
            lines[n - 1],
            fonts,
        )
    }
}

/// The texts of the first `n` lines with line feeds between them.
pub open spec fn lined(lines: Seq<Line>, n: int) -> Seq<char>
    decreases n,
{
    if n <= 0 {
        Seq::empty()
    } else if n == 1 {
        line_text(lines[0])
    } else {
        lined(lines, n - 1) + seq!['\n'] + line_text(lines[n - 1])
    }
}

/// A line that says something and does not end with a space or a line feed.
pub open spec fn is_line(line: Line) -> bool {
    let s = line_text(line);
    &&& s.len() > 0
    &&& s.last() != ' '
    &&& s.last() != '\n'
    &&& line matches Line::Many(strings, gaps) ==> gaps.len() >= strings.len()
}

/// A turn that goes down, by more than a thousandth of a point.
pub open spec fn is_turn(turn: Turn) -> bool {
    match turn {
        Turn::Star => true,
        Turn::Down(_, y) | Turn::DownAgain(_, y) => y.exceeds_spec(number::thousandth()),
    }
}

proof fn reveal_operators()
    ensures
        "BT"@.len() == 2 && "BT"@[0] == 'B',
        "ET"@.len() == 2 && "ET"@[0] == 'E',
        "Tf"@.len() == 2 && "Tf"@[0] == 'T' && "Tf"@[1] == 'f',
        "Tj"@.len() == 2 && "Tj"@[0] == 'T' && "Tj"@[1] == 'j',
        "TJ"@.len() == 2 && "TJ"@[0] == 'T' && "TJ"@[1] == 'J',
        "'"@.len() == 1 && "'"@[0] == '\'',
        "\""@.len() == 1 && "\""@[0] == '"',
        "T*"@.len() == 2 && "T*"@[0] == 'T' && "T*"@[1] == '*',
        "Td"@.len() == 2 && "Td"@[0] == 'T' && "Td"@[1] == 'd',
        "TD"@.len() == 2 && "TD"@[0] == 'T' && "TD"@[1] == 'D',
        "Tm"@.len() == 2 && "Tm"@[0] == 'T' && "Tm"@[1] == 'm',
{
    reveal_strlit("BT");
    reveal_strlit("ET");
    reveal_strlit("Tf");
    reveal_strlit("Tj");
    reveal_strlit("TJ");
    reveal_strlit("'");
    reveal_strlit("\"");
    reveal_strlit("T*");
    reveal_strlit("Td");
    reveal_strlit("TD");
    reveal_strlit("Tm");
}

proof fn lemma_items(strings: Seq<Seq<u8>>, gaps: Seq<PdfNumber>)
    ensures
        content::joined(items(strings, gaps), items(strings, gaps).len() as int, None) == together(
            strings,
        ),
        items(strings, gaps).len() == 2 * strings.len(),
        content::strings(items(strings, gaps), items(strings, gaps).len() as int) == strings.len(),
    decreases strings.len(),
{
    if strings.len() > 0 {
        let before = items(strings.drop_last(), gaps);
        let all = items(strings, gaps);
        let n = all.len() as int;
        lemma_items(strings.drop_last(), gaps);
        lemma_joined(before, all, before.len() as int);
        assert(all[n - 1] == Datum::Number(gaps[strings.len() - 1]));
        assert(all[n - 2] == Datum::String(strings.last()));
        assert(content::joined(all, n, None) == content::joined(all, n - 1, None));
        assert(content::joined(all, n - 1, None) == content::joined(all, n - 2, None)
            + font_text::plain_text(strings.last()));
        assert(content::strings(all, n) == content::strings(all, n - 1));
        assert(content::strings(all, n - 1) == content::strings(all, n - 2) + 1);
    }
}

proof fn lemma_joined(a: Seq<Datum>, b: Seq<Datum>, n: int)
    requires
        0 <= n <= a.len() <= b.len(),
        forall|i: int| 0 <= i < a.len() ==> a[i] == b[i],
    ensures
        content::joined(a, n, None) == content::joined(b, n, None),
        content::strings(a, n) == content::strings(b, n),
    decreases n,
{
    if n > 0 {
        lemma_joined(a, b, n - 1);
    }
}

/// The text of a scene is empty, or ends a line.
spec fn is_fresh(s: Seq<char>) -> bool {
    s.len() == 0 || s.last() == '\n'
}

proof fn lemma_fresh(s: Seq<char>)
    requires
        is_fresh(s),
    ensures
        content::line_ended(s) == s,
{
}

proof fn lemma_shown(scene: Scene, line: Line, fonts: Seq<(Seq<u8>, Glyphs)>)
    requires
        scene.in_text,
        scene.font is None,
        is_line(line),
        is_fresh(scene.text),
    ensures
        ({
            let next = shown(scene, line, fonts);
            &&& next.in_text
            &&& next.font is None
            &&& next.text == scene.text + line_text(line)
            &&& next.y == scene.y
        }),
{
    reveal_operators();
    lemma_fresh(scene.text);
    if let Line::Many(strings, gaps) = line {
        lemma_items(strings, gaps);
        let operands = seq![Datum::Array(items(strings, gaps))];
        assert(operands.last() == Datum::Array(items(strings, gaps)));
    }
}

proof fn lemma_turned(scene: Scene, turn: Turn, fonts: Seq<(Seq<u8>, Glyphs)>)
    requires
        scene.in_text,
        scene.font is None,
        is_turn(turn),
        turn is Star || scene.y is Some,
        scene.text.len() > 0,
        scene.text.last() != ' ',
        scene.text.last() != '\n',
    ensures
        ({
            let next = turned(scene, turn, fonts);
            &&& next.in_text
            &&& next.font is None
            &&& next.text == scene.text + seq!['\n']
            &&& scene.y is Some ==> next.y is Some
        }),
{
    reveal_operators();
    assert(content::line_ended(scene.text) =~= scene.text + seq!['\n']);
}

/// Within a text object, the strings of a line are shown one behind the other, and
/// an operator that leads to the next line begins a line: the lines are shown with
/// line feeds between them. Where a line is reached by a distance, the first one
/// was given a height.
pub proof fn law_lines_are_shown_as_lines(
    scene: Scene,
    lines: Seq<Line>,
    turns: Seq<Turn>,
    n: int,
    fonts: Seq<(Seq<u8>, Glyphs)>,
)
    requires
        scene.in_text,
        scene.font is None,
        scene.text.len() == 0 || scene.text.last() == '\n',
        0 <= n <= lines.len(),
        turns.len() >= n - 1,
        forall|i: int| 0 <= i < lines.len() ==> is_line(#[trigger] lines[i]),
        forall|i: int|
            0 <= i < turns.len() ==> is_turn(#[trigger] turns[i]) && (turns[i] is Star || scene.y
                is Some),
    ensures
        shown_all(scene, lines, turns, n, fonts).text == scene.text + lined(lines, n),
        shown_all(scene, lines, turns, n, fonts).in_text,
        shown_all(scene, lines, turns, n, fonts).font is None,
        scene.y is Some ==> shown_all(scene, lines, turns, n, fonts).y is Some,
    decreases n,
{
    if n <= 0 {
        assert(scene.text + lined(lines, n) =~= scene.text);
    } else if n == 1 {
        assert(is_line(lines[0]));
        lemma_shown(scene, lines[0], fonts);
    } else {
        law_lines_are_shown_as_lines(scene, lines, turns, n - 1, fonts);
        let before = shown_all(scene, lines, turns, n - 1, fonts);
        assert(is_line(lines[n - 2]) && is_line(lines[n - 1]));
        assert(lined(lines, n - 1).last() == line_text(lines[n - 2]).last());
        assert(before.text.last() == line_text(lines[n - 2]).last());
        assert(is_turn(turns[n - 2]));
        lemma_turned(before, turns[n - 2], fonts);
        let next = turned(before, turns[n - 2], fonts);
        lemma_shown(next, lines[n - 1], fonts);
        assert(shown_all(scene, lines, turns, n, fonts).text =~= scene.text + lined(lines, n));
    }
}

/// The operators `'` and `"` show a string on a line of its own; both take the last
/// of their operands for the string.
pub proof fn law_quotes_begin_a_line(
    scene: Scene,
    before: Seq<Datum>,
    s: Seq<u8>,
    fonts: Seq<(Seq<u8>, Glyphs)>,
)
    requires
        scene.in_text,
        scene.font is None,
        font_text::plain_text(s).len() > 0,
        scene.text.len() > 0,
        scene.text.last() != ' ',
        scene.text.last() != '\n',
    ensures
        done(scene, before.push(Datum::String(s)), "'"@, fonts).text == scene.text + seq!['\n']
            + font_text::plain_text(s),
        done(scene, before.push(Datum::String(s)), "\""@, fonts).text == scene.text + seq!['\n']
            + font_text::plain_text(s),
        done(scene, before.push(Datum::HexString(s)), "'"@, fonts).text == scene.text + seq!['\n']
            + font_text::plain_text(s),
{
    reveal_operators();
    let ended = scene.text + seq!['\n'];
    assert(content::line_ended(scene.text) =~= ended);
    lemma_fresh(ended);
    assert(before.push(Datum::String(s)).last() == Datum::String(s));
    assert(before.push(Datum::HexString(s)).last() == Datum::HexString(s));
}

/// Text that is placed more than half a point above or below the line before it
/// stands on a line of its own; text that is placed no further away goes on in the
/// line.
pub proof fn law_text_at_another_height_begins_a_line(
    scene: Scene,
    before: Seq<Datum>,
    y: PdfNumber,
    s: Seq<u8>,
    fonts: Seq<(Seq<u8>, Glyphs)>,
)
    requires
        scene.in_text,
        scene.font is None,
        scene.y is Some,
        scene.last_y == scene.y,
        font_text::plain_text(s).len() > 0,
        scene.text.len() > 0,
        scene.text.last() != ' ',
        scene.text.last() != '\n',
    ensures
        ({
            let placed = done(scene, before.push(Datum::Number(y)), "Tm"@, fonts);
            let next = shown(placed, Line::One(s), fonts);
            next.text == if scene.y->0.plus_spec(y.negated_spec()).exceeds_spec(number::half()) {
                scene.text + seq!['\n'] + font_text::plain_text(s)
            } else {
                scene.text + font_text::plain_text(s)
            }
        }),
{
    reveal_operators();
    let ended = scene.text + seq!['\n'];
    assert(content::line_ended(scene.text) =~= ended);
    lemma_fresh(ended);
    assert(before.push(Datum::Number(y)).last() == Datum::Number(y));
}

/// Nothing is shown outside of text objects, which begin with `BT` and end with
/// `ET`.
pub proof fn law_text_is_shown_in_text_objects(
    scene: Scene,
    operands: Seq<Datum>,
    operator: Seq<char>,
    fonts: Seq<(Seq<u8>, Glyphs)>,
)
    ensures
        !scene.in_text && operator != "BT"@ ==> done(scene, operands, operator, fonts).text
            == scene.text && !done(scene, operands, operator, fonts).in_text,
        done(scene, operands, "BT"@, fonts).in_text && done(scene, operands, "BT"@, fonts).text
            == scene.text,
        !done(scene, operands, "ET"@, fonts).in_text && done(scene, operands, "ET"@, fonts).text
            == scene.text,
        done(scene, operands, operator, fonts).operands == Seq::<Datum>::empty(),
{
    reveal_operators();
}

} // verus!
