//! What an image of a page shows.

use vstd::arithmetic::div_mod::lemma_fundamental_div_mod_converse;
use vstd::prelude::*;

use crate::pdf::extract::PageText;
use crate::render::glyph;
use crate::render::image_format::ImageFormat;
use crate::render::raster;
use crate::render::raster::{Picture, MAX_DPI, MIN_DPI};
use crate::rounding::{rounded, PRECISION};
use crate::text;

verus! {

/// How a character looks: five columns and seven rows, row by row from the top,
/// each from left to right, with `#` for ink.
pub open spec fn shape(c: char) -> Seq<char> {
    match c {
        'A' | 'a' => ".###.#...##...#######...##...##...#"@,
        'B' | 'b' => "####.#...##...#####.#...##...#####."@,
        'C' | 'c' => ".#####....#....#....#....#.....####"@,
        'D' | 'd' => "####.#...##...##...##...##...#####."@,
        'E' | 'e' => "######....#....####.#....#....#####"@,
        'F' | 'f' => "######....#....####.#....#....#...."@,
        'G' | 'g' => ".#####....#....#.####...##...#.####"@,
        'H' | 'h' => "#...##...##...#######...##...##...#"@,
        'I' | 'i' => "#####..#....#....#....#....#..#####"@,
        'J' | 'j' => "..###...#....#....#....#.#..#..##.."@,
        'K' | 'k' => "#...##..#.#.#..##...#.#..#..#.#...#"@,
        'L' | 'l' => "#....#....#....#....#....#....#####"@,
        'M' | 'm' => "#...###.###.#.##.#.##...##...##...#"@,
        'N' | 'n' => "#...###..##.#.##..###...##...##...#"@,
        'O' | 'o' => ".###.#...##...##...##...##...#.###."@,
        'P' | 'p' => "####.#...##...#####.#....#....#...."@,
        'Q' | 'q' => ".###.#...##...##...##.#.##..#..##.#"@,
        'R' | 'r' => "####.#...##...#####.#.#..#..#.#...#"@,
        'S' | 's' => ".#####....#.....###.....#....#####."@,
        'T' | 't' => "#####..#....#....#....#....#....#.."@,
        'U' | 'u' => "#...##...##...##...##...##...#.###."@,
        'V' | 'v' => "#...##...##...##...##...#.#.#...#.."@,
        'W' | 'w' => "#...##...##...##.#.##.#.###.###...#"@,
        'X' | 'x' => "#...##...#.#.#...#...#.#.#...##...#"@,
        'Y' | 'y' => "#...##...#.#.#...#....#....#....#.."@,
        'Z' | 'z' => "#####....#...#...#...#...#....#####"@,
        '0' => ".###.#...##..###.#.###..##...#.###."@,
        '1' => "..#...##....#....#....#....#...###."@,
        '2' => ".###.#...#....#...#...#...#...#####"@,
        '3' => "####.....#....#.###.....#....#####."@,
        '4' => "...#...##..#.#.#..#.#####...#....#."@,
        '5' => "######....#....####.....#....#####."@,
        '6' => ".###.#....#....####.#...##...#.###."@,
        '7' => "#####....#...#...#...#....#....#..."@,
        '8' => ".###.#...##...#.###.#...##...#.###."@,
        '9' => ".###.#...##...#.####....#....#.###."@,
        '-' => "...............#####..............."@,
        '_' => "..............................#####"@,
        '.' => "................................#.."@,
        ',' => "...........................#...#..."@,
        ':' => ".......#...................#......."@,
        '!' => "..#....#....#....#....#.........#.."@,
        '?' => ".###.#...#....#...#...#.........#.."@,
        ' ' => "..................................."@,
        _ => "######...##.#.##...##.#.##...######"@,
    }
}

/// The bits of a row from the highest of five on are the dots of `art`.
spec fn row_is(bits: u8, art: Seq<char>, row: int) -> bool {
    &&& bits < 32
    &&& (bits / 16 % 2 == 1) == (art[5 * row] == '#')
    &&& (bits / 8 % 2 == 1) == (art[5 * row + 1] == '#')
    &&& (bits / 4 % 2 == 1) == (art[5 * row + 2] == '#')
    &&& (bits / 2 % 2 == 1) == (art[5 * row + 3] == '#')
    &&& (bits % 2 == 1) == (art[5 * row + 4] == '#')
}

spec fn rows_are(rows: Seq<u8>, art: Seq<char>) -> bool {
    &&& rows.len() == 7
    &&& art.len() == 35
    &&& row_is(rows[0], art, 0)
    &&& row_is(rows[1], art, 1)
    &&& row_is(rows[2], art, 2)
    &&& row_is(rows[3], art, 3)
    &&& row_is(rows[4], art, 4)
    &&& row_is(rows[5], art, 5)
    &&& row_is(rows[6], art, 6)
}

#[verifier::spinoff_prover]
proof fn lemma_shapes_0(c: char)
    requires
        c == 'A' || c == 'a' || c == 'B' || c == 'b' || c == 'C' || c == 'c' || c == 'D' || c == 'd' || c == 'E' || c == 'e' || c == 'F' || c == 'f',
    ensures
        rows_are(glyph::glyph(c), shape(c)),
{
    reveal_strlit(".###.#...##...#######...##...##...#");
    reveal_strlit("####.#...##...#####.#...##...#####.");
    reveal_strlit(".#####....#....#....#....#.....####");
    reveal_strlit("####.#...##...##...##...##...#####.");
    reveal_strlit("######....#....####.#....#....#####");
    reveal_strlit("######....#....####.#....#....#....");
}

#[verifier::spinoff_prover]
proof fn lemma_shapes_1(c: char)
    requires
        c == 'G' || c == 'g' || c == 'H' || c == 'h' || c == 'I' || c == 'i' || c == 'J' || c == 'j' || c == 'K' || c == 'k' || c == 'L' || c == 'l',
    ensures
        rows_are(glyph::glyph(c), shape(c)),
{
    reveal_strlit(".#####....#....#.####...##...#.####");
    reveal_strlit("#...##...##...#######...##...##...#");
    reveal_strlit("#####..#....#....#....#....#..#####");
    reveal_strlit("..###...#....#....#....#.#..#..##..");
    reveal_strlit("#...##..#.#.#..##...#.#..#..#.#...#");
    reveal_strlit("#....#....#....#....#....#....#####");
}

#[verifier::spinoff_prover]
proof fn lemma_shapes_2(c: char)
    requires
        c == 'M' || c == 'm' || c == 'N' || c == 'n' || c == 'O' || c == 'o' || c == 'P' || c == 'p' || c == 'Q' || c == 'q' || c == 'R' || c == 'r',
    ensures
        rows_are(glyph::glyph(c), shape(c)),
{
    reveal_strlit("#...###.###.#.##.#.##...##...##...#");
    reveal_strlit("#...###..##.#.##..###...##...##...#");
    reveal_strlit(".###.#...##...##...##...##...#.###.");
    reveal_strlit("####.#...##...#####.#....#....#....");
    reveal_strlit(".###.#...##...##...##.#.##..#..##.#");
    reveal_strlit("####.#...##...#####.#.#..#..#.#...#");
}

#[verifier::spinoff_prover]
proof fn lemma_shapes_3(c: char)
    requires
        c == 'S' || c == 's' || c == 'T' || c == 't' || c == 'U' || c == 'u' || c == 'V' || c == 'v' || c == 'W' || c == 'w' || c == 'X' || c == 'x',
    ensures
        rows_are(glyph::glyph(c), shape(c)),
{
    reveal_strlit(".#####....#.....###.....#....#####.");
    reveal_strlit("#####..#....#....#....#....#....#..");
    reveal_strlit("#...##...##...##...##...##...#.###.");
    reveal_strlit("#...##...##...##...##...#.#.#...#..");
    reveal_strlit("#...##...##...##.#.##.#.###.###...#");
    reveal_strlit("#...##...#.#.#...#...#.#.#...##...#");
}

#[verifier::spinoff_prover]
proof fn lemma_shapes_4(c: char)
    requires
        c == 'Y' || c == 'y' || c == 'Z' || c == 'z' || c == '0' || c == '1' || c == '2' || c == '3',
    ensures
        rows_are(glyph::glyph(c), shape(c)),
{
    reveal_strlit("#...##...#.#.#...#....#....#....#..");
    reveal_strlit("#####....#...#...#...#...#....#####");
    reveal_strlit(".###.#...##..###.#.###..##...#.###.");
    reveal_strlit("..#...##....#....#....#....#...###.");
    reveal_strlit(".###.#...#....#...#...#...#...#####");
    reveal_strlit("####.....#....#.###.....#....#####.");
}

#[verifier::spinoff_prover]
proof fn lemma_shapes_5(c: char)
    requires
        c == '4' || c == '5' || c == '6' || c == '7' || c == '8' || c == '9',
    ensures
        rows_are(glyph::glyph(c), shape(c)),
{
    reveal_strlit("...#...##..#.#.#..#.#####...#....#.");
    reveal_strlit("######....#....####.....#....#####.");
    reveal_strlit(".###.#....#....####.#...##...#.###.");
    reveal_strlit("#####....#...#...#...#....#....#...");
    reveal_strlit(".###.#...##...#.###.#...##...#.###.");
    reveal_strlit(".###.#...##...#.####....#....#.###.");
}

#[verifier::spinoff_prover]
proof fn lemma_shapes_6(c: char)
    requires
        c == '-' || c == '_' || c == '.' || c == ',' || c == ':' || c == '!',
    ensures
        rows_are(glyph::glyph(c), shape(c)),
{
    reveal_strlit("...............#####...............");
    reveal_strlit("..............................#####");
    reveal_strlit("................................#..");
    reveal_strlit("...........................#...#...");
    reveal_strlit(".......#...................#.......");
    reveal_strlit("..#....#....#....#....#.........#..");
}

#[verifier::spinoff_prover]
proof fn lemma_shapes_7(c: char)
    requires
        c != 'A',
        c != 'a',
        c != 'B',
        c != 'b',
        c != 'C',
        c != 'c',
        c != 'D',
        c != 'd',
        c != 'E',
        c != 'e',
        c != 'F',
        c != 'f',
        c != 'G',
        c != 'g',
        c != 'H',
        c != 'h',
        c != 'I',
        c != 'i',
        c != 'J',
        c != 'j',
        c != 'K',
        c != 'k',
        c != 'L',
        c != 'l',
        c != 'M',
        c != 'm',
        c != 'N',
        c != 'n',
        c != 'O',
        c != 'o',
        c != 'P',
        c != 'p',
        c != 'Q',
        c != 'q',
        c != 'R',
        c != 'r',
        c != 'S',
        c != 's',
        c != 'T',
        c != 't',
        c != 'U',
        c != 'u',
        c != 'V',
        c != 'v',
        c != 'W',
        c != 'w',
        c != 'X',
        c != 'x',
        c != 'Y',
        c != 'y',
        c != 'Z',
        c != 'z',
        c != '0',
        c != '1',
        c != '2',
        c != '3',
        c != '4',
        c != '5',
        c != '6',
        c != '7',
        c != '8',
        c != '9',
        c != '-',
        c != '_',
        c != '.',
        c != ',',
        c != ':',
        c != '!',
    ensures
        rows_are(glyph::glyph(c), shape(c)),
{
    reveal_strlit(".###.#...#....#...#...#.........#..");
    reveal_strlit("...................................");
    reveal_strlit("######...##.#.##...##.#.##...######");
}

proof fn lemma_shape(c: char)
    ensures
        rows_are(glyph::glyph(c), shape(c)),
{
    if c == 'A' || c == 'a' || c == 'B' || c == 'b' || c == 'C' || c == 'c' || c == 'D' || c == 'd' || c == 'E' || c == 'e' || c == 'F' || c == 'f' {
        lemma_shapes_0(c);
    } else if c == 'G' || c == 'g' || c == 'H' || c == 'h' || c == 'I' || c == 'i' || c == 'J' || c == 'j' || c == 'K' || c == 'k' || c == 'L' || c == 'l' {
        lemma_shapes_1(c);
    } else if c == 'M' || c == 'm' || c == 'N' || c == 'n' || c == 'O' || c == 'o' || c == 'P' || c == 'p' || c == 'Q' || c == 'q' || c == 'R' || c == 'r' {
        lemma_shapes_2(c);
    } else if c == 'S' || c == 's' || c == 'T' || c == 't' || c == 'U' || c == 'u' || c == 'V' || c == 'v' || c == 'W' || c == 'w' || c == 'X' || c == 'x' {
        lemma_shapes_3(c);
    } else if c == 'Y' || c == 'y' || c == 'Z' || c == 'z' || c == '0' || c == '1' || c == '2' || c == '3' {
        lemma_shapes_4(c);
    } else if c == '4' || c == '5' || c == '6' || c == '7' || c == '8' || c == '9' {
        lemma_shapes_5(c);
    } else if c == '-' || c == '_' || c == '.' || c == ',' || c == ':' || c == '!' {
        lemma_shapes_6(c);
    } else {
        lemma_shapes_7(c);
    }
}

/// A glyph has ink exactly where the shape of its character has it: the highest
/// of the five bits of a row is the left column. Letters of either case look the
/// same, and whatever has no shape of its own looks like a box.
pub proof fn law_glyphs_have_their_shapes(c: char, column: int, row: int)
    requires
        0 <= column < 5,
        0 <= row < 7,
    ensures
        shape(c).len() == 35,
        glyph::glyph(c).len() == 7,
        raster::has_dot(c, column, row) <==> shape(c)[5 * row + column] == '#',
        raster::has_dot(c, column, row) <==> (glyph::glyph(c)[row] >> ((4 - column) as u8)) & 1u8
            == 1u8,
{
    lemma_shape(c);
    let bits: u8 = glyph::glyph(c)[row];
    let by: u8 = (4 - column) as u8;
    assert((bits >> 4u8) & 1u8 == 1u8 <==> bits / 16 % 2 == 1) by (bit_vector);
    assert((bits >> 3u8) & 1u8 == 1u8 <==> bits / 8 % 2 == 1) by (bit_vector);
    assert((bits >> 2u8) & 1u8 == 1u8 <==> bits / 4 % 2 == 1) by (bit_vector);
    assert((bits >> 1u8) & 1u8 == 1u8 <==> bits / 2 % 2 == 1) by (bit_vector);
    assert((bits >> 0u8) & 1u8 == 1u8 <==> bits % 2 == 1) by (bit_vector);
    assert(row_is(bits, shape(c), row));
}

/// The red, green and blue of the dot in column `x` and row `y`, counted from the
/// upper left corner.
pub open spec fn color_at(picture: Picture, x: int, y: int) -> (u8, u8, u8) {
    let i = 3 * (y * picture.width + x);
    (picture.pixels[i], picture.pixels[i + 1], picture.pixels[i + 2])
}

proof fn lemma_color(lines: Seq<Seq<char>>, grid: raster::Grid, picture: Picture, x: int, y: int)
    requires
        picture.width == grid.width,
        picture.height == grid.height,
        picture.pixels == raster::drawn(lines, grid, grid.width * grid.height),
        0 <= x < grid.width,
        0 <= y < grid.height,
    ensures
        color_at(picture, x, y) == if raster::is_inked(lines, grid, x, y) {
            (24u8, 34u8, 48u8)
        } else {
            (255u8, 255u8, 255u8)
        },
{
    let n = y * grid.width + x;
    lemma_fundamental_div_mod_converse(n, grid.width, y, x);
    assert(0 <= n < grid.width * grid.height) by (nonlinear_arith)
        requires
            n == y * grid.width + x,
            0 <= x < grid.width,
            0 <= y < grid.height,
    ;
    let i = 3 * n;
    assert(i / 3 == n && (i + 1) / 3 == n && (i + 2) / 3 == n);
    assert(i % 3 == 0 && (i + 1) % 3 == 1 && (i + 2) % 3 == 2);
    assert(i + 2 < 3 * (grid.width * grid.height));
}

/// The dot at `k` of the `n`-th cell of `size` parts of `d` dots, and `e` dots
/// into it.
proof fn lemma_cell(n: int, size: int, k: int, d: int, e: int)
    requires
        0 <= n,
        0 <= k < size,
        0 <= e < d,
    ensures
        0 <= (size * n + k) * d + e,
        ((size * n + k) * d + e) / (size * d) == n,
        ((size * n + k) * d + e) % (size * d) / d == k,
{
    let within = k * d + e;
    assert(0 <= within < size * d) by (nonlinear_arith)
        requires
            within == k * d + e,
            0 <= k < size,
            0 <= e < d,
    ;
    assert((size * n + k) * d + e == n * (size * d) + within && 0 <= n * (size * d))
        by (nonlinear_arith)
        requires
            within == k * d + e,
            0 <= n,
            0 <= size * d,
    ;
    lemma_fundamental_div_mod_converse((size * n + k) * d + e, size * d, n, within);
    lemma_fundamental_div_mod_converse(within, d, k, e);
}

proof fn lemma_cells(side: int, margin: int, size: int, d: int, n: int)
    requires
        0 <= n,
        0 < size,
        0 < d,
        0 <= margin,
    ensures
        n < raster::cells(side, margin, size * d) <==> 2 * margin + size * d * (n + 1) <= side,
{
    let cell = size * d;
    assert(cell > 0) by (nonlinear_arith)
        requires
            cell == size * d,
            0 < size,
            0 < d,
    ;
    assert(cell * (n + 1) > 0) by (nonlinear_arith)
        requires
            cell > 0,
            n >= 0,
    ;
    if side > 2 * margin {
        let room = side - 2 * margin;
        assert(n < room / cell <==> cell * (n + 1) <= room) by (nonlinear_arith)
            requires
                cell > 0,
                n >= 0,
                room > 0,
        ;
    }
}

/// An image shows the text of its page. The character in a column of a line
/// stands in a cell of six dots by nine, the first one at the upper left corner
/// within the margins; a dot is at least two dots of the image wide and high, and
/// one for every 72 of the resolution. Each dot of a cell within the margins has
/// ink if the shape of its character has it there, and is white otherwise; a cell
/// without a character is white.
pub proof fn law_page_shows_its_text(
    page: PageText,
    dpi: u16,
    format: ImageFormat,
    line: int,
    column: int,
    row: int,
    k: int,
    dx: int,
    dy: int,
)
    requires
        MIN_DPI <= dpi <= MAX_DPI,
        raster::page_picture(page, dpi, format) is Ok,
        0 <= line,
        0 <= column,
        0 <= row < 9,
        0 <= k < 6,
        ({
            let picture = raster::page_picture(page, dpi, format)->Ok_0;
            let d = if dpi < 216 {
                2
            } else {
                dpi as int / 72
            };
            let margin = raster::margin_dots(dpi);
            &&& 0 <= dx < d
            &&& 0 <= dy < d
            &&& 2 * margin + 6 * d * (column + 1) <= picture.width
            &&& 2 * margin + 9 * d * (line + 1) <= picture.height
        }),
    ensures
        ({
            let picture = raster::page_picture(page, dpi, format)->Ok_0;
            let lines = text::lines_from(page.text, 0);
            let d = if dpi < 216 {
                2
            } else {
                dpi as int / 72
            };
            let margin = raster::margin_dots(dpi);
            color_at(
                picture,
                margin + (6 * column + k) * d + dx,
                margin + (9 * line + row) * d + dy,
            ) == if line < lines.len() && column < lines[line].len() && k < 5 && row < 7 && shape(
                lines[line][column],
            )[5 * row + k] == '#' {
                (24u8, 34u8, 48u8)
            } else {
                (255u8, 255u8, 255u8)
            }
        }),
{
    let picture = raster::page_picture(page, dpi, format)->Ok_0;
    let lines = text::lines_from(page.text, 0);
    let grid = raster::grid_of(page, dpi);
    let d = grid.dot;
    lemma_side(page.width, dpi);
    lemma_side(page.height, dpi);
    law_margin_is_seven_tenths_of_an_inch(dpi);
    let x = grid.margin + (6 * column + k) * d + dx;
    let y = grid.margin + (9 * line + row) * d + dy;
    lemma_cell(column, 6, k, d, dx);
    lemma_cell(line, 9, row, d, dy);
    lemma_cells(grid.width, grid.margin, 6, d, column);
    lemma_cells(grid.height, grid.margin, 9, d, line);
    assert((6 * column + k) * d + dx < 6 * d * (column + 1)) by (nonlinear_arith)
        requires
            0 <= k < 6,
            0 <= dx < d,
            0 <= column,
    ;
    assert((9 * line + row) * d + dy < 9 * d * (line + 1)) by (nonlinear_arith)
        requires
            0 <= row < 9,
            0 <= dy < d,
            0 <= line,
    ;
    lemma_color(lines, grid, picture, x, y);
    if line < lines.len() && column < lines[line].len() && k < 5 && row < 7 {
        law_glyphs_have_their_shapes(lines[line][column], k, row);
    }
}

/// Nothing is drawn into the margins of a page.
pub proof fn law_margins_are_white(
    page: PageText,
    dpi: u16,
    format: ImageFormat,
    x: int,
    y: int,
)
    requires
        MIN_DPI <= dpi <= MAX_DPI,
        raster::page_picture(page, dpi, format) is Ok,
        ({
            let picture = raster::page_picture(page, dpi, format)->Ok_0;
            let margin = raster::margin_dots(dpi);
            &&& 0 <= x < picture.width
            &&& 0 <= y < picture.height
            &&& x < margin || y < margin || x >= picture.width - margin || y >= picture.height
                - margin
        }),
    ensures
        color_at(raster::page_picture(page, dpi, format)->Ok_0, x, y) == (255u8, 255u8, 255u8),
{
    let picture = raster::page_picture(page, dpi, format)->Ok_0;
    let grid = raster::grid_of(page, dpi);
    lemma_side(page.width, dpi);
    lemma_side(page.height, dpi);
    law_margin_is_seven_tenths_of_an_inch(dpi);
    lemma_color(text::lines_from(page.text, 0), grid, picture, x, y);
    if x >= grid.margin && y >= grid.margin {
        let across = x - grid.margin;
        let down = y - grid.margin;
        let wide = 6 * grid.dot;
        let high = 9 * grid.dot;
        lemma_cells(grid.width, grid.margin, 6, grid.dot, across / wide);
        lemma_cells(grid.height, grid.margin, 9, grid.dot, down / high);
        assert(across < wide * (across / wide + 1)) by (nonlinear_arith)
            requires
                wide > 0,
        ;
        assert(down < high * (down / high + 1)) by (nonlinear_arith)
            requires
                high > 0,
        ;
    }
}

proof fn lemma_nearest(n: int, d: int)
    requires
        d > 0,
        n >= 0,
    ensures
        -d <= 2 * (d * rounded(n, d) - n) <= d,
        rounded(n, d) >= 0,
{
    let q = n / d;
    let r = n % d;
    assert(n == d * q + r && 0 <= r < d && q >= 0 && d * (q + 1) == d * q + d) by (nonlinear_arith)
        requires
            d > 0,
            n >= 0,
            q == n / d,
            r == n % d,
    ;
}

/// Rounding to 53 bits changes a number by no more than its 2^53rd part, or not
/// at all if it has no more bits.
proof fn lemma_precise_is_near(x: int, unit: int)
    requires
        0 <= x,
        0 < unit,
        unit == 1 || PRECISION * unit <= 2 * x,
    ensures
        -x <= PRECISION * (raster::precise(x, unit) - x) <= x,
    decreases
            (if x < PRECISION * unit {
                0
            } else {
                x - PRECISION * unit + 1
            }),
{
    if x < PRECISION * unit {
        if unit == 1 {
            assert(x / 1 == x && x % 1 == 0);
            assert(rounded(x, 1) == x);
            assert(raster::precise(x, unit) == x);
        } else {
            lemma_nearest(x, unit);
            assert(rounded(x, unit) * unit == unit * rounded(x, unit)) by (nonlinear_arith);
        }
    } else {
        lemma_precise_is_near(x, unit * 2);
    }
}

/// The margins are seven tenths of an inch wide, to the nearest dot.
pub proof fn law_margin_is_seven_tenths_of_an_inch(dpi: u16)
    requires
        MIN_DPI <= dpi <= MAX_DPI,
    ensures
        -5 <= 10 * raster::margin_dots(dpi) - 7 * dpi <= 5,
{
    let x = dpi * raster::SEVEN_TENTHS;
    lemma_precise_is_near(x, 1);
}

/// An image is as wide and as high as its page: a point is the 72nd part of an
/// inch, and a side is right to the nearest dot. A side without length counts as
/// one point.
pub proof fn law_image_is_as_large_as_its_page(page: PageText, dpi: u16, format: ImageFormat)
    requires
        MIN_DPI <= dpi <= MAX_DPI,
        raster::page_picture(page, dpi, format) is Ok,
    ensures
        ({
            let picture = raster::page_picture(page, dpi, format)->Ok_0;
            let wide = if page.width == 0 {
                1
            } else {
                page.width as int
            };
            let high = if page.height == 0 {
                1
            } else {
                page.height as int
            };
            &&& -36 <= 72 * picture.width - wide * dpi <= 36
            &&& -36 <= 72 * picture.height - high * dpi <= 36
            &&& picture.pixels.len() == 3 * picture.width * picture.height
        }),
{
    let grid = raster::grid_of(page, dpi);
    lemma_side(page.width, dpi);
    lemma_side(page.height, dpi);
    assert(3 * (grid.width * grid.height) == 3 * grid.width * grid.height && grid.width
        * grid.height >= 0) by (nonlinear_arith)
        requires
            grid.width >= 0,
            grid.height >= 0,
    ;
}

proof fn lemma_side(points: u32, dpi: u16)
    requires
        MIN_DPI <= dpi <= MAX_DPI,
    ensures
        ({
            let n = if points == 0 {
                1
            } else {
                points as int
            };
            &&& -36 <= 72 * raster::side_dots(points, dpi) - n * dpi <= 36
            &&& raster::side_dots(points, dpi) > 0
        }),
{
    let n = if points == 0 {
        1
    } else {
        points as int
    };
    let d = raster::scale_denominator(dpi);
    let num = raster::scale_numerator(dpi);
    lemma_nearest(dpi * d, 72);
    assert(-36 <= 72 * num - dpi * d <= 36);
    let x = n * num;
    assert(num <= PRECISION);
    assert(0 <= x <= n * PRECISION) by (nonlinear_arith)
        requires
            x == n * num,
            0 <= num <= PRECISION,
            n >= 0,
    ;
    lemma_precise_is_near(x, 1);
    let y = raster::precise(x, 1);
    assert(-n <= y - x <= n) by (nonlinear_arith)
        requires
            -x <= PRECISION * (y - x) <= x,
            0 <= x <= n * PRECISION,
            PRECISION > 0,
    ;
    let r = (2 * y + d) / (2 * d);
    assert(-d <= 2 * y - 2 * d * r < d) by (nonlinear_arith)
        requires
            r == (2 * y + d) / (2 * d),
            d > 0,
    ;
    assert(-36 * n <= 72 * x - n * dpi * d <= 36 * n) by (nonlinear_arith)
        requires
            x == n * num,
            -36 <= 72 * num - dpi * d <= 36,
            n >= 0,
    ;
    let e = 72 * r - n * dpi;
    assert(d * e == 72 * (d * r) - n * dpi * d) by (nonlinear_arith)
        requires
            e == 72 * r - n * dpi,
    ;
    assert(2 * d * r == 2 * (d * r)) by (nonlinear_arith);
    assert(-36 * d - 108 * n <= d * e <= 36 * d + 108 * n);
    assert(108 * n < d);
    assert(-36 <= e <= 36) by (nonlinear_arith)
        requires
            -37 * d < d * e < 37 * d,
            d > 0,
    ;
    assert(n * dpi >= 150) by (nonlinear_arith)
        requires
            n >= 1,
            dpi >= 150,
    ;
}

} // verus!
