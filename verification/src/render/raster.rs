//! Drawing the text of a page.

use vstd::prelude::*;

use crate::pdf::extract::{PageText, TextPage};
use crate::render::error::{Problem, RenderError};
use crate::render::image_format;
use crate::render::image_format::{check_image_dimensions, ImageFormat, MAX_PIXELS};
use crate::render::glyph;
use crate::render::glyph::glyph_rows;
use crate::rounding::{rounded, PRECISION};
use crate::text;
use crate::text::{chars_of, lines_of};

verus! {

/// The least and the most dots per inch.
pub const MIN_DPI: u16 = 150;

pub const MAX_DPI: u16 = 300;

/// `x` rounded to 53 significant bits, as binary floating point does; `unit` is
/// a power of two that is at most the weight of the last of them.
pub open spec fn precise(x: int, unit: int) -> int
    decreases
            (if unit <= 0 || x < PRECISION * unit {
                0
            } else {
                x - PRECISION * unit + 1
            }),
{
    if unit <= 0 || x < PRECISION * unit {
        rounded(x, unit) * unit
    } else {
        precise(x, unit * 2)
    }
}

/// The integer nearest to `n * numerator / denominator`, the larger one of two
/// that are as near, where the product is rounded to 53 significant bits.
pub open spec fn scaled(n: int, numerator: int, denominator: int) -> int {
    (2 * precise(n * numerator, 1) + denominator) / (2 * denominator)
}

/// What `scale_numerator` is divided by.
pub open spec fn scale_denominator(dpi: u16) -> int {
    if dpi < 288 {
        0x8_0000_0000_0000
    } else {
        0x4_0000_0000_0000
    }
}

/// How many dots a point has, rounded to 53 significant bits.
pub open spec fn scale_numerator(dpi: u16) -> int {
    rounded(dpi * scale_denominator(dpi), 72)
}

/// How many dots a side of a page has.
pub open spec fn side_dots(points: u32, dpi: u16) -> int {
    let points = if points == 0 {
        1
    } else {
        points as int
    };
    scaled(points, scale_numerator(dpi), scale_denominator(dpi))
}

/// Seven tenths, rounded to 53 significant bits, are this number divided by
/// `PRECISION`.
pub const SEVEN_TENTHS: u128 = 6_305_039_478_318_694;

/// How many dots wide the margins are.
pub open spec fn margin_dots(dpi: u16) -> int {
    scaled(dpi as int, SEVEN_TENTHS as int, PRECISION as int)
}

fn round_even(n: u128, d: u128) -> (r: u128)
    requires
        d > 0,
        n < 0x8000_0000_0000_0000_0000_0000_0000_0000,
        d < 0x8000_0000_0000_0000_0000_0000_0000_0000,
    ensures
        r == rounded(n as int, d as int),
{
    let q: u128 = n / d;
    let twice: u128 = 2 * (n % d);
    assert(n / d <= n) by (nonlinear_arith)
        requires
            d > 0,
            n >= 0,
    ;
    if twice < d || (twice == d && q % 2 == 0) {
        q
    } else {
        q + 1
    }
}

proof fn lemma_rounded(x: int, unit: int)
    requires
        x >= 0,
        unit > 0,
    ensures
        0 <= rounded(x, unit) * unit <= x + unit,
{
    let q = x / unit;
    let r = x % unit;
    assert(x == unit * q + r && 0 <= r < unit && q >= 0) by (nonlinear_arith)
        requires
            x >= 0,
            unit > 0,
            q == x / unit,
            r == x % unit,
    ;
    assert(q * unit <= x && (q + 1) * unit <= x + unit && 0 <= q * unit && 0 <= (q + 1) * unit)
        by (nonlinear_arith)
        requires
            x == unit * q + r,
            0 <= r < unit,
            q >= 0,
    ;
}

fn round_precise(x: u128) -> (r: u128)
    requires
        x < 0x40_0000_0000_0000_0000_0000,
    ensures
        r == precise(x as int, 1),
        r <= 2 * x + 1,
{
    let mut unit: u128 = 1;
    while x >= PRECISION * unit
        invariant
            0 < unit <= 0x4_0000_0000,
            PRECISION * unit <= 2 * x || unit == 1,
            x < 0x40_0000_0000_0000_0000_0000,
            precise(x as int, unit as int) == precise(x as int, 1),
        decreases
                (if x < PRECISION * unit {
                    0
                } else {
                    x - PRECISION * unit + 1
                }),
    {
        unit = unit * 2;
    }
    proof {
        lemma_rounded(x as int, unit as int);
    }
    round_even(x, unit) * unit
}

/// A multiple of `n` in whole dots.
fn scale(n: u64, numerator: u128, denominator: u128) -> (r: u128)
    requires
        n <= u32::MAX,
        numerator <= PRECISION,
        0 < denominator <= PRECISION,
    ensures
        r == scaled(n as int, numerator as int, denominator as int),
{
    assert(n * numerator <= 0xffff_ffff * 0x20_0000_0000_0000) by (nonlinear_arith)
        requires
            0 <= n <= 0xffff_ffff,
            0 <= numerator <= 0x20_0000_0000_0000,
    ;
    let product: u128 = n as u128 * numerator;
    let rounded: u128 = round_precise(product);
    (2 * rounded + denominator) / (2 * denominator)
}

/// Where the characters of a page go.
pub struct Grid {
    pub width: int,
    pub height: int,
    pub margin: int,
    /// How many dots wide and high a dot of a glyph is.
    pub dot: int,
}

pub open spec fn grid_of(page: PageText, dpi: u16) -> Grid {
    Grid {
        width: side_dots(page.width, dpi),
        height: side_dots(page.height, dpi),
        margin: margin_dots(dpi),
        dot: if dpi / 72 < 2 {
            2
        } else {
            dpi as int / 72
        },
    }
}

/// How many cells of `cell` dots fit between two margins.
pub open spec fn cells(side: int, margin: int, cell: int) -> int {
    if side <= 2 * margin {
        0
    } else {
        (side - 2 * margin) / cell
    }
}

/// What the dot of a glyph in a column counts in its row.
pub open spec fn column_weight(column: int) -> int {
    if column == 0 {
        16
    } else if column == 1 {
        8
    } else if column == 2 {
        4
    } else if column == 3 {
        2
    } else {
        1
    }
}

/// A glyph has a dot in a column of a row.
pub open spec fn has_dot(c: char, column: int, row: int) -> bool {
    0 <= column < 5 && 0 <= row < 7 && glyph::glyph(c)[row] as int / column_weight(column) % 2 == 1
}

/// A dot of the image belongs to a character. A cell is six dots of a glyph wide
/// and nine high.
pub open spec fn is_inked(lines: Seq<Seq<char>>, grid: Grid, x: int, y: int) -> bool {
    let across = x - grid.margin;
    let down = y - grid.margin;
    let column = across / (6 * grid.dot);
    let line = down / (9 * grid.dot);
    &&& across >= 0
    &&& down >= 0
    &&& column < cells(grid.width, grid.margin, 6 * grid.dot)
    &&& line < cells(grid.height, grid.margin, 9 * grid.dot)
    &&& line < lines.len()
    &&& column < lines[line].len()
    &&& has_dot(
        lines[line][column],
        across % (6 * grid.dot) / grid.dot,
        down % (9 * grid.dot) / grid.dot,
    )
}

/// The red, green and blue of a dot.
pub open spec fn dot_color(inked: bool) -> Seq<u8> {
    if inked {
        seq![24u8, 34u8, 48u8]
    } else {
        seq![255u8, 255u8, 255u8]
    }
}

/// The dots of an image of the given width, row by row from the top; the first
/// `n` of them.
pub open spec fn drawn(lines: Seq<Seq<char>>, grid: Grid, n: int) -> Seq<u8> {
    Seq::new(
        (3 * n) as nat,
        |i: int|
            dot_color(is_inked(lines, grid, i / 3 % grid.width, i / 3 / grid.width))[i % 3],
    )
}

/// An image of red, green and blue dots.
#[derive(Debug, PartialEq, Eq)]
pub struct PageImage {
    pub width: u32,
    pub height: u32,
    pub pixels: Vec<u8>,
}

/// What contracts say of a `PageImage`.
pub struct Picture {
    pub width: u32,
    pub height: u32,
    pub pixels: Seq<u8>,
}

impl View for PageImage {
    type V = Picture;

    open spec fn view(&self) -> Picture {
        Picture { width: self.width, height: self.height, pixels: self.pixels@ }
    }
}

/// The image of a page.
pub open spec fn page_picture(page: PageText, dpi: u16, format: ImageFormat) -> Result<
    Picture,
    Problem,
> {
    let grid = grid_of(page, dpi);
    if grid.width > u32::MAX || grid.height > u32::MAX || !image_format::allowed(
        grid.width as u32,
        grid.height as u32,
        format,
    ) {
        Err(Problem::PixelLimit)
    } else {
        Ok(
            Picture {
                width: grid.width as u32,
                height: grid.height as u32,
                pixels: drawn(text::lines_from(page.text, 0), grid, grid.width * grid.height),
            },
        )
    }
}

/// Where the characters of a page go.
struct Layout {
    width: u32,
    height: u32,
    margin: u32,
    dot: u32,
    columns: u32,
    lines: u32,
}

impl Layout {
    spec fn grid(self) -> Grid {
        Grid {
            width: self.width as int,
            height: self.height as int,
            margin: self.margin as int,
            dot: self.dot as int,
        }
    }

    spec fn wf(self) -> bool {
        &&& self.margin <= 1000
        &&& 2 <= self.dot <= 4
        &&& 0 < self.width
        &&& 0 < self.height
        &&& self.width * self.height <= MAX_PIXELS
        &&& self.columns == cells(self.width as int, self.margin as int, 6 * self.dot)
        &&& self.lines == cells(self.height as int, self.margin as int, 9 * self.dot)
    }
}

fn weight(column: u32) -> (r: u8)
    ensures
        r == column_weight(column as int),
        r > 0,
{
    if column == 0 {
        16
    } else if column == 1 {
        8
    } else if column == 2 {
        4
    } else if column == 3 {
        2
    } else {
        1
    }
}

fn shows_dot(c: char, column: u32, row: u32) -> (r: bool)
    ensures
        r == has_dot(c, column as int, row as int),
{
    if column >= 5 || row >= 7 {
        return false;
    }
    let rows = glyph_rows(c);
    let bits: u8 = rows[row as usize];
    assert(bits == glyph::glyph(c)[row as int]);
    let by: u8 = weight(column);
    bits / by % 2 == 1
}

fn inked(lines: &Vec<Vec<char>>, layout: &Layout, x: u32, y: u32) -> (r: bool)
    requires
        layout.wf(),
    ensures
        r == is_inked(text::texts(lines@), layout.grid(), x as int, y as int),
{
    if x < layout.margin || y < layout.margin {
        return false;
    }
    let across: u32 = x - layout.margin;
    let down: u32 = y - layout.margin;
    let wide: u32 = 6 * layout.dot;
    let high: u32 = 9 * layout.dot;
    let column: u32 = across / wide;
    let line: u32 = down / high;
    if column >= layout.columns || line >= layout.lines || line as usize >= lines.len() {
        return false;
    }
    let row = &lines[line as usize];
    assert(text::texts(lines@)[line as int] == row@);
    if column as usize >= row.len() {
        return false;
    }
    shows_dot(row[column as usize], across % wide / layout.dot, down % high / layout.dot)
}

proof fn lemma_dot(x: int, y: int, width: int)
    requires
        0 <= x < width,
        0 <= y,
    ensures
        (y * width + x) % width == x,
        (y * width + x) / width == y,
{
    vstd::arithmetic::div_mod::lemma_fundamental_div_mod_converse(y * width + x, width, y, x);
}

fn draw(lines: &Vec<Vec<char>>, layout: &Layout) -> (r: Vec<u8>)
    requires
        layout.wf(),
    ensures
        r@ == drawn(text::texts(lines@), layout.grid(), layout.width * layout.height),
{
    let ghost all = text::texts(lines@);
    let ghost grid = layout.grid();
    let mut out: Vec<u8> = Vec::new();
    let mut y: u32 = 0;
    assert(0 * layout.width == 0) by (nonlinear_arith);
    assert(out@ =~= drawn(all, grid, 0));
    while y < layout.height
        invariant
            y <= layout.height,
            layout.wf(),
            all == text::texts(lines@),
            grid == layout.grid(),
            out@ == drawn(all, grid, y * layout.width),
        decreases layout.height - y,
    {
        let mut x: u32 = 0;
        while x < layout.width
            invariant
                x <= layout.width,
                y < layout.height,
                layout.wf(),
                all == text::texts(lines@),
                grid == layout.grid(),
                out@ == drawn(all, grid, y * layout.width + x),
            decreases layout.width - x,
        {
            let ghost n = y * layout.width + x;
            let ghost before = out@;
            assert(n >= 0) by (nonlinear_arith)
                requires
                    n == y * layout.width + x,
                    y >= 0,
                    layout.width >= 0,
                    x >= 0,
            ;
            proof {
                lemma_dot(x as int, y as int, layout.width as int);
            }
            let ghost color = dot_color(is_inked(all, grid, x as int, y as int));
            if inked(lines, layout, x, y) {
                out.push(24);
                out.push(34);
                out.push(48);
            } else {
                out.push(255);
                out.push(255);
                out.push(255);
            }
            assert(out@ =~= before + color);
            assert forall|i: int| 0 <= i < out@.len() implies out@[i] == drawn(
                all,
                grid,
                n + 1,
            )[i] by {
                if i < 3 * n {
                    assert(out@[i] == before[i]);
                    assert(before[i] == drawn(all, grid, n)[i]);
                } else {
                    assert(i / 3 == n);
                }
            }
            assert(out@ =~= drawn(all, grid, n + 1));
            x += 1;
        }
        assert((y + 1) * layout.width == y * layout.width + layout.width) by (nonlinear_arith);
        y += 1;
    }
    assert(layout.height * layout.width == layout.width * layout.height) by (nonlinear_arith);
    out
}

proof fn lemma_margin(dpi: u16)
    requires
        MIN_DPI <= dpi <= MAX_DPI,
    ensures
        0 <= margin_dots(dpi) <= 1000,
{
    let x = dpi * SEVEN_TENTHS;
    lemma_precise(x, 1);
    assert(0 <= precise(x, 1) <= 2 * x + 1);
}

proof fn lemma_precise(x: int, unit: int)
    requires
        0 <= x,
        0 < unit,
        unit <= x + 1,
        unit == 1 || PRECISION * unit <= 2 * x,
    ensures
        0 <= precise(x, unit) <= 2 * x + 1,
    decreases
            (if x < PRECISION * unit {
                0
            } else {
                x - PRECISION * unit + 1
            }),
{
    if x < PRECISION * unit {
        lemma_rounded(x, unit);
    } else {
        lemma_precise(x, unit * 2);
    }
}

/// Draws the text of a page in a small font.
pub fn rasterize_page(page: &TextPage, dpi: u16, format: ImageFormat) -> (r: Result<
    PageImage,
    RenderError,
>)
    requires
        MIN_DPI <= dpi <= MAX_DPI,
    ensures
        crate::render::error::turns_out(r, page_picture(page@, dpi, format)),
{
    let denominator: u128 = if dpi < 288 {
        0x8_0000_0000_0000
    } else {
        0x4_0000_0000_0000
    };
    let numerator: u128 = round_even(dpi as u128 * denominator, 72);
    let width_points: u64 = if page.width_points == 0 {
        1
    } else {
        page.width_points as u64
    };
    let height_points: u64 = if page.height_points == 0 {
        1
    } else {
        page.height_points as u64
    };
    let width: u128 = scale(width_points, numerator, denominator);
    let height: u128 = scale(height_points, numerator, denominator);
    if width > u32::MAX as u128 || height > u32::MAX as u128 {
        return Err(RenderError::PixelLimit);
    }
    let width: u32 = width as u32;
    let height: u32 = height as u32;
    match check_image_dimensions(width, height, format) {
        Err(error) => {
            return Err(error);
        },
        Ok(()) => {},
    }
    let margin: u128 = scale(dpi as u64, SEVEN_TENTHS, PRECISION);
    proof {
        lemma_margin(dpi);
    }
    let margin: u32 = margin as u32;
    let dot: u32 = if dpi / 72 < 2 {
        2
    } else {
        dpi as u32 / 72
    };
    let columns: u32 = if width <= 2 * margin {
        0
    } else {
        (width - 2 * margin) / (6 * dot)
    };
    let rows: u32 = if height <= 2 * margin {
        0
    } else {
        (height - 2 * margin) / (9 * dot)
    };
    let layout = Layout { width, height, margin, dot, columns, lines: rows };
    let chars = chars_of(page.text.as_str());
    let lines = lines_of(chars.as_slice());
    let pixels = draw(&lines, &layout);
    assert(layout.grid() == grid_of(page@, dpi));
    Ok(PageImage { width, height, pixels })
}

} // verus!
