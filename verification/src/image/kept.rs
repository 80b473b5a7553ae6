//! That the pixels of an image are kept.

use vstd::arithmetic::div_mod::lemma_fundamental_div_mod_converse;
use vstd::prelude::*;

use crate::image::bmp;
use crate::image::codec;
use crate::image::codec::Frame;
use crate::image::document;
use crate::image::document::Encoding;
use crate::image::error::Fault;
use crate::image::picture::Source;
use crate::image::raster;
use crate::image::raster::{PixelColor, Raster};
use crate::image::tiff_codec;
use crate::image::tiff_codec::TiffPlan;

verus! {

/// How many bytes of a pixel tell its color, and whether one more tells how opaque
/// it is.
pub open spec fn layers(color: PixelColor) -> (int, bool) {
    match color {
        PixelColor::Grayscale => (1, false),
        PixelColor::GrayscaleAlpha => (1, true),
        PixelColor::Rgb => (3, false),
        PixelColor::Rgba => (3, true),
    }
}

/// The byte of a layer of the pixel in column `x` and row `y`.
pub open spec fn sample(image: Raster, x: int, y: int, layer: int) -> u8 {
    let (colors, alpha) = layers(image.color);
    let size = if alpha {
        colors + 1
    } else {
        colors
    };
    image.pixels[(y * image.width + x) * size + layer]
}

proof fn lemma_place(image: Raster, x: int, y: int)
    requires
        0 <= x < image.width,
        0 <= y < image.height,
    ensures
        0 <= y * image.width + x < image.width * image.height,
{
    assert(0 <= y * image.width + x < image.width * image.height) by (nonlinear_arith)
        requires
            0 <= x < image.width,
            0 <= y < image.height,
    ;
}

/// What is embedded of an image are its pixels, row by row: the bytes of their
/// colors in the order in which the image has them, and apart from them the bytes
/// that tell how opaque they are.
pub proof fn law_embedded_pixels_are_those_of_the_image(
    image: Raster,
    x: int,
    y: int,
    layer: int,
)
    requires
        raster::whole_raster(image),
        0 <= x < image.width,
        0 <= y < image.height,
        0 <= layer < layers(image.color).0,
    ensures
        ({
            let (colors, alpha) = layers(image.color);
            let color = raster::component(image, false);
            &&& color.len() == image.width * image.height * colors
            &&& color[(y * image.width + x) * colors + layer] == sample(image, x, y, layer)
            &&& alpha ==> {
                let opaque = raster::component(image, true);
                &&& opaque.len() == image.width * image.height
                &&& opaque[y * image.width + x] == sample(image, x, y, colors)
            }
        }),
{
    let (colors, alpha) = layers(image.color);
    let n = y * image.width + x;
    let count = image.width * image.height;
    lemma_place(image, x, y);
    assert(0 <= n * colors + layer < count * colors) by (nonlinear_arith)
        requires
            0 <= n < count,
            0 <= layer < colors,
    ;
    if alpha {
        lemma_fundamental_div_mod_converse(n * colors + layer, colors, n, layer);
    }
}

/// The picture that is embedded is as large as the image, and is gray or colored
/// as the image is; pixels are compressed, and JPEG data stays as it is.
pub proof fn law_embedded_picture_is_like_the_image(source: Source)
    requires
        document::prepared(source) is Ok,
    ensures
        ({
            let plate = document::prepared(source)->Ok_0;
            match source {
                Source::Raster(image) => {
                    &&& plate.width == image.width
                    &&& plate.height == image.height
                    &&& plate.rgb == (layers(image.color).0 == 3)
                    &&& plate.mask is Some == layers(image.color).1
                    &&& plate.encoding == Encoding::Flate
                },
                Source::Jpeg(info, b) => {
                    &&& plate.width == info.width
                    &&& plate.height == info.height
                    &&& plate.rgb == (info.components == 3)
                    &&& plate.mask is None
                    &&& plate.data == b
                    &&& plate.encoding == if info.components == 3 {
                        Encoding::Jpeg(Some(info.color_transform))
                    } else {
                        Encoding::Jpeg(None)
                    }
                },
            }
        }),
{
}

/// A BMP file holds its rows from the bottom, or from the top if it says so; a row
/// takes the least multiple of four bytes that has room for it; a pixel has its
/// blue before its green and its green before its red, and then its alpha value if
/// it has one.
pub proof fn law_bmp_pixels_are_found(b: Seq<u8>, x: int, y: int)
    requires
        bmp::bmp_image(b) is Ok,
        0 <= x < bmp::bmp_image(b)->Ok_0.width,
        0 <= y < bmp::bmp_image(b)->Ok_0.height,
    ensures
        ({
            let image = bmp::bmp_image(b)->Ok_0;
            let shape = bmp::shape_of(b)->Ok_0;
            let (colors, alpha) = layers(image.color);
            let size = if alpha {
                4int
            } else {
                3int
            };
            let stride = bmp::Shape::stride(shape);
            let row = if shape.top_down {
                y
            } else {
                image.height - 1 - y
            };
            let at = 54 + row * stride + x * size;
            &&& colors == 3
            &&& image.width * size <= stride < image.width * size + 4 && stride % 4 == 0
            &&& sample(image, x, y, 0) == b[at + 2]
            &&& sample(image, x, y, 1) == b[at + 1]
            &&& sample(image, x, y, 2) == b[at]
            &&& alpha ==> sample(image, x, y, 3) == b[at + 3]
        }),
{
    let image = bmp::bmp_image(b)->Ok_0;
    let shape = bmp::shape_of(b)->Ok_0;
    let size = shape.channels;
    assert(size == 3 || size == 4);
    lemma_place(image, x, y);
    lemma_bmp_sample(shape, x, y, 0);
    lemma_bmp_sample(shape, x, y, 1);
    lemma_bmp_sample(shape, x, y, 2);
    if size == 4 {
        lemma_bmp_sample(shape, x, y, 3);
    }
    let n = y * image.width + x;
    let count = image.width * image.height;
    assert(0 <= n * size && n * size + size <= count * size) by (nonlinear_arith)
        requires
            0 <= n < count,
            size > 0,
    ;
    assert(shape.width * shape.height * shape.channels == count * size);
}

proof fn lemma_bmp_sample(shape: bmp::Shape, x: int, y: int, layer: int)
    requires
        0 <= x < shape.width,
        0 <= y < shape.height,
        shape.channels == 3 || shape.channels == 4,
        0 <= layer < shape.channels,
    ensures
        ({
            let row = if shape.top_down {
                y
            } else {
                shape.height - 1 - y
            };
            bmp::source_of(shape, (y * shape.width + x) * shape.channels + layer) == 54 + row
                * shape.stride() + x * shape.channels + if layer == 0 {
                2
            } else if layer == 2 {
                0
            } else {
                layer
            }
        }),
{
    let size = shape.channels;
    let wide = shape.row_bytes();
    let within = x * size + layer;
    let i = (y * shape.width + x) * size + layer;
    assert(i == y * wide + within && 0 <= within < wide) by (nonlinear_arith)
        requires
            i == (y * shape.width + x) * size + layer,
            wide == shape.width * size,
            within == x * size + layer,
            0 <= x < shape.width,
            0 <= layer < size,
    ;
    lemma_fundamental_div_mod_converse(i, wide, y, within);
    lemma_fundamental_div_mod_converse(within, size, x, layer);
}

/// A color that was multiplied by its alpha value is brought back, to the nearest
/// value: nothing changes where a pixel is opaque, and nothing is left where it
/// cannot be seen.
pub proof fn law_unmultiplied_colors_are_nearest(component: u8, alpha: u8)
    ensures
        ({
            let found = raster::unmultiplied(component, alpha);
            &&& alpha == 255 ==> found == component
            &&& alpha == 0 ==> found == 0
            &&& 0 < alpha && component <= alpha ==> -alpha <= 2 * (found * alpha - 255 * component)
                <= alpha
            &&& 0 < alpha < component ==> found == 255
        }),
{
    if alpha > 0 {
        let a = alpha as int;
        let n = component * 255 + a / 2;
        let q = n / a;
        assert(q * a <= n < q * a + a) by (nonlinear_arith)
            requires
                a > 0,
                q == n / a,
        ;
        if component <= alpha {
            assert(q <= 255) by (nonlinear_arith)
                requires
                    q * a <= n,
                    n <= a * 255 + a / 2,
                    a > 0,
            ;
        } else {
            assert(q >= 255) by (nonlinear_arith)
                requires
                    n < q * a + a,
                    n >= (a + 1) * 255,
                    a > 0,
            ;
        }
    }
}

/// The decoded image is as large as was planned. Its pixels are the decoded bytes,
/// and where colors were multiplied by their alpha values they are brought back;
/// the alpha values themselves stay.
pub proof fn law_tiff_pixels_are_kept(plan: TiffPlan, pixels: Seq<u8>, x: int, y: int, layer: int)
    requires
        tiff_codec::assembled(plan, Ok(Some(pixels))) is Ok,
        0 <= x < plan.width,
        0 <= y < plan.height,
        0 <= layer < layers(plan.color).0,
    ensures
        ({
            let image = tiff_codec::assembled(plan, Ok(Some(pixels)))->Ok_0;
            let given = Raster { width: plan.width, height: plan.height, color: plan.color, pixels };
            let (colors, alpha) = layers(plan.color);
            &&& image.width == plan.width
            &&& image.height == plan.height
            &&& image.color == plan.color
            &&& !plan.multiplied ==> image.pixels == pixels
            &&& plan.multiplied && alpha ==> {
                &&& image.pixels.len() == pixels.len()
                &&& sample(image, x, y, colors) == sample(given, x, y, colors)
                &&& sample(image, x, y, layer) == raster::unmultiplied(
                    sample(given, x, y, layer),
                    sample(given, x, y, colors),
                )
            }
        }),
{
    let image = tiff_codec::assembled(plan, Ok(Some(pixels)))->Ok_0;
    let (colors, alpha) = layers(plan.color);
    if plan.multiplied && alpha {
        let size = colors + 1;
        let n = y * plan.width + x;
        let count = plan.width * plan.height;
        let wide = plan.width * size;
        lemma_place(image, x, y);
        assert(pixels.len() == count * size);
        assert(pixels.len() == plan.height * wide) by (nonlinear_arith)
            requires
                pixels.len() == plan.width * plan.height * size,
                wide == plan.width * size,
        ;
        assert(wide > 0) by (nonlinear_arith)
            requires
                wide == plan.width * size,
                plan.width > 0,
                size > 0,
        ;
        lemma_fundamental_div_mod_converse(pixels.len() as int, wide, plan.height as int, 0);
        assert(0 <= n * size && n * size + size <= count * size) by (nonlinear_arith)
            requires
                0 <= n < count,
                size > 0,
        ;
        lemma_fundamental_div_mod_converse(n * size + layer, size, n, layer);
        lemma_fundamental_div_mod_converse(n * size + colors, size, n, colors);
    }
}

/// The number of a PNG color type says what its pixels hold: its second bit that
/// they are colored, its third one that they have alpha values.
pub proof fn law_png_color_types(number: u8)
    ensures
        match codec::png_color(number) {
            Some(color) => {
                &&& number < 8 && number % 2 == 0
                &&& layers(color).0 == if number / 2 % 2 == 1 {
                    3int
                } else {
                    1
                }
                &&& layers(color).1 == (number / 4 % 2 == 1)
            },
            None => number >= 8 || number % 2 == 1,
        },
{
}

/// The decoded PNG image is the frame: its size, and its pixels as far as they were
/// written.
pub proof fn law_png_pixels_are_kept(
    header: codec::PngHeader,
    color: PixelColor,
    frame: Frame,
)
    requires
        codec::png_assembled(header, color, Ok(frame), Ok(())) is Ok,
    ensures
        ({
            let image = codec::png_assembled(header, color, Ok(frame), Ok(()))->Ok_0;
            &&& image.width == header.width
            &&& image.height == header.height
            &&& image.color == color
            &&& image.pixels.len() == frame.size
            &&& forall|i: int| 0 <= i < image.pixels.len() ==> #[trigger] image.pixels[i] == frame.pixels[i]
        }),
{
}

/// The decoded GIF and WebP images are as large as their headers say, and their
/// pixels are the decoded bytes.
pub proof fn law_other_pixels_are_kept(
    width: u32,
    height: u32,
    pixels: Seq<u8>,
    header: codec::WebpHeader,
    color: PixelColor,
)
    ensures
        codec::gif_assembled(width, height, Ok(pixels), Ok((false, false))) matches Ok(image) ==> {
            &&& image == Raster { width, height, color: PixelColor::Rgba, pixels }
            &&& raster::whole_raster(image)
        },
        codec::webp_assembled(header, color, Ok(pixels)) == Ok::<Raster, Fault>(
            Raster { width: header.width, height: header.height, color, pixels },
        ),
{
}

} // verus!
