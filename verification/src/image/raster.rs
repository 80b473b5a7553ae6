//! Decoded images.

use vstd::prelude::*;

use crate::image::error::{halted, Fault, ImagePdfError};

verus! {

/// The most pixels that an image may have.
pub const MAX_PIXELS: u64 = 12_000_000;

/// The longest side that an image may have.
pub const MAX_SIDE: u32 = 20_000;

/// The most bytes that decoded pixels may take.
pub const MAX_DECODED_BYTES: usize = 50_331_648;

/// What the bytes of a pixel stand for.
#[derive(Debug, Clone, Copy, PartialEq, Eq, Structural)]
pub enum PixelColor {
    Grayscale,
    GrayscaleAlpha,
    Rgb,
    Rgba,
}

impl PixelColor {
    pub open spec fn channels_spec(self) -> int {
        match self {
            PixelColor::Grayscale => 1,
            PixelColor::GrayscaleAlpha => 2,
            PixelColor::Rgb => 3,
            PixelColor::Rgba => 4,
        }
    }

    /// How many bytes a pixel has.
    pub fn channels(self) -> (r: usize)
        ensures
            r == self.channels_spec(),
    {
        match self {
            PixelColor::Grayscale => 1,
            PixelColor::GrayscaleAlpha => 2,
            PixelColor::Rgb => 3,
            PixelColor::Rgba => 4,
        }
    }

    pub open spec fn has_alpha_spec(self) -> bool {
        self == PixelColor::GrayscaleAlpha || self == PixelColor::Rgba
    }

    /// The last byte of a pixel tells how opaque it is.
    pub fn has_alpha(self) -> (r: bool)
        ensures
            r == self.has_alpha_spec(),
    {
        self == PixelColor::GrayscaleAlpha || self == PixelColor::Rgba
    }
}

/// A decoded image: rows from the top, pixels from the left.
#[derive(Debug, PartialEq, Eq)]
pub struct RasterImage {
    pub width: u32,
    pub height: u32,
    pub color: PixelColor,
    pub pixels: Vec<u8>,
}

/// What contracts say of a `RasterImage`.
pub struct Raster {
    pub width: u32,
    pub height: u32,
    pub color: PixelColor,
    pub pixels: Seq<u8>,
}

impl View for RasterImage {
    type V = Raster;

    open spec fn view(&self) -> Raster {
        Raster {
            width: self.width,
            height: self.height,
            color: self.color,
            pixels: self.pixels@,
        }
    }
}

/// The size of an image that may be decoded.
pub open spec fn allowed_size(width: int, height: int) -> bool {
    0 < width <= MAX_SIDE && 0 < height <= MAX_SIDE && width * height <= MAX_PIXELS
}

/// Refuses an image without pixels and one with too many.
pub fn checked_dimensions(width: u32, height: u32) -> (r: Result<(), ImagePdfError>)
    ensures
        if allowed_size(width as int, height as int) {
            r is Ok
        } else {
            r is Err && r->Err_0@ == Fault::TooLarge
        },
{
    assert(width * height <= u64::MAX) by (nonlinear_arith)
        requires
            0 <= width <= u32::MAX,
            0 <= height <= u32::MAX,
    ;
    let pixels: u64 = width as u64 * height as u64;
    if width == 0 || height == 0 || width > MAX_SIDE || height > MAX_SIDE || pixels > MAX_PIXELS {
        return Err(ImagePdfError::TooLarge);
    }
    Ok(())
}

/// How many bytes an image takes.
pub fn decoded_size(width: u32, height: u32, channels: usize) -> (r: Result<usize, ImagePdfError>)
    ensures
        if width * height <= usize::MAX && width * height * channels <= usize::MAX {
            r is Ok && r->Ok_0 == width * height * channels
        } else {
            r is Err && r->Err_0@ == Fault::TooLarge
        },
{
    let pixels = match (width as usize).checked_mul(height as usize) {
        None => {
            return Err(ImagePdfError::TooLarge);
        },
        Some(pixels) => pixels,
    };
    match pixels.checked_mul(channels) {
        None => Err(ImagePdfError::TooLarge),
        Some(size) => Ok(size),
    }
}

/// A component that was multiplied by `alpha`, as it was before.
pub open spec fn unmultiplied(component: u8, alpha: u8) -> u8 {
    if alpha == 0 {
        0u8
    } else {
        let value = (component * 255 + alpha / 2) / (alpha as int);
        if value > 255 {
            255u8
        } else {
            value as u8
        }
    }
}

/// Pixels whose last byte is their alpha value, their other bytes as they were
/// before they were multiplied by it. What is left behind whole rows stays.
pub open spec fn unmultiplied_pixels(pixels: Seq<u8>, row_bytes: int, channels: int) -> Seq<u8> {
    let whole = (pixels.len() as int / row_bytes) * row_bytes;
    Seq::new(
        pixels.len(),
        |i: int|
            if i < whole && i % channels != channels - 1 {
                unmultiplied(pixels[i], pixels[i - i % channels + channels - 1])
            } else {
                pixels[i]
            },
    )
}

/// The place of a byte within its pixel.
pub proof fn lemma_place(pixel: int, channels: int, k: int)
    requires
        0 <= k < channels,
        0 <= pixel,
    ensures
        (pixel * channels + k) % channels == k,
        (pixel * channels + k) / channels == pixel,
{
    vstd::arithmetic::div_mod::lemma_fundamental_div_mod_converse(
        pixel * channels + k,
        channels,
        pixel,
        k,
    );
}

fn unmultiply(component: u8, alpha: u8) -> (r: u8)
    ensures
        r == unmultiplied(component, alpha),
{
    if alpha == 0 {
        return 0;
    }
    let value: u32 = (component as u32 * 255 + alpha as u32 / 2) / alpha as u32;
    if value > 255 {
        255
    } else {
        value as u8
    }
}

fn unmultiply_pixel(pixels: &mut Vec<u8>, base: usize, channels: usize)
    requires
        1 <= channels,
        base + channels <= old(pixels)@.len(),
    ensures
        final(pixels)@.len() == old(pixels)@.len(),
        forall|i: int|
            0 <= i < final(pixels)@.len() ==> #[trigger] final(pixels)@[i] == (if base <= i < base
                + channels - 1 {
                unmultiplied(old(pixels)@[i], old(pixels)@[base + channels - 1])
            } else {
                old(pixels)@[i]
            }),
{
    let ghost before = pixels@;
    assert(pixels.len() <= usize::MAX);
    let alpha: u8 = pixels[base + channels - 1];
    let mut k: usize = 0;
    while k < channels - 1
        invariant
            k <= channels - 1,
            1 <= channels,
            base + channels <= pixels@.len() == before.len(),
            before.len() <= usize::MAX,
            alpha == before[base + channels - 1],
            forall|i: int|
                0 <= i < pixels@.len() ==> #[trigger] pixels@[i] == (if base <= i < base + k {
                    unmultiplied(before[i], alpha)
                } else {
                    before[i]
                }),
        decreases channels - k,
    {
        let value = unmultiply(pixels[base + k], alpha);
        pixels.set(base + k, value);
        k += 1;
    }
}

/// Undoes the multiplication of the components by the alpha value.
pub fn unpremultiply_alpha<F: Fn() -> bool>(
    pixels: &mut Vec<u8>,
    width: u32,
    channels: usize,
    should_stop: &F,
) -> (r: Result<(), ImagePdfError>)
    requires
        width > 0,
        channels > 0,
        should_stop.requires(()),
    ensures
        final(pixels)@.len() == old(pixels)@.len(),
        halted(r, *should_stop) || if width * channels > usize::MAX {
            r is Err && r->Err_0@ == Fault::TooLarge
        } else {
            r is Ok && final(pixels)@ == unmultiplied_pixels(
                old(pixels)@,
                width * channels,
                channels as int,
            )
        },
{
    let row_bytes: usize = match (width as usize).checked_mul(channels) {
        None => {
            return Err(ImagePdfError::TooLarge);
        },
        Some(row_bytes) => row_bytes,
    };
    assert(row_bytes > 0) by (nonlinear_arith)
        requires
            row_bytes == width * channels,
            width > 0,
            channels > 0,
    ;
    let ghost before = pixels@;
    assert(pixels.len() <= usize::MAX);
    let ghost goal = unmultiplied_pixels(before, row_bytes as int, channels as int);
    let rows: usize = pixels.len() / row_bytes;
    let ghost whole = rows * row_bytes;
    assert(whole <= before.len()) by {
        vstd::arithmetic::div_mod::lemma_fundamental_div_mod(
            before.len() as int,
            row_bytes as int,
        );
        assert(rows * row_bytes == row_bytes * rows) by (nonlinear_arith);
    }
    let mut row: usize = 0;
    let mut base: usize = 0;
    let ghost mut pixel: int = 0;
    while row < rows
        invariant
            row <= rows,
            base == row * row_bytes,
            pixel == row * width,
            base == pixel * channels,
            row_bytes == width * channels,
            row_bytes > 0,
            channels > 0,
            whole == rows * row_bytes,
            whole <= before.len() <= usize::MAX,
            pixels@.len() == before.len(),
            before == old(pixels)@,
            whole == (before.len() as int / row_bytes as int) * row_bytes,
            goal == unmultiplied_pixels(before, row_bytes as int, channels as int),
            should_stop.requires(()),
            forall|i: int| 0 <= i < base ==> #[trigger] pixels@[i] == goal[i],
            forall|i: int| base <= i < before.len() ==> #[trigger] pixels@[i] == before[i],
        decreases rows - row,
    {
        if should_stop() {
            return Err(ImagePdfError::Cancelled);
        }
        assert(base + row_bytes <= whole && (row + 1) * row_bytes == base + row_bytes
            && (row + 1) * width == pixel + width) by (nonlinear_arith)
            requires
                base == row * row_bytes,
                pixel == row * width,
                whole == rows * row_bytes,
                row < rows,
        ;
        let ghost row_start = pixel;
        let mut column: u32 = 0;
        while column < width
            invariant
                column <= width,
                row_start * channels + row_bytes <= whole,
                pixel == row_start + column,
                row_start >= 0,
                base == pixel * channels,
                row_bytes == width * channels,
                channels > 0,
                whole <= before.len() <= usize::MAX,
                pixels@.len() == before.len(),
                whole == (before.len() as int / row_bytes as int) * row_bytes,
                goal == unmultiplied_pixels(before, row_bytes as int, channels as int),
                forall|i: int| 0 <= i < base ==> #[trigger] pixels@[i] == goal[i],
                forall|i: int| base <= i < before.len() ==> #[trigger] pixels@[i] == before[i],
            decreases width - column,
        {
            assert(base + channels <= whole && (pixel + 1) * channels == base + channels)
                by (nonlinear_arith)
                requires
                    base == pixel * channels,
                    pixel == row_start + column,
                    column < width,
                    row_bytes == width * channels,
                    row_start * channels + row_bytes <= whole,
                    channels > 0,
            ;
            let ghost now = pixels@;
            unmultiply_pixel(pixels, base, channels);
            assert forall|i: int| 0 <= i < base + channels implies #[trigger] pixels@[i]
                == goal[i] by {
                if i >= base {
                    let k = i - base;
                    lemma_place(pixel, channels as int, k);
                    assert(now[i] == before[i]);
                    assert(now[base + channels - 1] == before[base + channels - 1]);
                } else {
                    assert(pixels@[i] == now[i]);
                }
            }
            assert forall|i: int| base + channels <= i < before.len() implies #[trigger] pixels@[i]
                == before[i] by {
                assert(pixels@[i] == now[i]);
            }
            base += channels;
            column += 1;
            proof {
                pixel = pixel + 1;
            }
        }
        assert(base == (row + 1) * row_bytes) by (nonlinear_arith)
            requires
                base == pixel * channels,
                pixel == row_start + width,
                row_start == row * width,
                row_bytes == width * channels,
        ;
        row += 1;
    }
    assert forall|i: int| 0 <= i < before.len() implies #[trigger] pixels@[i] == goal[i] by {
        if i >= base {
            assert(pixels@[i] == before[i]);
        }
    }
    assert(pixels@ =~= goal);
    Ok(())
}

/// The colour components of an image, or its alpha values, pixel by pixel.
pub open spec fn component(raster: Raster, alpha: bool) -> Seq<u8> {
    let channels = raster.color.channels_spec();
    let count = (raster.width * raster.height) as nat;
    if !raster.color.has_alpha_spec() {
        raster.pixels
    } else if alpha {
        Seq::new(count, |i: int| raster.pixels[i * channels + channels - 1])
    } else {
        Seq::new(
            count * (channels - 1) as nat,
            |i: int| raster.pixels[i / (channels - 1) * channels + i % (channels - 1)],
        )
    }
}

/// The pixels are as many as the size says.
pub open spec fn whole_raster(raster: Raster) -> bool {
    raster.pixels.len() == raster.width * raster.height * raster.color.channels_spec()
}

/// Takes the colour components or the alpha values out of an image.
pub fn take_component<F: Fn() -> bool>(
    raster: &RasterImage,
    alpha: bool,
    should_stop: &F,
) -> (r: Result<Vec<u8>, ImagePdfError>)
    requires
        should_stop.requires(()),
    ensures
        halted(r, *should_stop) || if raster.width * raster.color.channels_spec() > usize::MAX
            || raster.height * (raster.width * raster.color.channels_spec()) > usize::MAX {
            r is Err && r->Err_0@ == Fault::TooLarge
        } else if !whole_raster(raster@) {
            r is Err && r->Err_0@ == Fault::InvalidImage
        } else {
            r is Ok && r->Ok_0@ == component(raster@, alpha)
        },
{
    let channels = raster.color.channels();
    let stride: usize = match (raster.width as usize).checked_mul(channels) {
        None => {
            return Err(ImagePdfError::TooLarge);
        },
        Some(stride) => stride,
    };
    let size: usize = match (raster.height as usize).checked_mul(stride) {
        None => {
            return Err(ImagePdfError::TooLarge);
        },
        Some(size) => size,
    };
    let ghost count = raster.width * raster.height;
    assert(size == count * channels) by (nonlinear_arith)
        requires
            size == raster.height * stride,
            stride == raster.width * channels,
            count == raster.width * raster.height,
    ;
    if raster.pixels.len() != size {
        return Err(ImagePdfError::InvalidImage);
    }
    if !raster.color.has_alpha() {
        if should_stop() {
            return Err(ImagePdfError::Cancelled);
        }
        return Ok(vstd::slice::slice_to_vec(raster.pixels.as_slice()));
    }
    let pixels = &raster.pixels;
    let mut out: Vec<u8> = Vec::new();
    let mut base: usize = 0;
    let mut column: u64 = 0;
    let ghost mut pixel: int = 0;
    let ghost goal = component(raster@, alpha);
    assert(count >= 0) by (nonlinear_arith)
        requires
            count == raster.width * raster.height,
    ;
    while base < size
        invariant
            column <= u32::MAX,
            base == pixel * channels,
            0 <= pixel <= count,
            size == count * channels,
            pixels@.len() == size,
            pixels@ == raster@.pixels,
            channels == 2 || channels == 4,
            channels == raster.color.channels_spec(),
            raster.color.has_alpha_spec(),
            count == raster.width * raster.height,
            goal == component(raster@, alpha),
            should_stop.requires(()),
            out@.len() == (if alpha {
                pixel
            } else {
                pixel * (channels - 1)
            }),
            forall|i: int| 0 <= i < out@.len() ==> #[trigger] out@[i] == goal[i],
            goal.len() == (if alpha {
                count
            } else {
                count * (channels - 1)
            }),
        decreases size - base,
    {
        if column == 0 {
            if should_stop() {
                return Err(ImagePdfError::Cancelled);
            }
        }
        column += 1;
        if column >= raster.width as u64 {
            column = 0;
        }
        assert(pixel < count && base + channels <= size && (pixel + 1) * channels == base
            + channels && (pixel + 1) * (channels - 1) == pixel * (channels - 1) + channels - 1 && (
        pixel + 1) * (channels - 1) <= count * (channels - 1)) by (nonlinear_arith)
            requires
                base == pixel * channels,
                size == count * channels,
                base < size,
                channels > 1,
        ;
        if alpha {
            out.push(pixels[base + channels - 1]);
            assert(out@[pixel] == goal[pixel]);
        } else {
            let ghost before = out@;
            let mut k: usize = 0;
            while k < channels - 1
                invariant
                    k <= channels - 1,
                    channels == 2 || channels == 4,
                    channels == raster.color.channels_spec(),
                    raster.color.has_alpha_spec(),
                    !alpha,
                    base == pixel * channels,
                    base + channels <= size,
                    pixels@.len() == size,
                    pixels@ == raster@.pixels,
                    0 <= pixel,
                    goal == component(raster@, alpha),
                    out@.len() == pixel * (channels - 1) + k,
                    pixel * (channels - 1) + channels - 1 <= goal.len(),
                    forall|i: int| 0 <= i < out@.len() ==> #[trigger] out@[i] == goal[i],
                decreases channels - k,
            {
                proof {
                    lemma_place(pixel, channels - 1, k as int);
                }
                out.push(pixels[base + k]);
                assert(out@.last() == goal[out@.len() - 1]);
                k += 1;
            }
        }
        base += channels;
        proof {
            pixel = pixel + 1;
        }
    }
    assert(pixel == count) by (nonlinear_arith)
        requires
            base == pixel * channels,
            size == count * channels,
            base >= size,
            pixel <= count,
            channels > 0,
    ;
    assert(out@ =~= goal);
    Ok(out)
}

} // verus!
