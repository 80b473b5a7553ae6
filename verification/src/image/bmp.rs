//! Reading uncompressed BMP images.

use vstd::prelude::*;

use crate::bytes;
use crate::bytes::{read_u16_le, read_u32_le};
use crate::image::error::{concludes, halted, Fault, ImagePdfError};
use crate::image::raster;
use crate::image::raster::{
    checked_dimensions, PixelColor, Raster, RasterImage, MAX_DECODED_BYTES, MAX_PIXELS, MAX_SIDE,
};
use crate::stopping;

verus! {

/// How many bytes stand before the pixels.
pub const HEADER_BYTES: usize = 54;

/// How many bytes the second header has.
pub const INFO_HEADER_BYTES: u32 = 40;

/// A 32-bit number taken as signed.
pub open spec fn signed(n: u32) -> int {
    if n >= 0x8000_0000 {
        n - 0x1_0000_0000
    } else {
        n as int
    }
}

/// What the headers of an image say.
pub struct Shape {
    pub width: u32,
    pub height: u32,
    pub top_down: bool,
    pub channels: int,
}

impl Shape {
    pub open spec fn row_bytes(self) -> int {
        self.width * self.channels
    }

    /// A row in the file is filled up to a multiple of four bytes.
    pub open spec fn stride(self) -> int {
        (self.row_bytes() + 3) / 4 * 4
    }
}

/// What the headers say, or why the image is refused.
pub open spec fn shape_of(b: Seq<u8>) -> Result<Shape, Fault> {
    if b.len() < HEADER_BYTES || b[0] != 0x42 || b[1] != 0x4d {
        Err(Fault::InvalidImage)
    } else if b.len() > u32::MAX {
        Err(Fault::TooLarge)
    } else if bytes::u32_le(b, 2)->0 != b.len() || bytes::u16_le(b, 6)->0 != 0 || bytes::u16_le(
        b,
        8,
    )->0 != 0 {
        Err(Fault::InvalidImage)
    } else if bytes::u32_le(b, 14)->0 != INFO_HEADER_BYTES {
        Err(Fault::UnsupportedImage)
    } else if bytes::u32_le(b, 10)->0 < HEADER_BYTES {
        Err(Fault::InvalidImage)
    } else if bytes::u32_le(b, 10)->0 != HEADER_BYTES {
        Err(Fault::UnsupportedImage)
    } else {
        sized_shape(b, signed(bytes::u32_le(b, 18)->0), signed(bytes::u32_le(b, 22)->0))
    }
}

/// The same once the size is known.
pub open spec fn sized_shape(b: Seq<u8>, width: int, height: int) -> Result<Shape, Fault> {
    let rows = if height < 0 {
        -height
    } else {
        height
    };
    let bits = bytes::u16_le(b, 28)->0;
    if width <= 0 || height == 0 || height == i32::MIN {
        Err(Fault::InvalidImage)
    } else if !raster::allowed_size(width, rows) {
        Err(Fault::TooLarge)
    } else if bytes::u16_le(b, 26)->0 != 1 || bits != 24 && bits != 32 || bytes::u32_le(b, 30)->0
        != 0 || bytes::u32_le(b, 46)->0 != 0 || bytes::u32_le(b, 50)->0 != 0 {
        Err(Fault::UnsupportedImage)
    } else {
        let shape = Shape {
            width: width as u32,
            height: rows as u32,
            top_down: height < 0,
            channels: if bits == 24 {
                3int
            } else {
                4int
            },
        };
        let declared = bytes::u32_le(b, 34)->0;
        if HEADER_BYTES + shape.stride() * rows != b.len() || declared != 0 && declared
            != shape.stride() * rows {
            Err(Fault::InvalidImage)
        } else if width * rows * shape.channels > MAX_DECODED_BYTES {
            Err(Fault::TooLarge)
        } else {
            Ok(shape)
        }
    }
}

/// Where the `i`-th byte of the pixels stands in the file. Rows come from the
/// bottom unless the image is top-down, and the colours of a pixel in the order
/// blue, green, red.
pub open spec fn source_of(shape: Shape, i: int) -> int {
    let row = i / shape.row_bytes();
    let column = i % shape.row_bytes() / shape.channels;
    let channel = i % shape.row_bytes() % shape.channels;
    let file_row = if shape.top_down {
        row
    } else {
        shape.height - 1 - row
    };
    HEADER_BYTES + file_row * shape.stride() + column * shape.channels + if channel == 0 {
        2
    } else if channel == 2 {
        0
    } else {
        channel
    }
}

/// The image in a file.
pub open spec fn bmp_image(b: Seq<u8>) -> Result<Raster, Fault> {
    match shape_of(b) {
        Err(fault) => Err(fault),
        Ok(shape) => Ok(
            Raster {
                width: shape.width,
                height: shape.height,
                color: if shape.channels == 4 {
                    PixelColor::Rgba
                } else {
                    PixelColor::Rgb
                },
                pixels: Seq::new(
                    (shape.width * shape.height * shape.channels) as nat,
                    |i: int| b[source_of(shape, i)],
                ),
            },
        ),
    }
}

/// A `Shape` as it was read.
struct BmpShape {
    width: u32,
    height: u32,
    top_down: bool,
    channels: usize,
}

impl View for BmpShape {
    type V = Shape;

    closed spec fn view(&self) -> Shape {
        Shape {
            width: self.width,
            height: self.height,
            top_down: self.top_down,
            channels: self.channels as int,
        }
    }
}

fn u32_at(b: &[u8], i: usize) -> (r: u32)
    requires
        i + 4 <= b@.len(),
    ensures
        Some(r) == bytes::u32_le(b@, i as int),
{
    match read_u32_le(b, i) {
        Some(n) => n,
        None => 0,
    }
}

fn u16_at(b: &[u8], i: usize) -> (r: u16)
    requires
        i + 2 <= b@.len(),
    ensures
        Some(r) == bytes::u16_le(b@, i as int),
{
    match read_u16_le(b, i) {
        Some(n) => n,
        None => 0,
    }
}

fn magnitude(n: u32) -> (r: (bool, u32))
    ensures
        r.0 == (signed(n) < 0),
        r.1 == (if signed(n) < 0 {
            -signed(n)
        } else {
            signed(n)
        }),
{
    if n >= 0x8000_0000 {
        (true, (0x1_0000_0000u64 - n as u64) as u32)
    } else {
        (false, n)
    }
}

fn read_shape(b: &[u8]) -> (r: Result<BmpShape, ImagePdfError>)
    ensures
        match shape_of(b@) {
            Ok(shape) => r is Ok && r->Ok_0@ == shape,
            Err(fault) => r is Err && r->Err_0@ == fault,
        },
{
    if b.len() < HEADER_BYTES || b[0] != 0x42 || b[1] != 0x4d {
        return Err(ImagePdfError::InvalidImage);
    }
    if b.len() as u64 > u32::MAX as u64 {
        return Err(ImagePdfError::TooLarge);
    }
    if u32_at(b, 2) as usize != b.len() || u16_at(b, 6) != 0 || u16_at(b, 8) != 0 {
        return Err(ImagePdfError::InvalidImage);
    }
    if u32_at(b, 14) != INFO_HEADER_BYTES {
        return Err(ImagePdfError::UnsupportedImage);
    }
    if (u32_at(b, 10) as usize) < HEADER_BYTES {
        return Err(ImagePdfError::InvalidImage);
    }
    if u32_at(b, 10) as usize != HEADER_BYTES {
        return Err(ImagePdfError::UnsupportedImage);
    }
    let (left, width) = magnitude(u32_at(b, 18));
    let (top_down, height) = magnitude(u32_at(b, 22));
    if left || width == 0 || height == 0 || (top_down && height == 0x8000_0000) {
        return Err(ImagePdfError::InvalidImage);
    }
    match checked_dimensions(width, height) {
        Err(error) => {
            return Err(error);
        },
        Ok(()) => {},
    }
    let bits: u16 = u16_at(b, 28);
    if u16_at(b, 26) != 1 || (bits != 24 && bits != 32) || u32_at(b, 30) != 0 || u32_at(b, 46) != 0
        || u32_at(b, 50) != 0 {
        return Err(ImagePdfError::UnsupportedImage);
    }
    let channels: usize = if bits == 24 {
        3
    } else {
        4
    };
    let shape = BmpShape { width, height, top_down, channels };
    let row_bytes: usize = width as usize * channels;
    let stride: usize = (row_bytes + 3) / 4 * 4;
    assert(stride * height <= 80_000 * 20_000 && width * height * channels <= MAX_PIXELS * 4)
        by (nonlinear_arith)
        requires
            0 <= stride <= 80_000,
            0 < height <= 20_000,
            width * height <= MAX_PIXELS,
            0 < channels <= 4,
    ;
    let encoded: u64 = stride as u64 * height as u64;
    let declared: u32 = u32_at(b, 34);
    if HEADER_BYTES as u64 + encoded != b.len() as u64 || (declared != 0 && declared as u64
        != encoded) {
        return Err(ImagePdfError::InvalidImage);
    }
    let pixels: u64 = width as u64 * height as u64;
    if pixels * channels as u64 > MAX_DECODED_BYTES as u64 {
        return Err(ImagePdfError::TooLarge);
    }
    Ok(shape)
}

/// Where a pixel's byte stands.
proof fn lemma_source(shape: Shape, row: int, column: int, channel: int)
    requires
        0 <= row,
        0 <= column < shape.width,
        0 <= channel < shape.channels,
    ensures
        ({
            let i = row * shape.row_bytes() + column * shape.channels + channel;
            &&& i / shape.row_bytes() == row
            &&& i % shape.row_bytes() / shape.channels == column
            &&& i % shape.row_bytes() % shape.channels == channel
        }),
{
    let within = column * shape.channels + channel;
    assert(0 <= within < shape.width * shape.channels) by (nonlinear_arith)
        requires
            within == column * shape.channels + channel,
            0 <= column < shape.width,
            0 <= channel < shape.channels,
    ;
    raster::lemma_place(row, shape.row_bytes(), within);
    raster::lemma_place(column, shape.channels, channel);
}

fn push_row(b: &[u8], shape: &BmpShape, row: u32, out: &mut Vec<u8>)
    requires
        shape_of(b@) == Ok::<Shape, Fault>(shape@),
        row < shape.height,
        old(out)@.len() == row * shape@.row_bytes(),
    ensures
        final(out)@.len() == (row + 1) * shape@.row_bytes(),
        forall|i: int| 0 <= i < old(out)@.len() ==> #[trigger] final(out)@[i] == old(out)@[i],
        forall|i: int|
            old(out)@.len() <= i < final(out)@.len() ==> #[trigger] final(out)@[i] == b@[source_of(
                shape@,
                i,
            )],
{
    let ghost before = out@;
    let file_row: u32 = if shape.top_down {
        row
    } else {
        shape.height - 1 - row
    };
    let channels = shape.channels;
    assert(shape.width <= MAX_SIDE && (channels == 3 || channels == 4));
    assert(shape.width * channels <= 80_000) by (nonlinear_arith)
        requires
            shape.width <= 20_000,
            channels <= 4,
    ;
    let row_bytes: usize = shape.width as usize * channels;
    let stride: usize = (row_bytes + 3) / 4 * 4;
    assert(file_row * stride + stride <= stride * shape.height && row_bytes <= stride)
        by (nonlinear_arith)
        requires
            0 <= file_row < shape.height,
            stride == (row_bytes + 3) / 4 * 4,
            row_bytes >= 0,
    ;
    assert(b@.len() == HEADER_BYTES + stride * shape.height);
    let start: usize = HEADER_BYTES + file_row as usize * stride;
    let mut column: u32 = 0;
    let mut at: usize = start;
    while column < shape.width
        invariant
            column <= shape.width,
            channels == shape.channels,
            channels == 3 || channels == 4,
            row_bytes == shape.width * channels,
            row_bytes <= stride,
            stride == shape@.stride(),
            start == HEADER_BYTES + file_row * stride,
            start + stride <= b@.len() <= usize::MAX,
            at == start + column * channels,
            file_row == (if shape.top_down {
                row as int
            } else {
                shape.height - 1 - row
            }),
            before.len() == row * shape@.row_bytes(),
            out@.len() == before.len() + column * channels,
            forall|i: int| 0 <= i < before.len() ==> #[trigger] out@[i] == before[i],
            forall|i: int|
                before.len() <= i < out@.len() ==> #[trigger] out@[i] == b@[source_of(shape@, i)],
        decreases shape.width - column,
    {
        assert(at + channels <= start + row_bytes && (column + 1) * channels == column * channels
            + channels) by (nonlinear_arith)
            requires
                at == start + column * channels,
                column < shape.width,
                row_bytes == shape.width * channels,
        ;
        proof {
            lemma_source(shape@, row as int, column as int, 0);
            lemma_source(shape@, row as int, column as int, 1);
            lemma_source(shape@, row as int, column as int, 2);
            if channels == 4 {
                lemma_source(shape@, row as int, column as int, 3);
            }
        }
        let ghost filled = out@.len() as int;
        out.push(b[at + 2]);
        out.push(b[at + 1]);
        out.push(b[at]);
        if channels == 4 {
            out.push(b[at + 3]);
        }
        assert(out@[filled] == b@[source_of(shape@, filled)]);
        assert(out@[filled + 1] == b@[source_of(shape@, filled + 1)]);
        assert(out@[filled + 2] == b@[source_of(shape@, filled + 2)]);
        assert(channels == 4 ==> out@[filled + 3] == b@[source_of(shape@, filled + 3)]);
        at += channels;
        column += 1;
    }
    assert(before.len() + shape.width * channels == (row + 1) * shape@.row_bytes())
        by (nonlinear_arith)
        requires
            before.len() == row * shape@.row_bytes(),
            shape@.row_bytes() == shape.width * channels,
    ;
}

/// Reads an uncompressed image with 24 or 32 bits per pixel.
pub fn decode_bmp<F: Fn() -> bool>(b: &[u8], should_stop: &F) -> (r: Result<
    RasterImage,
    ImagePdfError,
>)
    requires
        should_stop.requires(()),
    ensures
        stopping::always(*should_stop) ==> halted(r, *should_stop),
        concludes(r, bmp_image(b@), *should_stop),
{
    if should_stop() {
        return Err(ImagePdfError::Cancelled);
    }
    let shape = match read_shape(b) {
        Err(error) => {
            return Err(error);
        },
        Ok(shape) => shape,
    };
    let mut pixels: Vec<u8> = Vec::new();
    let mut row: u32 = 0;
    while row < shape.height
        invariant
            row <= shape.height,
            shape_of(b@) == Ok::<Shape, Fault>(shape@),
            should_stop.requires(()),
            pixels@.len() == row * shape@.row_bytes(),
            forall|i: int|
                0 <= i < pixels@.len() ==> #[trigger] pixels@[i] == b@[source_of(shape@, i)],
        decreases shape.height - row,
    {
        if should_stop() {
            return Err(ImagePdfError::Cancelled);
        }
        push_row(b, &shape, row, &mut pixels);
        row += 1;
    }
    if should_stop() {
        return Err(ImagePdfError::Cancelled);
    }
    assert(shape.height * (shape.width * shape.channels) == shape.width * shape.height
        * shape.channels) by (nonlinear_arith);
    let color = if shape.channels == 4 {
        PixelColor::Rgba
    } else {
        PixelColor::Rgb
    };
    let image = RasterImage { width: shape.width, height: shape.height, color, pixels };
    assert(image@.pixels =~= bmp_image(b@)->Ok_0.pixels);
    Ok(image)
}

} // verus!
