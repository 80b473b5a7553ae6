//! Writing images of red, green and blue dots.

use vstd::prelude::*;

use crate::bytes;
use crate::bytes::{push_u16_le, push_u32_le};
use crate::image::bmp;
use crate::image::error::Fault;
use crate::image::raster::{allowed_size, PixelColor, Raster};
use crate::render::error::{turns_out, Problem, RenderError};
use crate::render::image_format;
use crate::render::image_format::{check_rgb_buffer, ImageFormat, MAX_PIXELS};

verus! {

/// What `png::Encoder` makes of eight-bit red, green and blue dots; nothing if it
/// fails.
pub uninterp spec fn png_file_of(width: u32, height: u32, pixels: Seq<u8>) -> Option<Seq<u8>>;

/// What `jpeg_encoder::Encoder::encode` makes of red, green and blue dots; nothing
/// if it fails.
pub uninterp spec fn jpg_file_of(
    width: u16,
    height: u16,
    pixels: Seq<u8>,
    quality: u8,
) -> Option<Seq<u8>>;

/// What `gif::Encoder::write_frame` makes of the frame that
/// `gif::Frame::from_rgb_speed` makes of red, green and blue dots; nothing if it
/// fails.
pub uninterp spec fn gif_file_of(
    width: u16,
    height: u16,
    pixels: Seq<u8>,
    speed: i32,
) -> Option<Seq<u8>>;

/// What `image_webp::WebPEncoder::encode` makes of red, green and blue dots;
/// nothing if it fails.
pub uninterp spec fn webp_file_of(width: u32, height: u32, pixels: Seq<u8>) -> Option<Seq<u8>>;

/// What `tiff::encoder::TiffEncoder::write_image` makes of red, green and blue
/// dots with Deflate compression and horizontal prediction; nothing if it fails.
pub uninterp spec fn tiff_file_of(width: u32, height: u32, pixels: Seq<u8>) -> Option<Seq<u8>>;

/// What contracts say of a file that may be missing.
pub open spec fn seen(r: Option<Vec<u8>>) -> Option<Seq<u8>> {
    match r {
        None => None,
        Some(bytes) => Some(bytes@),
    }
}

/// Calls `png::Encoder::write_header` and `png::Writer::write_image_data`.
#[verifier::external_body]
fn encode_png(width: u32, height: u32, pixels: &[u8]) -> (r: Option<Vec<u8>>)
    requires
        pixels@.len() == width * height * 3,
    ensures
        seen(r) == png_file_of(width, height, pixels@),
{
    let mut out = Vec::new();
    let mut encoder = png::Encoder::new(&mut out, width, height);
    encoder.set_color(png::ColorType::Rgb);
    encoder.set_depth(png::BitDepth::Eight);
    let done = encoder.write_header().and_then(|mut writer| writer.write_image_data(pixels));
    done.ok().map(|_| out)
}

/// Calls `jpeg_encoder::Encoder::encode`.
#[verifier::external_body]
fn encode_jpg(width: u16, height: u16, pixels: &[u8], quality: u8) -> (r: Option<Vec<u8>>)
    requires
        1 <= quality <= 100,
        pixels@.len() == width * height * 3,
    ensures
        seen(r) == jpg_file_of(width, height, pixels@, quality),
{
    let mut out = Vec::new();
    let encoder = jpeg_encoder::Encoder::new(&mut out, quality);
    let done = encoder.encode(pixels, width, height, jpeg_encoder::ColorType::Rgb);
    done.ok().map(|_| out)
}

/// Calls `gif::Frame::from_rgb_speed`, `gif::Encoder::write_frame` and
/// `gif::Encoder::into_inner`.
#[verifier::external_body]
fn encode_gif(width: u16, height: u16, pixels: &[u8], speed: i32) -> (r: Option<Vec<u8>>)
    requires
        1 <= speed <= 30,
        pixels@.len() == width * height * 3,
    ensures
        seen(r) == gif_file_of(width, height, pixels@, speed),
{
    let frame = gif::Frame::from_rgb_speed(width, height, pixels, speed);
    let mut encoder = gif::Encoder::new(Vec::new(), width, height, &[]).ok()?;
    encoder.write_frame(&frame).ok()?;
    encoder.into_inner().ok()
}

/// Calls `image_webp::WebPEncoder::encode`.
#[verifier::external_body]
fn encode_webp(width: u32, height: u32, pixels: &[u8]) -> (r: Option<Vec<u8>>)
    requires
        pixels@.len() == width * height * 3,
    ensures
        seen(r) == webp_file_of(width, height, pixels@),
{
    let mut out = Vec::new();
    let encoder = image_webp::WebPEncoder::new(&mut out);
    let done = encoder.encode(pixels, width, height, image_webp::ColorType::Rgb8);
    done.ok().map(|_| out)
}

/// Calls `tiff::encoder::TiffEncoder::write_image`.
#[verifier::external_body]
fn encode_tiff(width: u32, height: u32, pixels: &[u8]) -> (r: Option<Vec<u8>>)
    requires
        pixels@.len() == width * height * 3,
    ensures
        seen(r) == tiff_file_of(width, height, pixels@),
{
    let mut out = std::io::Cursor::new(Vec::new());
    let encoder = tiff::encoder::TiffEncoder::new(&mut out).ok()?;
    let encoder = encoder.with_compression(tiff::encoder::Compression::Deflate(Default::default()));
    let mut encoder = encoder.with_predictor(tiff::encoder::Predictor::Horizontal);
    encoder.write_image::<tiff::encoder::colortype::RGB8>(width, height, pixels).ok()?;
    Some(out.into_inner())
}

/// How many bytes a row of a BMP file takes: a multiple of four.
pub open spec fn bmp_stride(width: u32) -> int {
    (width * 3 + 3) / 4 * 4
}

/// How many bytes the rows of a BMP file take.
pub open spec fn bmp_bytes(width: u32, height: u32) -> int {
    bmp_stride(width) * height
}

/// The headers of a BMP file.
#[verifier::opaque]
pub open spec fn bmp_head(width: u32, height: u32) -> Seq<u8> {
    seq![0x42u8, 0x4du8] + bytes::le32((bmp_bytes(width, height) + 54) as u32) + bytes::le32(0)
        + bytes::le32(54) + bytes::le32(40) + bytes::le32(width) + bytes::le32(height)
        + bytes::le16(1) + bytes::le16(24) + bytes::le32(0) + bytes::le32(
        bmp_bytes(width, height) as u32,
    ) + bytes::le32(0) + bytes::le32(0) + bytes::le32(0) + bytes::le32(0)
}

/// The `i`-th byte of the rows of a BMP file: rows from the bottom, blue before
/// green before red, and zeros up to the end of the row.
pub open spec fn bmp_byte(width: u32, height: u32, pixels: Seq<u8>, i: int) -> u8 {
    let row = height - 1 - i / bmp_stride(width);
    let at = i % bmp_stride(width);
    if at < width * 3 {
        pixels[row * (width * 3) + at / 3 * 3 + (2 - at % 3)]
    } else {
        0u8
    }
}

/// A BMP file.
pub open spec fn bmp_file(width: u32, height: u32, pixels: Seq<u8>) -> Seq<u8> {
    bmp_head(width, height) + Seq::new(
        bmp_bytes(width, height) as nat,
        |i: int| bmp_byte(width, height, pixels, i),
    )
}

proof fn lemma_bmp_bytes(width: u32, height: u32)
    requires
        width > 0,
        height > 0,
        width * height <= MAX_PIXELS,
    ensures
        width <= MAX_PIXELS,
        height <= MAX_PIXELS,
        width * 3 <= bmp_stride(width) <= width * 3 + 3,
        0 < bmp_bytes(width, height) <= 6 * MAX_PIXELS,
{
    assert(width <= width * height && height <= width * height) by (nonlinear_arith)
        requires
            width > 0,
            height > 0,
    ;
    let stride = bmp_stride(width);
    assert(0 < stride * height <= 6 * (width * height)) by (nonlinear_arith)
        requires
            0 < stride <= 6 * width,
            height > 0,
    ;
}

fn head_of_bmp(width: u32, height: u32, count: u32) -> (r: Vec<u8>)
    requires
        count == bmp_bytes(width, height),
        count <= 6 * MAX_PIXELS,
    ensures
        r@ == bmp_head(width, height),
{
    reveal(bmp_head);
    let mut out: Vec<u8> = Vec::new();
    out.push(0x42);
    out.push(0x4d);
    assert(out@ =~= seq![0x42u8, 0x4du8]);
    push_u32_le(&mut out, count + 54);
    push_u32_le(&mut out, 0);
    push_u32_le(&mut out, 54);
    push_u32_le(&mut out, 40);
    push_u32_le(&mut out, width);
    push_u32_le(&mut out, height);
    push_u16_le(&mut out, 1);
    push_u16_le(&mut out, 24);
    push_u32_le(&mut out, 0);
    push_u32_le(&mut out, count);
    push_u32_le(&mut out, 0);
    push_u32_le(&mut out, 0);
    push_u32_le(&mut out, 0);
    push_u32_le(&mut out, 0);
    out
}

proof fn lemma_row_place(row: int, at: int, stride: int)
    requires
        0 <= at < stride,
        0 <= row,
    ensures
        (row * stride + at) / stride == row,
        (row * stride + at) % stride == at,
{
    vstd::arithmetic::div_mod::lemma_fundamental_div_mod_converse(
        row * stride + at,
        stride,
        row,
        at,
    );
}

/// A source row is within the pixels.
proof fn lemma_source(width: u32, height: u32, row: int, at: int)
    requires
        0 <= row < height,
        0 <= at < width * 3,
    ensures
        0 <= row * (width * 3) + at < width * height * 3,
{
    let wide = width * 3;
    assert(0 <= row * wide && row * wide + wide <= height * wide) by (nonlinear_arith)
        requires
            0 <= row < height,
            wide >= 0,
    ;
    assert(height * wide == width * height * 3) by (nonlinear_arith)
        requires
            wide == width * 3,
    ;
}

/// Writes a BMP file.
pub fn encode_bmp(width: u32, height: u32, pixels: &[u8]) -> (r: Vec<u8>)
    requires
        width > 0,
        height > 0,
        width * height <= MAX_PIXELS,
        image_format::whole_rgb(width, height, pixels@.len() as int),
    ensures
        r@ == bmp_file(width, height, pixels@),
{
    proof {
        lemma_bmp_bytes(width, height);
    }
    let wide: u32 = width * 3;
    let stride: u32 = (wide + 3) / 4 * 4;
    let count: u32 = stride * height;
    let mut out: Vec<u8> = head_of_bmp(width, height, count);
    let ghost head = out@;
    let ghost body = Seq::new(count as nat, |i: int| bmp_byte(width, height, pixels@, i));
    let mut row: u32 = 0;
    assert(0 * stride == 0) by (nonlinear_arith);
    assert(out@ =~= head + body.take(0));
    while row < height
        invariant
            row <= height,
            wide == width * 3,
            stride == bmp_stride(width),
            wide <= stride,
            count == stride * height,
            width * height <= MAX_PIXELS,
            pixels@.len() == width * height * 3,
            pixels@.len() <= 3 * MAX_PIXELS,
            body == Seq::new(count as nat, |i: int| bmp_byte(width, height, pixels@, i)),
            out@ == head + body.take(row * stride),
        decreases height - row,
    {
        let source: u32 = height - 1 - row;
        let mut at: u32 = 0;
        assert(row * stride + stride <= height * stride) by (nonlinear_arith)
            requires
                row < height,
                stride >= 0,
        ;
        assert(height * stride == stride * height) by (nonlinear_arith);
        while at < stride
            invariant
                at <= stride,
                row < height,
                source == height - 1 - row,
                wide == width * 3,
                stride == bmp_stride(width),
                wide <= stride,
                count == stride * height,
                row * stride + stride <= count,
                0 <= row * stride,
                width * height <= MAX_PIXELS,
                pixels@.len() == width * height * 3,
                pixels@.len() <= 3 * MAX_PIXELS,
                body == Seq::new(count as nat, |i: int| bmp_byte(width, height, pixels@, i)),
                out@ == head + body.take(row * stride + at),
            decreases stride - at,
        {
            let ghost i = row * stride + at;
            let ghost before = out@;
            proof {
                lemma_row_place(row as int, at as int, stride as int);
            }
            let byte: u8 = if at < wide {
                let within: u32 = at / 3 * 3 + (2 - at % 3);
                proof {
                    lemma_source(width, height, source as int, within as int);
                }
                let place: usize = source as usize * wide as usize + within as usize;
                pixels[place]
            } else {
                0
            };
            out.push(byte);
            assert(body[i] == byte);
            assert(body.take(i + 1) =~= body.take(i).push(byte));
            assert(out@ =~= head + body.take(i + 1));
            at += 1;
        }
        assert((row + 1) * stride == row * stride + stride) by (nonlinear_arith);
        row += 1;
    }
    assert(height * stride == stride * height) by (nonlinear_arith);
    assert(body.take(row * stride) =~= body);
    assert(out@ =~= bmp_file(width, height, pixels@));
    out
}

/// The file that an image is written as.
pub open spec fn image_file(
    width: u32,
    height: u32,
    pixels: Seq<u8>,
    format: ImageFormat,
    quality: u8,
) -> Result<Seq<u8>, Problem> {
    let clamped = if quality < 1 {
        1u8
    } else if quality > 100 {
        100u8
    } else {
        quality
    };
    if !image_format::allowed(width, height, format) {
        Err(Problem::PixelLimit)
    } else if !image_format::whole_rgb(width, height, pixels.len() as int) {
        Err(Problem::Encoding)
    } else {
        encoded(
            match format {
                ImageFormat::Png => png_file_of(width, height, pixels),
                ImageFormat::Jpg => jpg_file_of(width as u16, height as u16, pixels, clamped),
                ImageFormat::Bmp => Some(bmp_file(width, height, pixels)),
                ImageFormat::Gif => gif_file_of(width as u16, height as u16, pixels, GIF_SPEED),
                ImageFormat::Webp => webp_file_of(width, height, pixels),
                ImageFormat::Tiff => tiff_file_of(width, height, pixels),
            },
        )
    }
}

/// How much quality a GIF image gives up for speed, between 1 and 30.
pub const GIF_SPEED: i32 = 10;

/// What comes of an encoder that may have failed.
pub open spec fn encoded(file: Option<Seq<u8>>) -> Result<Seq<u8>, Problem> {
    match file {
        Some(file) => Ok(file),
        None => Err(Problem::Encoding),
    }
}

/// What comes of an encoder that may have failed.
pub fn encoder_outcome(file: Option<Vec<u8>>) -> (r: Result<Vec<u8>, RenderError>)
    ensures
        turns_out(r, encoded(seen(file))),
{
    match file {
        Some(file) => Ok(file),
        None => Err(RenderError::Encoding),
    }
}

/// Writes an image.
pub fn write_image(
    width: u32,
    height: u32,
    pixels: &[u8],
    format: ImageFormat,
    jpg_quality: u8,
) -> (r: Result<Vec<u8>, RenderError>)
    ensures
        turns_out(r, image_file(width, height, pixels@, format, jpg_quality)),
{
    match check_rgb_buffer(width, height, pixels, format) {
        Err(error) => {
            return Err(error);
        },
        Ok(()) => {},
    }
    let quality: u8 = if jpg_quality < 1 {
        1
    } else if jpg_quality > 100 {
        100
    } else {
        jpg_quality
    };
    match format {
        ImageFormat::Png => encoder_outcome(encode_png(width, height, pixels)),
        ImageFormat::Jpg => encoder_outcome(
            encode_jpg(width as u16, height as u16, pixels, quality),
        ),
        ImageFormat::Bmp => Ok(encode_bmp(width, height, pixels)),
        ImageFormat::Gif => encoder_outcome(
            encode_gif(width as u16, height as u16, pixels, GIF_SPEED),
        ),
        ImageFormat::Webp => encoder_outcome(encode_webp(width, height, pixels)),
        ImageFormat::Tiff => encoder_outcome(encode_tiff(width, height, pixels)),
    }
}

/// The numbers in the headers of a BMP file.
#[verifier::rlimit(60)]
proof fn lemma_head(width: u32, height: u32, file: Seq<u8>, body: Seq<u8>)
    requires
        file == bmp_head(width, height) + body,
    ensures
        bmp_head(width, height).len() == 54,
        file[0] == 0x42,
        file[1] == 0x4d,
        bytes::u32_le(file, 2) == Some((bmp_bytes(width, height) + 54) as u32),
        bytes::u16_le(file, 6) == Some(0u16),
        bytes::u16_le(file, 8) == Some(0u16),
        bytes::u32_le(file, 10) == Some(54u32),
        bytes::u32_le(file, 14) == Some(40u32),
        bytes::u32_le(file, 18) == Some(width),
        bytes::u32_le(file, 22) == Some(height),
        bytes::u16_le(file, 26) == Some(1u16),
        bytes::u16_le(file, 28) == Some(24u16),
        bytes::u32_le(file, 30) == Some(0u32),
        bytes::u32_le(file, 34) == Some(bmp_bytes(width, height) as u32),
        bytes::u32_le(file, 46) == Some(0u32),
        bytes::u32_le(file, 50) == Some(0u32),
{
    reveal(bmp_head);
    let total = (bmp_bytes(width, height) + 54) as u32;
    let count = bmp_bytes(width, height) as u32;
    let h = bmp_head(width, height);
    assert(h.len() == 54);
    assert forall|i: int| 0 <= i < 54 implies #[trigger] file[i] == h[i] by {}
    assert(h[0] == 0x42 && h[1] == 0x4d);
    assert(file.subrange(2, 6) =~= bytes::le32(total));
    assert(file.subrange(6, 8) =~= bytes::le16(0));
    assert(file.subrange(8, 10) =~= bytes::le16(0));
    assert(file.subrange(10, 14) =~= bytes::le32(54));
    assert(file.subrange(14, 18) =~= bytes::le32(40));
    assert(file.subrange(18, 22) =~= bytes::le32(width));
    assert(file.subrange(22, 26) =~= bytes::le32(height));
    assert(file.subrange(26, 28) =~= bytes::le16(1));
    assert(file.subrange(28, 30) =~= bytes::le16(24));
    assert(file.subrange(30, 34) =~= bytes::le32(0));
    assert(file.subrange(34, 38) =~= bytes::le32(count));
    assert(file.subrange(46, 50) =~= bytes::le32(0));
    assert(file.subrange(50, 54) =~= bytes::le32(0));
    bytes::law_little_endian_round_trip(file, 2, 0, total);
    bytes::law_little_endian_round_trip(file, 6, 0, 0);
    bytes::law_little_endian_round_trip(file, 8, 0, 0);
    bytes::law_little_endian_round_trip(file, 10, 0, 54);
    bytes::law_little_endian_round_trip(file, 14, 0, 40);
    bytes::law_little_endian_round_trip(file, 18, 0, width);
    bytes::law_little_endian_round_trip(file, 22, 0, height);
    bytes::law_little_endian_round_trip(file, 26, 1, 0);
    bytes::law_little_endian_round_trip(file, 28, 24, 0);
    bytes::law_little_endian_round_trip(file, 30, 0, 0);
    bytes::law_little_endian_round_trip(file, 34, 0, count);
    bytes::law_little_endian_round_trip(file, 46, 0, 0);
    bytes::law_little_endian_round_trip(file, 50, 0, 0);
}

/// Where a byte of the pixels stands among the rows of a BMP file.
proof fn lemma_bmp_place(width: u32, height: u32, pixels: Seq<u8>, i: int)
    requires
        width > 0,
        height > 0,
        0 <= i < width * height * 3,
    ensures
        ({
            let shape = bmp::Shape { width, height, top_down: false, channels: 3 };
            let j = bmp::source_of(shape, i) - 54;
            0 <= j < bmp_bytes(width, height) && bmp_byte(width, height, pixels, j) == pixels[i]
        }),
{
    let wide = width * 3;
    let stride = bmp_stride(width);
    let row = i / wide;
    let within = i % wide;
    assert(i == wide * row + within && 0 <= within < wide && row >= 0) by (nonlinear_arith)
        requires
            wide > 0,
            i >= 0,
            row == i / wide,
            within == i % wide,
    ;
    assert(wide * height == width * height * 3) by (nonlinear_arith)
        requires
            wide == width * 3,
    ;
    assert(row < height) by (nonlinear_arith)
        requires
            i == wide * row + within,
            within >= 0,
            i < wide * height,
            wide > 0,
    ;
    let column = within / 3;
    let channel = within % 3;
    let file_row = height - 1 - row;
    let at = column * 3 + (2 - channel);
    assert(0 <= at < wide);
    assert(at / 3 == column && at % 3 == 2 - channel);
    lemma_row_place(file_row, at, stride);
    assert(0 <= file_row * stride && file_row * stride + stride <= height * stride)
        by (nonlinear_arith)
        requires
            0 <= file_row < height,
            stride > 0,
    ;
    assert(height * stride == stride * height) by (nonlinear_arith);
    assert(wide * row == row * wide) by (nonlinear_arith);
}

/// An image that was written as a BMP file is read back, if it is not too large
/// for a reader.
pub proof fn law_bmp_is_read_back(width: u32, height: u32, pixels: Seq<u8>)
    requires
        allowed_size(width as int, height as int),
        image_format::whole_rgb(width, height, pixels.len() as int),
    ensures
        bmp::bmp_image(bmp_file(width, height, pixels)) == Ok::<Raster, Fault>(
            Raster { width, height, color: PixelColor::Rgb, pixels },
        ),
{
    lemma_bmp_bytes(width, height);
    let body = Seq::new(
        bmp_bytes(width, height) as nat,
        |i: int| bmp_byte(width, height, pixels, i),
    );
    let file = bmp_file(width, height, pixels);
    lemma_head(width, height, file, body);
    let shape = bmp::Shape { width, height, top_down: false, channels: 3 };
    assert(shape.row_bytes() == width * 3);
    assert(shape.stride() == bmp_stride(width));
    assert(file.len() == 54 + shape.stride() * height);
    assert(bmp::shape_of(file) == Ok::<bmp::Shape, Fault>(shape));
    let read = Seq::new(
        (shape.width * shape.height * shape.channels) as nat,
        |i: int| file[bmp::source_of(shape, i)],
    );
    assert forall|i: int| 0 <= i < pixels.len() implies read[i] == pixels[i] by {
        lemma_bmp_place(width, height, pixels, i);
    }
    assert(read =~= pixels);
}

} // verus!
