//! Decoding PNG, GIF, WebP and TIFF images.

use std::io::{Cursor, ErrorKind};
use std::num::NonZeroU64;

use gif::DecodingError as GifError;
use image_webp::DecodingError as WebpError;
use png::DecodingError as PngError;

use vstd::prelude::*;

use crate::image::error::{
    concludes, gives, halted, input_fault, input_io_error, Fault, ImagePdfError, IoKind,
};
use crate::image::raster;
use crate::image::raster::{
    checked_dimensions, decoded_size, PixelColor, Raster, RasterImage, MAX_DECODED_BYTES,
};
use crate::stopping;

verus! {

/// How decoding fails.
#[derive(Debug)]
pub enum CodecError {
    /// Reading failed, `true` if the data ended too early.
    Io(bool, String),
    Limit,
    Unsupported,
    Invalid,
}

/// What contracts say of a `CodecError`.
pub enum Trouble {
    Io(bool, Seq<char>),
    Limit,
    Unsupported,
    Invalid,
}

impl View for CodecError {
    type V = Trouble;

    open spec fn view(&self) -> Trouble {
        match *self {
            CodecError::Io(early, message) => Trouble::Io(early, message@),
            CodecError::Limit => Trouble::Limit,
            CodecError::Unsupported => Trouble::Unsupported,
            CodecError::Invalid => Trouble::Invalid,
        }
    }
}

/// What failing to decode means for a conversion.
pub open spec fn fault_of(trouble: Trouble) -> Fault {
    match trouble {
        Trouble::Io(early, message) => input_fault(
            if early {
                IoKind::UnexpectedEof
            } else {
                IoKind::Other
            },
            message,
        ),
        Trouble::Limit => Fault::TooLarge,
        Trouble::Unsupported => Fault::UnsupportedImage,
        Trouble::Invalid => Fault::InvalidImage,
    }
}

/// What failing to decode means for a conversion.
pub fn codec_error(error: CodecError) -> (r: ImagePdfError)
    ensures
        r@ == fault_of(error@),
{
    match error {
        CodecError::Io(early, message) => input_io_error(
            if early {
                IoKind::UnexpectedEof
            } else {
                IoKind::Other
            },
            message,
        ),
        CodecError::Limit => ImagePdfError::TooLarge,
        CodecError::Unsupported => ImagePdfError::UnsupportedImage,
        CodecError::Invalid => ImagePdfError::InvalidImage,
    }
}

pub open spec fn seen<T>(r: Result<T, CodecError>) -> Result<T, Trouble> {
    match r {
        Ok(value) => Ok(value),
        Err(error) => Err(error@),
    }
}

pub open spec fn seen_bytes(r: Result<Vec<u8>, CodecError>) -> Result<Seq<u8>, Trouble> {
    match r {
        Ok(value) => Ok(value@),
        Err(error) => Err(error@),
    }
}

/// What the headers of a PNG image say, and what its pixels are decoded to.
/// Colours and depths are the numbers that the format has for them.
#[derive(Debug, Clone, Copy, PartialEq, Eq, Structural)]
pub struct PngHeader {
    pub width: u32,
    pub height: u32,
    pub depth: u8,
    pub animated: bool,
    pub profile: bool,
    pub color_out: u8,
    pub depth_out: u8,
}

/// The decoded pixels of a PNG image.
#[derive(Debug)]
pub struct PngFrame {
    pub width: u32,
    pub height: u32,
    pub size: usize,
    pub pixels: Vec<u8>,
}

/// What contracts say of a `PngFrame`.
pub struct Frame {
    pub width: u32,
    pub height: u32,
    pub size: usize,
    pub pixels: Seq<u8>,
}

impl View for PngFrame {
    type V = Frame;

    open spec fn view(&self) -> Frame {
        Frame {
            width: self.width,
            height: self.height,
            size: self.size,
            pixels: self.pixels@,
        }
    }
}

pub open spec fn seen_frame(r: Result<PngFrame, CodecError>) -> Result<Frame, Trouble> {
    match r {
        Ok(frame) => Ok(frame@),
        Err(error) => Err(error@),
    }
}

/// What `png::Decoder::read_info` finds, with palettes expanded and at most
/// `limit` bytes of memory.
pub uninterp spec fn png_header_of(b: Seq<u8>, limit: usize) -> Result<PngHeader, Trouble>;

/// What `png::Reader::next_frame` then decodes.
pub uninterp spec fn png_frame_of(b: Seq<u8>, limit: usize) -> Result<Frame, Trouble>;

/// Calls `png::Decoder::read_info`, `Reader::info` and
/// `Reader::output_color_type`.
#[verifier::external_body]
fn read_png_header(b: &[u8], limit: usize) -> (r: Result<PngHeader, CodecError>)
    ensures
        seen(r) == png_header_of(b@, limit),
{
    let mut decoder = png::Decoder::new_with_limits(b, png::Limits { bytes: limit });
    decoder.set_transformations(png::Transformations::EXPAND);
    decoder.set_ignore_text_chunk(true);
    let reader = decoder.read_info().map_err(|error| match error {
        PngError::LimitsExceeded => CodecError::Limit,
        PngError::IoError(error) => CodecError::Io(error.kind() == ErrorKind::UnexpectedEof, error.to_string()),
        _ => CodecError::Invalid,
    })?;
    let (info, (color, depth)) = (reader.info(), reader.output_color_type());
    Ok(PngHeader {
        width: info.width, height: info.height, depth: info.bit_depth as u8,
        animated: info.animation_control.is_some(), profile: info.icc_profile.is_some(), color_out: color as u8, depth_out: depth as u8,
    })
}

/// Calls `png::Reader::next_frame` on a buffer of `Reader::output_buffer_size`
/// bytes. The image must have a size whose bytes can be counted.
#[verifier::external_body]
fn read_png_frame(b: &[u8], limit: usize) -> (r: Result<PngFrame, CodecError>)
    requires
        png_header_of(b@, limit) matches Ok(header) && raster::allowed_size(
            header.width as int,
            header.height as int,
        ),
    ensures
        seen_frame(r) == png_frame_of(b@, limit),
{
    let mut decoder = png::Decoder::new_with_limits(b, png::Limits { bytes: limit });
    decoder.set_transformations(png::Transformations::EXPAND);
    decoder.set_ignore_text_chunk(true);
    let frame = decoder.read_info().and_then(|mut reader| {
        let mut pixels = vec![0u8; reader.output_buffer_size()];
        let output = reader.next_frame(&mut pixels)?;
        Ok(PngFrame { width: output.width, height: output.height, size: output.buffer_size(), pixels })
    });
    frame.map_err(|error| match error {
        PngError::LimitsExceeded => CodecError::Limit,
        PngError::IoError(error) => CodecError::Io(error.kind() == ErrorKind::UnexpectedEof, error.to_string()),
        _ => CodecError::Invalid,
    })
}

/// What `png::Reader::finish` says of the data behind the pixels.
pub uninterp spec fn png_rest_of(b: Seq<u8>, limit: usize) -> Result<(), Trouble>;

/// Calls `png::Reader::finish` behind the decoded pixels.
#[verifier::external_body]
fn read_png_rest(b: &[u8], limit: usize) -> (r: Result<(), CodecError>)
    requires
        png_header_of(b@, limit) matches Ok(header) && raster::allowed_size(
            header.width as int,
            header.height as int,
        ),
    ensures
        seen(r) == png_rest_of(b@, limit),
{
    let mut decoder = png::Decoder::new_with_limits(b, png::Limits { bytes: limit });
    decoder.set_transformations(png::Transformations::EXPAND);
    decoder.set_ignore_text_chunk(true);
    let rest = decoder.read_info().and_then(|mut reader| {
        let mut pixels = vec![0u8; reader.output_buffer_size()];
        reader.next_frame(&mut pixels)?;
        reader.finish()
    });
    rest.map_err(|error| match error {
        PngError::LimitsExceeded => CodecError::Limit,
        PngError::IoError(error) => CodecError::Io(error.kind() == ErrorKind::UnexpectedEof, error.to_string()),
        _ => CodecError::Invalid,
    })
}

/// The first frame of a GIF image: its size and place.
#[derive(Debug, Clone, Copy, PartialEq, Eq, Structural)]
pub struct GifFrame {
    pub width: u16,
    pub height: u16,
    pub left: u16,
    pub top: u16,
}

/// The size of the screen that `gif::DecodeOptions::read_info` finds, with at
/// most `limit` bytes of memory.
pub uninterp spec fn gif_screen_of(b: Seq<u8>, limit: u64) -> Result<(u16, u16), Trouble>;

/// The first frame that `gif::Decoder::next_frame_info` finds.
pub uninterp spec fn gif_frame_of(b: Seq<u8>, limit: u64) -> Result<Option<GifFrame>, Trouble>;

/// The bytes that `gif::Decoder::read_into_buffer` makes of the first frame, as
/// many as `gif::Decoder::buffer_size` says.
pub uninterp spec fn gif_pixels_of(b: Seq<u8>, limit: u64) -> Result<Seq<u8>, Trouble>;

/// Whether `gif::Decoder::next_frame_info` finds a second frame, and whether
/// `gif::Decoder::icc_profile` has found a profile.
pub uninterp spec fn gif_rest_of(b: Seq<u8>, limit: u64) -> Result<(bool, bool), Trouble>;

/// Calls `gif::DecodeOptions::read_info`, `Decoder::width` and
/// `Decoder::height`, with frames and end codes checked.
#[verifier::external_body]
fn read_gif_screen(b: &[u8], limit: u64) -> (r: Result<(u16, u16), CodecError>)
    requires
        limit > 0,
    ensures
        seen(r) == gif_screen_of(b@, limit),
{
    let mut options = gif::DecodeOptions::new();
    options.set_color_output(gif::ColorOutput::RGBA);
    options.set_memory_limit(gif::MemoryLimit::Bytes(NonZeroU64::new(limit).unwrap()));
    options.check_frame_consistency(true);
    options.check_lzw_end_code(true);
    options.read_info(b).map(|reader| (reader.width(), reader.height())).map_err(|error| match error {
        GifError::MemoryLimit | GifError::OutOfMemory => CodecError::Limit,
        GifError::Io(error) => CodecError::Io(error.kind() == ErrorKind::UnexpectedEof, error.to_string()),
        _ => CodecError::Invalid,
    })
}

/// Calls `gif::Decoder::next_frame_info`.
#[verifier::external_body]
fn read_gif_frame(b: &[u8], limit: u64) -> (r: Result<Option<GifFrame>, CodecError>)
    requires
        limit > 0,
    ensures
        seen(r) == gif_frame_of(b@, limit),
{
    let mut options = gif::DecodeOptions::new();
    options.set_color_output(gif::ColorOutput::RGBA);
    options.set_memory_limit(gif::MemoryLimit::Bytes(NonZeroU64::new(limit).unwrap()));
    options.check_frame_consistency(true);
    options.check_lzw_end_code(true);
    let frame = options.read_info(b).and_then(|mut reader| Ok(reader.next_frame_info()?.map(|frame| GifFrame { width: frame.width, height: frame.height, left: frame.left, top: frame.top })));
    frame.map_err(|error| match error {
        GifError::MemoryLimit | GifError::OutOfMemory => CodecError::Limit,
        GifError::Io(error) => CodecError::Io(error.kind() == ErrorKind::UnexpectedEof, error.to_string()),
        _ => CodecError::Invalid,
    })
}

/// Calls `gif::Decoder::read_into_buffer` on a buffer of `Decoder::buffer_size`
/// bytes. There must be a frame, of a size whose bytes can be counted.
#[verifier::external_body]
fn read_gif_pixels(b: &[u8], limit: u64) -> (r: Result<Vec<u8>, CodecError>)
    requires
        limit > 0,
        gif_frame_of(b@, limit) matches Ok(Some(frame)) && raster::allowed_size(
            frame.width as int,
            frame.height as int,
        ),
    ensures
        seen_bytes(r) == gif_pixels_of(b@, limit),
{
    let mut options = gif::DecodeOptions::new();
    options.set_color_output(gif::ColorOutput::RGBA);
    options.set_memory_limit(gif::MemoryLimit::Bytes(NonZeroU64::new(limit).unwrap()));
    options.check_frame_consistency(true);
    options.check_lzw_end_code(true);
    let pixels = options.read_info(b).and_then(|mut reader| {
        reader.next_frame_info()?;
        let mut pixels = vec![0u8; reader.buffer_size()];
        reader.read_into_buffer(&mut pixels).map(|_| pixels)
    });
    pixels.map_err(|error| match error {
        GifError::MemoryLimit | GifError::OutOfMemory => CodecError::Limit,
        GifError::Io(error) => CodecError::Io(error.kind() == ErrorKind::UnexpectedEof, error.to_string()), _ => CodecError::Invalid,
    })
}

/// Calls `gif::Decoder::next_frame_info` behind the pixels of the first frame,
/// and `Decoder::icc_profile`.
#[verifier::external_body]
fn read_gif_rest(b: &[u8], limit: u64) -> (r: Result<(bool, bool), CodecError>)
    requires
        limit > 0,
        gif_frame_of(b@, limit) matches Ok(Some(frame)) && raster::allowed_size(
            frame.width as int,
            frame.height as int,
        ),
    ensures
        seen(r) == gif_rest_of(b@, limit),
{
    let mut options = gif::DecodeOptions::new();
    options.set_color_output(gif::ColorOutput::RGBA);
    options.set_memory_limit(gif::MemoryLimit::Bytes(NonZeroU64::new(limit).unwrap()));
    options.check_frame_consistency(true);
    options.check_lzw_end_code(true);
    let rest = options.read_info(b).and_then(|mut reader| {
        reader.next_frame_info()?;
        reader.read_into_buffer(&mut vec![0u8; reader.buffer_size()])?;
        Ok((reader.next_frame_info()?.is_some(), reader.icc_profile().is_some()))
    });
    rest.map_err(|error| match error {
        GifError::MemoryLimit | GifError::OutOfMemory => CodecError::Limit,
        GifError::Io(error) => CodecError::Io(error.kind() == ErrorKind::UnexpectedEof, error.to_string()), _ => CodecError::Invalid,
    })
}

/// What the headers of a WebP image say.
#[derive(Debug, Clone, Copy, PartialEq, Eq, Structural)]
pub struct WebpHeader {
    pub width: u32,
    pub height: u32,
    pub animated: bool,
    pub frames: u32,
    pub alpha: bool,
    pub size: Option<usize>,
}

/// What `image_webp::WebPDecoder::new` finds.
pub uninterp spec fn webp_header_of(b: Seq<u8>) -> Result<WebpHeader, Trouble>;

/// Whether `WebPDecoder::icc_profile` finds a profile, with at most `limit`
/// bytes of memory.
pub uninterp spec fn webp_profile_of(b: Seq<u8>, limit: usize) -> Result<bool, Trouble>;

/// Whether `WebPDecoder::exif_metadata` finds metadata.
pub uninterp spec fn webp_exif_of(b: Seq<u8>, limit: usize) -> Result<bool, Trouble>;

/// The bytes that `WebPDecoder::read_image` decodes.
pub uninterp spec fn webp_pixels_of(b: Seq<u8>, limit: usize, size: usize) -> Result<
    Seq<u8>,
    Trouble,
>;

/// Calls `image_webp::WebPDecoder::new`, `dimensions`, `is_animated`,
/// `num_frames`, `has_alpha` and `output_buffer_size`.
#[verifier::external_body]
fn read_webp_header(b: &[u8]) -> (r: Result<WebpHeader, CodecError>)
    ensures
        seen(r) == webp_header_of(b@),
{
    let decoder = image_webp::WebPDecoder::new(Cursor::new(b)).map_err(|error| match error {
        WebpError::IoError(error) => CodecError::Io(error.kind() == ErrorKind::UnexpectedEof, error.to_string()),
        WebpError::ImageTooLarge | WebpError::MemoryLimitExceeded => CodecError::Limit,
        WebpError::UnsupportedFeature(_) => CodecError::Unsupported,
        _ => CodecError::Invalid,
    })?;
    let (width, height) = decoder.dimensions();
    Ok(WebpHeader { width, height, animated: decoder.is_animated(), frames: decoder.num_frames(), alpha: decoder.has_alpha(), size: decoder.output_buffer_size() })
}

/// Calls `WebPDecoder::icc_profile`.
#[verifier::external_body]
fn read_webp_profile(b: &[u8], limit: usize) -> (r: Result<bool, CodecError>)
    ensures
        seen(r) == webp_profile_of(b@, limit),
{
    let found = image_webp::WebPDecoder::new(Cursor::new(b)).and_then(|mut decoder| {
        decoder.set_memory_limit(limit);
        Ok(decoder.icc_profile()?.is_some())
    });
    found.map_err(|error| match error {
        WebpError::IoError(error) => CodecError::Io(error.kind() == ErrorKind::UnexpectedEof, error.to_string()),
        WebpError::ImageTooLarge | WebpError::MemoryLimitExceeded => CodecError::Limit,
        WebpError::UnsupportedFeature(_) => CodecError::Unsupported,
        _ => CodecError::Invalid,
    })
}

/// Calls `WebPDecoder::exif_metadata`.
#[verifier::external_body]
fn read_webp_exif(b: &[u8], limit: usize) -> (r: Result<bool, CodecError>)
    ensures
        seen(r) == webp_exif_of(b@, limit),
{
    let found = image_webp::WebPDecoder::new(Cursor::new(b)).and_then(|mut decoder| {
        decoder.set_memory_limit(limit);
        Ok(decoder.exif_metadata()?.is_some())
    });
    found.map_err(|error| match error {
        WebpError::IoError(error) => CodecError::Io(error.kind() == ErrorKind::UnexpectedEof, error.to_string()),
        WebpError::ImageTooLarge | WebpError::MemoryLimitExceeded => CodecError::Limit,
        WebpError::UnsupportedFeature(_) => CodecError::Unsupported,
        _ => CodecError::Invalid,
    })
}

/// Calls `WebPDecoder::read_image` on a buffer of `size` bytes. The file must
/// not be animated.
#[verifier::external_body]
fn read_webp_pixels(b: &[u8], limit: usize, size: usize) -> (r: Result<Vec<u8>, CodecError>)
    requires
        webp_header_of(b@) matches Ok(header) && !header.animated,
        size <= MAX_DECODED_BYTES,
    ensures
        seen_bytes(r) == webp_pixels_of(b@, limit, size),
{
    let pixels = image_webp::WebPDecoder::new(Cursor::new(b)).and_then(|mut decoder| {
        decoder.set_memory_limit(limit);
        let mut pixels = vec![0u8; size];
        decoder.read_image(&mut pixels).map(|_| pixels)
    });
    pixels.map_err(|error| match error {
        WebpError::IoError(error) => CodecError::Io(error.kind() == ErrorKind::UnexpectedEof, error.to_string()),
        WebpError::ImageTooLarge | WebpError::MemoryLimitExceeded => CodecError::Limit,
        WebpError::UnsupportedFeature(_) => CodecError::Unsupported,
        _ => CodecError::Invalid,
    })
}

/// What the number of a PNG colour type stands for.
pub open spec fn png_color(number: u8) -> Option<PixelColor> {
    if number == 0 {
        Some(PixelColor::Grayscale)
    } else if number == 2 {
        Some(PixelColor::Rgb)
    } else if number == 4 {
        Some(PixelColor::GrayscaleAlpha)
    } else if number == 6 {
        Some(PixelColor::Rgba)
    } else {
        None
    }
}

/// Whether a PNG image is taken, and what its pixels will stand for.
pub open spec fn png_checked(header: Result<PngHeader, Trouble>) -> Result<PixelColor, Fault> {
    match header {
        Err(trouble) => Err(fault_of(trouble)),
        Ok(header) => if !raster::allowed_size(header.width as int, header.height as int) {
            Err(Fault::TooLarge)
        } else if header.depth == 16 || header.animated || header.profile || header.depth_out
            != 8 {
            Err(Fault::UnsupportedImage)
        } else {
            match png_color(header.color_out) {
                None => Err(Fault::UnsupportedImage),
                Some(color) => Ok(color),
            }
        },
    }
}

/// The image that the headers, the pixels and what follows them make up.
pub open spec fn png_assembled(
    header: PngHeader,
    color: PixelColor,
    frame: Result<Frame, Trouble>,
    rest: Result<(), Trouble>,
) -> Result<Raster, Fault> {
    match frame {
        Err(trouble) => Err(fault_of(trouble)),
        Ok(frame) => if frame.pixels.len() > MAX_DECODED_BYTES {
            Err(Fault::TooLarge)
        } else if frame.width != header.width || frame.height != header.height || frame.size
            > frame.pixels.len() {
            Err(Fault::InvalidImage)
        } else {
            match rest {
                Err(trouble) => Err(fault_of(trouble)),
                Ok(_) => Ok(
                    Raster {
                        width: frame.width,
                        height: frame.height,
                        color,
                        pixels: frame.pixels.take(frame.size as int),
                    },
                ),
            }
        },
    }
}

/// The PNG image in a file.
pub open spec fn png_image(b: Seq<u8>) -> Result<Raster, Fault> {
    match png_checked(png_header_of(b, MAX_DECODED_BYTES)) {
        Err(fault) => Err(fault),
        Ok(color) => png_assembled(
            png_header_of(b, MAX_DECODED_BYTES)->Ok_0,
            color,
            png_frame_of(b, MAX_DECODED_BYTES),
            png_rest_of(b, MAX_DECODED_BYTES),
        ),
    }
}

/// Whether a PNG image is taken, and what its pixels will stand for.
pub fn check_png(header: &PngHeader) -> (r: Result<PixelColor, ImagePdfError>)
    ensures
        match png_checked(Ok(*header)) {
            Ok(color) => r is Ok && r->Ok_0 == color,
            Err(fault) => r is Err && r->Err_0@ == fault,
        },
{
    match checked_dimensions(header.width, header.height) {
        Err(error) => {
            return Err(error);
        },
        Ok(()) => {},
    }
    if header.depth == 16 || header.animated || header.profile || header.depth_out != 8 {
        return Err(ImagePdfError::UnsupportedImage);
    }
    match header.color_out {
        0 => Ok(PixelColor::Grayscale),
        2 => Ok(PixelColor::Rgb),
        4 => Ok(PixelColor::GrayscaleAlpha),
        6 => Ok(PixelColor::Rgba),
        _ => Err(ImagePdfError::UnsupportedImage),
    }
}

/// The image that the headers, the pixels and what follows them make up.
pub fn assemble_png(
    header: &PngHeader,
    color: PixelColor,
    frame: Result<PngFrame, CodecError>,
    rest: Result<(), CodecError>,
) -> (r: Result<RasterImage, ImagePdfError>)
    ensures
        gives(r, png_assembled(*header, color, seen_frame(frame), seen(rest))),
{
    let frame = match frame {
        Err(error) => {
            return Err(codec_error(error));
        },
        Ok(frame) => frame,
    };
    if frame.pixels.len() > MAX_DECODED_BYTES {
        return Err(ImagePdfError::TooLarge);
    }
    if frame.width != header.width || frame.height != header.height || frame.size
        > frame.pixels.len() {
        return Err(ImagePdfError::InvalidImage);
    }
    match rest {
        Err(error) => {
            return Err(codec_error(error));
        },
        Ok(()) => {},
    }
    let mut pixels = frame.pixels;
    pixels.truncate(frame.size);
    Ok(RasterImage { width: frame.width, height: frame.height, color, pixels })
}

/// Decodes a PNG image.
pub fn decode_png<F: Fn() -> bool>(b: &[u8], should_stop: &F) -> (r: Result<
    RasterImage,
    ImagePdfError,
>)
    requires
        should_stop.requires(()),
    ensures
        stopping::always(*should_stop) ==> halted(r, *should_stop),
        concludes(r, png_image(b@), *should_stop),
{
    if should_stop() {
        return Err(ImagePdfError::Cancelled);
    }
    let header = match read_png_header(b, MAX_DECODED_BYTES) {
        Err(error) => {
            return Err(codec_error(error));
        },
        Ok(header) => header,
    };
    let color = match check_png(&header) {
        Err(error) => {
            return Err(error);
        },
        Ok(color) => color,
    };
    let frame = read_png_frame(b, MAX_DECODED_BYTES);
    if should_stop() {
        return Err(ImagePdfError::Cancelled);
    }
    let rest = read_png_rest(b, MAX_DECODED_BYTES);
    assemble_png(&header, color, frame, rest)
}

/// The screen of a GIF image, if it is one that is taken.
pub open spec fn gif_sized(screen: Result<(u16, u16), Trouble>) -> Result<(u32, u32), Fault> {
    match screen {
        Err(trouble) => Err(fault_of(trouble)),
        Ok((width, height)) => if raster::allowed_size(width as int, height as int) {
            Ok((width as u32, height as u32))
        } else {
            Err(Fault::TooLarge)
        },
    }
}

/// The first frame must fill the screen.
pub open spec fn gif_placed(
    width: u32,
    height: u32,
    frame: Result<Option<GifFrame>, Trouble>,
) -> Result<(), Fault> {
    match frame {
        Err(trouble) => Err(fault_of(trouble)),
        Ok(None) => Err(Fault::InvalidImage),
        Ok(Some(frame)) => if frame.width != width || frame.height != height || frame.left != 0
            || frame.top != 0 {
            Err(Fault::UnsupportedImage)
        } else {
            Ok(())
        },
    }
}

/// The image that the pixels of the only frame make up.
pub open spec fn gif_assembled(
    width: u32,
    height: u32,
    pixels: Result<Seq<u8>, Trouble>,
    rest: Result<(bool, bool), Trouble>,
) -> Result<Raster, Fault> {
    match pixels {
        Err(trouble) => Err(fault_of(trouble)),
        Ok(pixels) => if pixels.len() != width * height * 4 || pixels.len() > MAX_DECODED_BYTES {
            Err(Fault::TooLarge)
        } else {
            match rest {
                Err(trouble) => Err(fault_of(trouble)),
                Ok((more, profile)) => if more || profile {
                    Err(Fault::UnsupportedImage)
                } else {
                    Ok(Raster { width, height, color: PixelColor::Rgba, pixels })
                },
            }
        },
    }
}

/// The GIF image in a file.
pub open spec fn gif_image(b: Seq<u8>) -> Result<Raster, Fault> {
    let limit = MAX_DECODED_BYTES as u64;
    match gif_sized(gif_screen_of(b, limit)) {
        Err(fault) => Err(fault),
        Ok((width, height)) => match gif_placed(width, height, gif_frame_of(b, limit)) {
            Err(fault) => Err(fault),
            Ok(_) => gif_assembled(width, height, gif_pixels_of(b, limit), gif_rest_of(b, limit)),
        },
    }
}

/// The screen of a GIF image, if it is one that is taken.
pub fn size_gif(screen: Result<(u16, u16), CodecError>) -> (r: Result<(u32, u32), ImagePdfError>)
    ensures
        match gif_sized(seen(screen)) {
            Ok(size) => r is Ok && r->Ok_0 == size,
            Err(fault) => r is Err && r->Err_0@ == fault,
        },
{
    match screen {
        Err(error) => Err(codec_error(error)),
        Ok((width, height)) => match checked_dimensions(width as u32, height as u32) {
            Err(error) => Err(error),
            Ok(()) => Ok((width as u32, height as u32)),
        },
    }
}

/// The first frame must fill the screen.
pub fn place_gif(width: u32, height: u32, frame: Result<Option<GifFrame>, CodecError>) -> (r:
    Result<(), ImagePdfError>)
    ensures
        match gif_placed(width, height, seen(frame)) {
            Ok(_) => r is Ok,
            Err(fault) => r is Err && r->Err_0@ == fault,
        },
{
    match frame {
        Err(error) => Err(codec_error(error)),
        Ok(None) => Err(ImagePdfError::InvalidImage),
        Ok(Some(frame)) => if frame.width as u32 != width || frame.height as u32 != height
            || frame.left != 0 || frame.top != 0 {
            Err(ImagePdfError::UnsupportedImage)
        } else {
            Ok(())
        },
    }
}

/// The image that the pixels of the only frame make up.
pub fn assemble_gif(
    width: u32,
    height: u32,
    pixels: Result<Vec<u8>, CodecError>,
    rest: Result<(bool, bool), CodecError>,
) -> (r: Result<RasterImage, ImagePdfError>)
    ensures
        gives(r, gif_assembled(width, height, seen_bytes(pixels), seen(rest))),
{
    let pixels = match pixels {
        Err(error) => {
            return Err(codec_error(error));
        },
        Ok(pixels) => pixels,
    };
    assert(pixels.len() <= usize::MAX);
    match decoded_size(width, height, 4) {
        Err(error) => {
            return Err(error);
        },
        Ok(size) => {
            if pixels.len() != size || pixels.len() > MAX_DECODED_BYTES {
                return Err(ImagePdfError::TooLarge);
            }
        },
    }
    match rest {
        Err(error) => Err(codec_error(error)),
        Ok((more, profile)) => if more || profile {
            Err(ImagePdfError::UnsupportedImage)
        } else {
            Ok(RasterImage { width, height, color: PixelColor::Rgba, pixels })
        },
    }
}

/// Decodes a GIF image.
pub fn decode_gif<F: Fn() -> bool>(b: &[u8], should_stop: &F) -> (r: Result<
    RasterImage,
    ImagePdfError,
>)
    requires
        should_stop.requires(()),
    ensures
        stopping::always(*should_stop) ==> halted(r, *should_stop),
        concludes(r, gif_image(b@), *should_stop),
{
    if should_stop() {
        return Err(ImagePdfError::Cancelled);
    }
    let limit: u64 = MAX_DECODED_BYTES as u64;
    let (width, height) = match size_gif(read_gif_screen(b, limit)) {
        Err(error) => {
            return Err(error);
        },
        Ok((width, height)) => (width, height),
    };
    match place_gif(width, height, read_gif_frame(b, limit)) {
        Err(error) => {
            return Err(error);
        },
        Ok(()) => {},
    }
    let pixels = read_gif_pixels(b, limit);
    let rest = read_gif_rest(b, limit);
    if should_stop() {
        return Err(ImagePdfError::Cancelled);
    }
    assemble_gif(width, height, pixels, rest)
}

/// Whether a WebP image is taken, and what its pixels will stand for.
pub open spec fn webp_checked(
    header: Result<WebpHeader, Trouble>,
    profile: Result<bool, Trouble>,
    exif: Result<bool, Trouble>,
) -> Result<PixelColor, Fault> {
    match header {
        Err(trouble) => Err(fault_of(trouble)),
        Ok(header) => if !raster::allowed_size(header.width as int, header.height as int) {
            Err(Fault::TooLarge)
        } else if header.animated || header.frames != 0 {
            Err(Fault::UnsupportedImage)
        } else {
            match profile {
                Err(trouble) => Err(fault_of(trouble)),
                Ok(true) => Err(Fault::UnsupportedImage),
                Ok(false) => match exif {
                    Err(trouble) => Err(fault_of(trouble)),
                    Ok(true) => Err(Fault::UnsupportedImage),
                    Ok(false) => {
                        let channels = if header.alpha {
                            4int
                        } else {
                            3int
                        };
                        let size = header.width * header.height * channels;
                        if size > MAX_DECODED_BYTES || header.size is None || header.size->0
                            != size {
                            Err(Fault::TooLarge)
                        } else if header.alpha {
                            Ok(PixelColor::Rgba)
                        } else {
                            Ok(PixelColor::Rgb)
                        }
                    },
                },
            }
        },
    }
}

/// The image that the pixels make up.
pub open spec fn webp_assembled(
    header: WebpHeader,
    color: PixelColor,
    pixels: Result<Seq<u8>, Trouble>,
) -> Result<Raster, Fault> {
    match pixels {
        Err(trouble) => Err(fault_of(trouble)),
        Ok(pixels) => Ok(
            Raster { width: header.width, height: header.height, color, pixels },
        ),
    }
}

/// The WebP image in a file.
pub open spec fn webp_image(b: Seq<u8>) -> Result<Raster, Fault> {
    let limit = MAX_DECODED_BYTES;
    let header = webp_header_of(b);
    match webp_checked(header, webp_profile_of(b, limit), webp_exif_of(b, limit)) {
        Err(fault) => Err(fault),
        Ok(color) => webp_assembled(
            header->Ok_0,
            color,
            webp_pixels_of(b, limit, header->Ok_0.size->0),
        ),
    }
}

/// Whether a WebP image is taken, and what its pixels will stand for.
pub fn check_webp(
    header: Result<&WebpHeader, CodecError>,
    profile: Result<bool, CodecError>,
    exif: Result<bool, CodecError>,
) -> (r: Result<PixelColor, ImagePdfError>)
    ensures
        match webp_checked(
            match header {
                Ok(header) => Ok(*header),
                Err(error) => Err(error@),
            },
            seen(profile),
            seen(exif),
        ) {
            Ok(color) => r is Ok && r->Ok_0 == color,
            Err(fault) => r is Err && r->Err_0@ == fault,
        },
{
    let header = match header {
        Err(error) => {
            return Err(codec_error(error));
        },
        Ok(header) => header,
    };
    match checked_dimensions(header.width, header.height) {
        Err(error) => {
            return Err(error);
        },
        Ok(()) => {},
    }
    if header.animated || header.frames != 0 {
        return Err(ImagePdfError::UnsupportedImage);
    }
    match profile {
        Err(error) => {
            return Err(codec_error(error));
        },
        Ok(found) => {
            if found {
                return Err(ImagePdfError::UnsupportedImage);
            }
        },
    }
    match exif {
        Err(error) => {
            return Err(codec_error(error));
        },
        Ok(found) => {
            if found {
                return Err(ImagePdfError::UnsupportedImage);
            }
        },
    }
    let channels: usize = if header.alpha {
        4
    } else {
        3
    };
    let size: usize = match decoded_size(header.width, header.height, channels) {
        Err(error) => {
            return Err(error);
        },
        Ok(size) => size,
    };
    let told: usize = match header.size {
        None => {
            return Err(ImagePdfError::TooLarge);
        },
        Some(told) => told,
    };
    if size > MAX_DECODED_BYTES || told != size {
        return Err(ImagePdfError::TooLarge);
    }
    Ok(
        if header.alpha {
            PixelColor::Rgba
        } else {
            PixelColor::Rgb
        },
    )
}

/// The image that the pixels make up.
pub fn assemble_webp(
    header: &WebpHeader,
    color: PixelColor,
    pixels: Result<Vec<u8>, CodecError>,
) -> (r: Result<RasterImage, ImagePdfError>)
    ensures
        gives(r, webp_assembled(*header, color, seen_bytes(pixels))),
{
    match pixels {
        Err(error) => Err(codec_error(error)),
        Ok(pixels) => Ok(
            RasterImage { width: header.width, height: header.height, color, pixels },
        ),
    }
}

/// Decodes a WebP image.
pub fn decode_webp<F: Fn() -> bool>(b: &[u8], should_stop: &F) -> (r: Result<
    RasterImage,
    ImagePdfError,
>)
    requires
        should_stop.requires(()),
    ensures
        stopping::always(*should_stop) ==> halted(r, *should_stop),
        concludes(r, webp_image(b@), *should_stop),
{
    if should_stop() {
        return Err(ImagePdfError::Cancelled);
    }
    let header = match read_webp_header(b) {
        Err(error) => {
            return Err(codec_error(error));
        },
        Ok(header) => header,
    };
    let profile = read_webp_profile(b, MAX_DECODED_BYTES);
    let exif = read_webp_exif(b, MAX_DECODED_BYTES);
    let color = match check_webp(Ok(&header), profile, exif) {
        Err(error) => {
            return Err(error);
        },
        Ok(color) => color,
    };
    if should_stop() {
        return Err(ImagePdfError::Cancelled);
    }
    let size: usize = match header.size {
        Some(size) => size,
        None => 0,
    };
    let pixels = read_webp_pixels(b, MAX_DECODED_BYTES, size);
    if should_stop() {
        return Err(ImagePdfError::Cancelled);
    }
    assemble_webp(&header, color, pixels)
}

} // verus!
