//! The formats of rendered pages.

use vstd::prelude::*;

use crate::render::error::{Problem, RenderError};

verus! {

/// The most pixels that a page may have.
pub const MAX_PIXELS: u64 = 40_000_000;

/// The most bytes that all pages may take.
pub const MAX_OUTPUT_BYTES: u64 = 1_073_741_824;

/// The longest side of a WebP image.
pub const MAX_WEBP_SIDE: u32 = 16_384;

/// The formats that pages can be rendered to.
#[derive(Debug, Clone, Copy, PartialEq, Eq, Structural)]
pub enum ImageFormat {
    Png,
    Jpg,
    Bmp,
    Gif,
    Webp,
    Tiff,
}

impl ImageFormat {
    pub open spec fn extension_spec(self) -> Seq<char> {
        match self {
            ImageFormat::Png => "png"@,
            ImageFormat::Jpg => "jpg"@,
            ImageFormat::Bmp => "bmp"@,
            ImageFormat::Gif => "gif"@,
            ImageFormat::Webp => "webp"@,
            ImageFormat::Tiff => "tiff"@,
        }
    }

    /// The extension of files in the format.
    pub fn extension(self) -> (r: &'static str)
        ensures
            r@ == self.extension_spec(),
    {
        match self {
            ImageFormat::Png => "png",
            ImageFormat::Jpg => "jpg",
            ImageFormat::Bmp => "bmp",
            ImageFormat::Gif => "gif",
            ImageFormat::Webp => "webp",
            ImageFormat::Tiff => "tiff",
        }
    }
}

/// An image of the given size can be written in a format.
pub open spec fn allowed(width: u32, height: u32, format: ImageFormat) -> bool {
    &&& width > 0
    &&& height > 0
    &&& width * height <= MAX_PIXELS
    &&& match format {
        ImageFormat::Jpg | ImageFormat::Gif => width <= u16::MAX && height <= u16::MAX,
        ImageFormat::Webp => width <= MAX_WEBP_SIDE && height <= MAX_WEBP_SIDE,
        _ => true,
    }
}

/// Refuses an image without pixels, and one that is too large for its format.
pub fn check_image_dimensions(width: u32, height: u32, format: ImageFormat) -> (r: Result<
    (),
    RenderError,
>)
    ensures
        if allowed(width, height, format) {
            r is Ok
        } else {
            r is Err && r->Err_0@ == Problem::PixelLimit
        },
{
    assert(width * height <= u64::MAX) by (nonlinear_arith)
        requires
            0 <= width <= u32::MAX,
            0 <= height <= u32::MAX,
    ;
    let pixels: u64 = width as u64 * height as u64;
    if width == 0 || height == 0 || pixels > MAX_PIXELS {
        return Err(RenderError::PixelLimit);
    }
    let fits = match format {
        ImageFormat::Jpg | ImageFormat::Gif => width <= 65_535 && height <= 65_535,
        ImageFormat::Webp => width <= MAX_WEBP_SIDE && height <= MAX_WEBP_SIDE,
        _ => true,
    };
    if fits {
        Ok(())
    } else {
        Err(RenderError::PixelLimit)
    }
}

/// `count` bytes are the red, green and blue of every pixel.
pub open spec fn whole_rgb(width: u32, height: u32, count: int) -> bool {
    count == width * height * 3
}

/// Refuses pixels that are not those of an image of the given size.
pub fn check_rgb_buffer(width: u32, height: u32, pixels: &[u8], format: ImageFormat) -> (r: Result<
    (),
    RenderError,
>)
    ensures
        if !allowed(width, height, format) {
            r is Err && r->Err_0@ == Problem::PixelLimit
        } else if !whole_rgb(width, height, pixels@.len() as int) {
            r is Err && r->Err_0@ == Problem::Encoding
        } else {
            r is Ok
        },
{
    match check_image_dimensions(width, height, format) {
        Err(error) => {
            return Err(error);
        },
        Ok(()) => {},
    }
    let expected: u64 = width as u64 * height as u64 * 3;
    if pixels.len() as u64 != expected {
        return Err(RenderError::Encoding);
    }
    Ok(())
}

/// How many bytes the pages take with one more, unless that is too many.
pub open spec fn grown(current: u64, page_bytes: u64, requested_limit: u64) -> Option<u64> {
    if current + page_bytes > requested_limit || current + page_bytes > MAX_OUTPUT_BYTES {
        None
    } else {
        Some((current + page_bytes) as u64)
    }
}

/// How many bytes the pages take with one more, unless that is too many.
pub fn next_output_bytes(current: u64, page_bytes: u64, requested_limit: u64) -> (r: Result<
    u64,
    RenderError,
>)
    ensures
        match grown(current, page_bytes, requested_limit) {
            Some(total) => r is Ok && r->Ok_0 == total,
            None => r is Err && r->Err_0@ == Problem::OutputLimit,
        },
{
    match current.checked_add(page_bytes) {
        None => Err(RenderError::OutputLimit),
        Some(total) => if total > requested_limit || total > MAX_OUTPUT_BYTES {
            Err(RenderError::OutputLimit)
        } else {
            Ok(total)
        },
    }
}

} // verus!
