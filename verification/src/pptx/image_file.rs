//! The images that slides show: which files are taken, and how large their
//! pictures are.

use vstd::prelude::*;

use crate::bytes;
use crate::bytes::{read_u16_be, read_u32_be};
use crate::pptx::parts::SlideImageFormat;

verus! {

/// The largest number of pixels of an image.
pub const MAX_PIXELS: u64 = 40_000_000;

/// The largest size of an image file.
pub const MAX_IMAGE_BYTES: u64 = 134_217_728;

/// How far into a JPEG file the search for its frame goes.
pub const FRAME_SEARCH_END: usize = 1_048_576;

/// Failures while packaging rendered pages as a presentation.
#[derive(Debug)]
pub enum PptxError {
    SlideLimit,
    InvalidOutputPath,
    InvalidDimensions,
    InvalidImage,
    PackageTooLarge,
    Cancelled,
    Io(String),
}

/// What contracts say of a `PptxError`.
pub enum Mishap {
    SlideLimit,
    InvalidOutputPath,
    InvalidDimensions,
    InvalidImage,
    PackageTooLarge,
    Cancelled,
    Io(Seq<char>),
}

impl View for PptxError {
    type V = Mishap;

    open spec fn view(&self) -> Mishap {
        match *self {
            PptxError::SlideLimit => Mishap::SlideLimit,
            PptxError::InvalidOutputPath => Mishap::InvalidOutputPath,
            PptxError::InvalidDimensions => Mishap::InvalidDimensions,
            PptxError::InvalidImage => Mishap::InvalidImage,
            PptxError::PackageTooLarge => Mishap::PackageTooLarge,
            PptxError::Cancelled => Mishap::Cancelled,
            PptxError::Io(message) => Mishap::Io(message@),
        }
    }
}

impl PptxError {
    pub open spec fn message_spec(self) -> Seq<char> {
        match self {
            PptxError::SlideLimit =>
                "PPTX must contain at least one page and no more than 200 pages"@,
            PptxError::InvalidOutputPath =>
                "PPTX output must be an absolute path in an existing directory"@,
            PptxError::InvalidDimensions =>
                "PPTX page dimensions are invalid or exceed the pixel limit"@,
            PptxError::InvalidImage =>
                "The PPTX page image is invalid or does not match the declared pixel size"@,
            PptxError::PackageTooLarge =>
                "PPTX images or the ZIP32 package exceed the safety limit"@,
            PptxError::Cancelled => "PPTX conversion cancelled"@,
            PptxError::Io(message) => "PPTX read/write failed: "@ + message@,
        }
    }

    /// What the user is told.
    pub fn message(&self) -> (r: String)
        ensures
            r@ == self.message_spec(),
    {
        match self {
            PptxError::SlideLimit =>
                "PPTX must contain at least one page and no more than 200 pages".to_owned(),
            PptxError::InvalidOutputPath =>
                "PPTX output must be an absolute path in an existing directory".to_owned(),
            PptxError::InvalidDimensions =>
                "PPTX page dimensions are invalid or exceed the pixel limit".to_owned(),
            PptxError::InvalidImage =>
                "The PPTX page image is invalid or does not match the declared pixel size".to_owned(),
            PptxError::PackageTooLarge =>
                "PPTX images or the ZIP32 package exceed the safety limit".to_owned(),
            PptxError::Cancelled => "PPTX conversion cancelled".to_owned(),
            PptxError::Io(message) => {
                let mut out = "PPTX read/write failed: ".to_owned();
                out.push_str(message.as_str());
                out
            },
        }
    }
}

/// What was found where an image should be. `length` is the size that the file
/// system tells, and `data` what could be read.
#[derive(Debug)]
pub struct ImageInput {
    pub absolute: bool,
    pub symbolic_link: bool,
    pub regular: bool,
    pub length: u64,
    pub data: Vec<u8>,
}

/// Why the file of an image is not taken.
pub open spec fn refusal(input: ImageInput) -> Option<Mishap> {
    if !input.absolute || input.symbolic_link || !input.regular || input.length < 4 {
        Some(Mishap::InvalidImage)
    } else if input.length > MAX_IMAGE_BYTES {
        Some(Mishap::PackageTooLarge)
    } else {
        None
    }
}

/// Whether the file of an image is taken.
pub fn open_image(input: &ImageInput) -> (r: Result<(), PptxError>)
    ensures
        match refusal(*input) {
            Some(mishap) => r is Err && r->Err_0@ == mishap,
            None => r is Ok,
        },
{
    if !input.absolute || input.symbolic_link || !input.regular || input.length < 4 {
        return Err(PptxError::InvalidImage);
    }
    if input.length > MAX_IMAGE_BYTES {
        return Err(PptxError::PackageTooLarge);
    }
    Ok(())
}

pub open spec fn valid_dimensions_spec(width: u32, height: u32) -> bool {
    0 < width * height <= MAX_PIXELS
}

/// Whether an image of this size is shown.
pub fn valid_dimensions(width: u32, height: u32) -> (r: bool)
    ensures
        r == valid_dimensions_spec(width, height),
{
    assert(0 <= width * height <= u64::MAX) by (nonlinear_arith)
        requires
            0 <= width <= u32::MAX,
            0 <= height <= u32::MAX,
    ;
    let pixels: u64 = width as u64 * height as u64;
    pixels != 0 && pixels <= MAX_PIXELS
}

/// How a PNG file begins: its signature, and the start of its header chunk.
pub open spec fn png_start() -> Seq<u8> {
    seq![0x89u8, 80, 78, 71, 13, 10, 26, 10, 0, 0, 0, 13, 73, 72, 68, 82]
}

/// The size that the header of a PNG file tells.
pub open spec fn png_size(b: Seq<u8>, length: u64) -> Option<(u32, u32)> {
    if length >= 33 && b.len() >= 24 && bytes::occurs(b, 0, png_start()) {
        Some((bytes::u32_be(b, 16)->0, bytes::u32_be(b, 20)->0))
    } else {
        None
    }
}

/// Markers of a JPEG file that begin a frame.
pub open spec fn is_frame(tag: u8) -> bool {
    0xc0 <= tag <= 0xcf && tag != 0xc4 && tag != 0xc8 && tag != 0xcc
}

/// Markers of a JPEG file that have no segment.
pub open spec fn is_bare(tag: u8) -> bool {
    tag == 0x01 || 0xd0 <= tag <= 0xd7
}

/// The size that the first frame from `i` on tells. Nothing but segments, bare
/// markers and fill bytes stands before it.
pub open spec fn frame_size(b: Seq<u8>, i: int) -> Option<(u32, u32)>
    decreases
            (if 0 <= i <= FRAME_SEARCH_END {
                FRAME_SEARCH_END + 1 - i
            } else {
                0
            }),
{
    if i < 0 || i > FRAME_SEARCH_END || i + 2 > b.len() {
        None
    } else if b[i] != 0xff || b[i + 1] == 0xda || b[i + 1] == 0xd9 {
        None
    } else if b[i + 1] == 0xff {
        frame_size(b, i + 1)
    } else if is_bare(b[i + 1]) {
        frame_size(b, i + 2)
    } else {
        match bytes::u16_be(b, i + 2) {
            None => None,
            Some(length) => if length < 2 {
                None
            } else if is_frame(b[i + 1]) {
                if length < 7 || i + 9 > b.len() || b[i + 4] != 8 {
                    None
                } else {
                    Some((bytes::u16_be(b, i + 7)->0 as u32, bytes::u16_be(b, i + 5)->0 as u32))
                }
            } else {
                frame_size(b, i + 2 + length)
            },
        }
    }
}

/// The size that a JPEG file tells. The file is not cut off.
pub open spec fn jpeg_size(b: Seq<u8>) -> Option<(u32, u32)> {
    if b.len() >= 2 && b[0] == 0xff && b[1] == 0xd8 && b[b.len() - 2] == 0xff && b[b.len() - 1]
        == 0xd9 {
        frame_size(b, 2)
    } else {
        None
    }
}

/// The size that an image file tells.
pub open spec fn image_size(b: Seq<u8>, format: SlideImageFormat, length: u64) -> Option<
    (u32, u32),
> {
    match format {
        SlideImageFormat::Png => png_size(b, length),
        SlideImageFormat::Jpeg => jpeg_size(b),
    }
}

fn png_dimensions(b: &[u8], length: u64) -> (r: Option<(u32, u32)>)
    ensures
        r == png_size(b@, length),
{
    if length < 33 || b.len() < 24 {
        return None;
    }
    let start: [u8; 16] = [0x89, 80, 78, 71, 13, 10, 26, 10, 0, 0, 0, 13, 73, 72, 68, 82];
    assert(start@ =~= png_start());
    if !bytes::occurs_at(b, 0, &start) {
        return None;
    }
    match (read_u32_be(b, 16), read_u32_be(b, 20)) {
        (Some(width), Some(height)) => Some((width, height)),
        _ => None,
    }
}

fn frame_dimensions(b: &[u8]) -> (r: Option<(u32, u32)>)
    ensures
        r == frame_size(b@, 2),
{
    let mut i: usize = 2;
    while i <= FRAME_SEARCH_END
        invariant
            2 <= i <= FRAME_SEARCH_END + 70_000,
            frame_size(b@, i as int) == frame_size(b@, 2),
        decreases FRAME_SEARCH_END + 70_000 - i,
    {
        if b.len() < 2 || i > b.len() - 2 {
            return None;
        }
        let tag: u8 = b[i + 1];
        if b[i] != 0xff || tag == 0xda || tag == 0xd9 {
            return None;
        }
        if tag == 0xff {
            i += 1;
        } else if tag == 0x01 || (0xd0 <= tag && tag <= 0xd7) {
            i += 2;
        } else {
            match read_u16_be(b, i + 2) {
                None => {
                    return None;
                },
                Some(length) => {
                    if length < 2 {
                        return None;
                    }
                    if 0xc0 <= tag && tag <= 0xcf && tag != 0xc4 && tag != 0xc8 && tag != 0xcc {
                        if length < 7 || b.len() < 9 || i > b.len() - 9 || b[i + 4] != 8 {
                            return None;
                        }
                        return match (read_u16_be(b, i + 7), read_u16_be(b, i + 5)) {
                            (Some(width), Some(height)) => Some((width as u32, height as u32)),
                            _ => None,
                        };
                    }
                    i = i + 2 + length as usize;
                },
            }
        }
    }
    None
}

/// Reads the size that an image file tells, without decoding the image.
pub fn image_dimensions(b: &[u8], format: SlideImageFormat, length: u64) -> (r: Result<
    (u32, u32),
    PptxError,
>)
    ensures
        match image_size(b@, format, length) {
            Some(size) => r is Ok && r->Ok_0 == size,
            None => r is Err && r->Err_0@ == Mishap::InvalidImage,
        },
{
    let size = match format {
        SlideImageFormat::Png => png_dimensions(b, length),
        SlideImageFormat::Jpeg => {
            let n: usize = b.len();
            if n < 2 || b[0] != 0xff || b[1] != 0xd8 || b[n - 2] != 0xff || b[n - 1] != 0xd9 {
                None
            } else {
                frame_dimensions(b)
            }
        },
    };
    match size {
        Some(size) => Ok(size),
        None => Err(PptxError::InvalidImage),
    }
}

} // verus!
