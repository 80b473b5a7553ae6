//! Images that are ready to be embedded in a PDF file.

use jpeg_decoder::{Error as JpegError, PixelFormat};

use vstd::prelude::*;

use crate::image::bmp;
use crate::image::bmp::decode_bmp;
use crate::image::codec;
use crate::image::codec::{codec_error, decode_gif, decode_png, decode_webp, CodecError, Trouble};
use crate::image::error::{halted, Fault, ImagePdfError};
use crate::image::jpeg;
use crate::image::jpeg::{inspect_jpeg, JpegInfo};
use crate::image::raster;
use crate::image::raster::{decoded_size, Raster, RasterImage, MAX_DECODED_BYTES};
use crate::image::tiff_codec;
use crate::image::tiff_codec::decode_tiff;
use crate::stopping;
use crate::text;
use crate::text::{same, to_lower};

verus! {

/// The most bytes that an image file may have.
pub const MAX_INPUT_BYTES: u64 = 67_108_864;

/// What a JPEG image is decoded to: its size, how many bytes its pixels have, if
/// that is one or three, and how many bytes all of them take.
#[derive(Debug, Clone, Copy, PartialEq, Eq, Structural)]
pub struct JpegPixels {
    pub width: u16,
    pub height: u16,
    pub components: Option<u8>,
    pub length: usize,
}

/// What `jpeg_decoder::Decoder::decode` makes of a file with at most `limit`
/// bytes of memory; nothing where `jpeg_decoder::Decoder::info` has nothing to
/// say.
pub uninterp spec fn jpeg_pixels_of(b: Seq<u8>, limit: usize) -> Result<
    Option<JpegPixels>,
    Trouble,
>;

/// Calls `jpeg_decoder::Decoder::decode` and `Decoder::info`.
#[verifier::external_body]
fn read_jpeg_pixels(b: &[u8], limit: usize) -> (r: Result<Option<JpegPixels>, CodecError>)
    ensures
        codec::seen(r) == jpeg_pixels_of(b@, limit),
{
    let mut decoder = jpeg_decoder::Decoder::new(b);
    decoder.set_max_decoding_buffer_size(limit);
    let length = decoder.decode().map_err(|error| match error {
        JpegError::Unsupported(_) => CodecError::Unsupported,
        JpegError::Io(error) => CodecError::Io(error.kind() == std::io::ErrorKind::UnexpectedEof, error.to_string()),
        _ => CodecError::Invalid,
    })?.len();
    Ok(decoder.info().map(|info| JpegPixels {
        width: info.width, height: info.height, length,
        components: match info.pixel_format { PixelFormat::L8 => Some(1), PixelFormat::RGB24 => Some(3), _ => None },
    }))
}

/// The pixels of a JPEG image are those that its headers announce.
pub open spec fn jpeg_validated(
    info: JpegInfo,
    found: Result<Option<JpegPixels>, Trouble>,
) -> Result<(), Fault> {
    match found {
        Err(trouble) => Err(codec::fault_of(trouble)),
        Ok(None) => Err(Fault::InvalidImage),
        Ok(Some(pixels)) => match pixels.components {
            None => Err(Fault::UnsupportedImage),
            Some(components) => if info.width * info.height > usize::MAX || info.width * info.height
                * info.components > usize::MAX {
                Err(Fault::TooLarge)
            } else if pixels.width != info.width || pixels.height != info.height || components
                != info.components || pixels.length != info.width * info.height
                * info.components {
                Err(Fault::InvalidImage)
            } else {
                Ok(())
            },
        },
    }
}

/// The pixels of a JPEG image are those that its headers announce.
pub fn check_jpeg_pixels(info: &JpegInfo, found: Result<Option<JpegPixels>, CodecError>) -> (r:
    Result<(), ImagePdfError>)
    ensures
        match jpeg_validated(*info, codec::seen(found)) {
            Ok(_) => r is Ok,
            Err(fault) => r is Err && r->Err_0@ == fault,
        },
{
    let pixels = match found {
        Err(error) => {
            return Err(codec_error(error));
        },
        Ok(None) => {
            return Err(ImagePdfError::InvalidImage);
        },
        Ok(Some(pixels)) => pixels,
    };
    let components: u8 = match pixels.components {
        None => {
            return Err(ImagePdfError::UnsupportedImage);
        },
        Some(components) => components,
    };
    let length: usize = match decoded_size(info.width, info.height, info.components as usize) {
        Err(error) => {
            return Err(error);
        },
        Ok(length) => length,
    };
    if pixels.width as u32 != info.width || pixels.height as u32 != info.height || components
        != info.components || pixels.length != length {
        return Err(ImagePdfError::InvalidImage);
    }
    Ok(())
}

/// An image as it was read from a file.
#[derive(Debug)]
pub enum InputImage {
    Raster(RasterImage),
    /// A JPEG file, which is embedded as it is.
    Jpeg(JpegInfo, Vec<u8>),
}

/// What contracts say of an `InputImage`.
pub enum Source {
    Raster(Raster),
    Jpeg(JpegInfo, Seq<u8>),
}

impl View for InputImage {
    type V = Source;

    open spec fn view(&self) -> Source {
        match *self {
            InputImage::Raster(image) => Source::Raster(image@),
            InputImage::Jpeg(info, bytes) => Source::Jpeg(info, bytes@),
        }
    }
}

/// The kinds of files that can be read.
#[derive(Debug, Clone, Copy, PartialEq, Eq, Structural)]
pub enum ImageKind {
    Png,
    Jpeg,
    Gif,
    Webp,
    Tiff,
    Bmp,
}

/// The kind of file that an extension stands for, in letters of either case.
pub open spec fn kind_of(extension: Seq<char>) -> Option<ImageKind> {
    let name = text::lowered(extension);
    if name == "png"@ {
        Some(ImageKind::Png)
    } else if name == "jpg"@ || name == "jpeg"@ {
        Some(ImageKind::Jpeg)
    } else if name == "gif"@ {
        Some(ImageKind::Gif)
    } else if name == "webp"@ {
        Some(ImageKind::Webp)
    } else if name == "tif"@ || name == "tiff"@ {
        Some(ImageKind::Tiff)
    } else if name == "bmp"@ {
        Some(ImageKind::Bmp)
    } else {
        None
    }
}

/// The kind of file that an extension stands for, in letters of either case.
pub fn image_kind(extension: &str) -> (r: Option<ImageKind>)
    ensures
        r == kind_of(extension@),
{
    let name = to_lower(extension);
    let name = name.as_str();
    if same(name, "png") {
        Some(ImageKind::Png)
    } else if same(name, "jpg") || same(name, "jpeg") {
        Some(ImageKind::Jpeg)
    } else if same(name, "gif") {
        Some(ImageKind::Gif)
    } else if same(name, "webp") {
        Some(ImageKind::Webp)
    } else if same(name, "tif") || same(name, "tiff") {
        Some(ImageKind::Tiff)
    } else if same(name, "bmp") {
        Some(ImageKind::Bmp)
    } else {
        None
    }
}

/// An image file must be named by an absolute path and not be a symbolic link.
pub fn admit_path(absolute: bool, symlink: bool) -> (r: Result<(), ImagePdfError>)
    ensures
        if absolute && !symlink {
            r is Ok
        } else {
            r is Err && r->Err_0@ == Fault::InvalidInput
        },
{
    if !absolute || symlink {
        return Err(ImagePdfError::InvalidInput);
    }
    Ok(())
}

/// What an opened file is read as.
pub open spec fn admitted(
    regular: bool,
    length: u64,
    extension: Option<Seq<char>>,
) -> Result<ImageKind, Fault> {
    if !regular || length == 0 {
        Err(Fault::InvalidInput)
    } else if length > MAX_INPUT_BYTES {
        Err(Fault::TooLarge)
    } else {
        match extension {
            None => Err(Fault::InvalidInput),
            Some(extension) => match kind_of(extension) {
                None => Err(Fault::InvalidInput),
                Some(kind) => Ok(kind),
            },
        }
    }
}

/// Refuses what is no regular file, and empty and overlong files; tells what
/// the others are read as.
pub fn admit_file(regular: bool, length: u64, extension: Option<&str>) -> (r: Result<
    ImageKind,
    ImagePdfError,
>)
    ensures
        match admitted(
            regular,
            length,
            match extension {
                None => None,
                Some(extension) => Some(extension@),
            },
        ) {
            Ok(kind) => r is Ok && r->Ok_0 == kind,
            Err(fault) => r is Err && r->Err_0@ == fault,
        },
{
    if !regular || length == 0 {
        return Err(ImagePdfError::InvalidInput);
    }
    if length > MAX_INPUT_BYTES {
        return Err(ImagePdfError::TooLarge);
    }
    let extension = match extension {
        None => {
            return Err(ImagePdfError::InvalidInput);
        },
        Some(extension) => extension,
    };
    match image_kind(extension) {
        None => Err(ImagePdfError::InvalidInput),
        Some(kind) => Ok(kind),
    }
}

/// What the headers of a JPEG file say, once its pixels are found to agree.
pub open spec fn jpeg_read(b: Seq<u8>) -> Result<JpegInfo, Fault> {
    match jpeg::jpeg_info(b) {
        Err(fault) => Err(fault),
        Ok(info) => match jpeg_validated(info, jpeg_pixels_of(b, MAX_DECODED_BYTES)) {
            Err(fault) => Err(fault),
            Ok(_) => Ok(info),
        },
    }
}

pub open spec fn sourced(r: Result<Raster, Fault>) -> Result<Source, Fault> {
    match r {
        Err(fault) => Err(fault),
        Ok(image) => Ok(Source::Raster(image)),
    }
}

/// `outcome` is what reading a file can give. The bytes determine it, except
/// those of a TIFF file that holds JPEG data.
pub open spec fn reads_as(kind: ImageKind, b: Seq<u8>, outcome: Result<Source, Fault>) -> bool {
    match kind {
        ImageKind::Png => outcome == sourced(codec::png_image(b)),
        ImageKind::Jpeg => match jpeg_read(b) {
            Err(fault) => outcome == Err::<Source, Fault>(fault),
            Ok(info) => outcome == Ok::<Source, Fault>(Source::Jpeg(info, b)),
        },
        ImageKind::Gif => outcome == sourced(codec::gif_image(b)),
        ImageKind::Webp => outcome == sourced(codec::webp_image(b)),
        ImageKind::Tiff => match tiff_codec::plan_of(b) {
            Err(fault) => outcome == Err::<Source, Fault>(fault),
            Ok(plan) => exists|pixels: Result<Option<Seq<u8>>, Trouble>|
                tiff_codec::may_decode(b, pixels) && outcome == sourced(
                    #[trigger] tiff_codec::assembled(plan, pixels),
                ),
        },
        ImageKind::Bmp => outcome == sourced(bmp::bmp_image(b)),
    }
}

/// What `r` is about.
pub open spec fn outcome(r: Result<InputImage, ImagePdfError>) -> Result<Source, Fault> {
    match r {
        Err(error) => Err(error@),
        Ok(image) => Ok(image@),
    }
}

fn as_source(r: Result<RasterImage, ImagePdfError>) -> (image: Result<InputImage, ImagePdfError>)
    ensures
        match r {
            Err(error) => outcome(image) == Err::<Source, Fault>(error@),
            Ok(raster) => outcome(image) == Ok::<Source, Fault>(Source::Raster(raster@)),
        },
{
    match r {
        Err(error) => Err(error),
        Ok(raster) => Ok(InputImage::Raster(raster)),
    }
}

/// Reads the headers of a JPEG file and decodes its pixels to see that they
/// agree.
fn read_jpeg<F: Fn() -> bool>(b: Vec<u8>, should_stop: &F) -> (r: Result<
    InputImage,
    ImagePdfError,
>)
    requires
        should_stop.requires(()),
    ensures
        stopping::always(*should_stop) ==> halted(r, *should_stop),
        halted(r, *should_stop) || reads_as(ImageKind::Jpeg, b@, outcome(r)),
{
    if should_stop() {
        return Err(ImagePdfError::Cancelled);
    }
    let info = match inspect_jpeg(b.as_slice(), should_stop) {
        Err(error) => {
            return Err(error);
        },
        Ok(info) => info,
    };
    if should_stop() {
        return Err(ImagePdfError::Cancelled);
    }
    let pixels = read_jpeg_pixels(b.as_slice(), MAX_DECODED_BYTES);
    match check_jpeg_pixels(&info, pixels) {
        Err(error) => {
            return Err(error);
        },
        Ok(()) => {},
    }
    if should_stop() {
        return Err(ImagePdfError::Cancelled);
    }
    Ok(InputImage::Jpeg(info, b))
}

/// Reads an image file.
pub fn read_image<F: Fn() -> bool>(kind: ImageKind, b: Vec<u8>, should_stop: &F) -> (r: Result<
    InputImage,
    ImagePdfError,
>)
    requires
        should_stop.requires(()),
    ensures
        stopping::always(*should_stop) ==> halted(r, *should_stop),
        halted(r, *should_stop) || reads_as(kind, b@, outcome(r)),
{
    match kind {
        ImageKind::Png => as_source(decode_png(b.as_slice(), should_stop)),
        ImageKind::Jpeg => read_jpeg(b, should_stop),
        ImageKind::Gif => as_source(decode_gif(b.as_slice(), should_stop)),
        ImageKind::Webp => as_source(decode_webp(b.as_slice(), should_stop)),
        ImageKind::Tiff => as_source(decode_tiff(b.as_slice(), should_stop)),
        ImageKind::Bmp => as_source(decode_bmp(b.as_slice(), should_stop)),
    }
}

} // verus!
