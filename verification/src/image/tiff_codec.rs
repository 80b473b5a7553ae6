//! Decoding TIFF images.

use std::io::{Cursor, ErrorKind};

use tiff::decoder::{Decoder, DecodingResult, Limits};
use tiff::tags::Tag;
use tiff::{ColorType, TiffError};

use vstd::prelude::*;

use crate::image::codec;
use crate::image::codec::{codec_error, CodecError, Trouble};
use crate::image::error::{gives, halted, Fault, ImagePdfError};
use crate::image::raster;
use crate::image::raster::{
    checked_dimensions, decoded_size, unpremultiply_alpha, PixelColor, Raster, RasterImage,
    MAX_DECODED_BYTES,
};
use crate::image::tiff_header::{is_countable, layout, read_layout};
use crate::stopping;

verus! {

/// The most bytes that the value of a tag may have.
pub const MAX_VALUE_BYTES: usize = 1_048_576;

/// The most bytes that a part of the compressed data may have.
pub const MAX_INTERMEDIATE_BYTES: usize = 16_777_216;

pub const TAG_COMPRESSION: u16 = 259;

pub const TAG_PHOTOMETRIC: u16 = 262;

pub const TAG_ORIENTATION: u16 = 274;

pub const TAG_PLANAR_CONFIGURATION: u16 = 284;

pub const TAG_SUB_IFD: u16 = 330;

pub const TAG_EXTRA_SAMPLES: u16 = 338;

pub const TAG_ICC_PROFILE: u16 = 34_675;

/// What the decoder may use.
#[derive(Debug, Clone, Copy, PartialEq, Eq, Structural)]
pub struct TiffLimits {
    pub pixels: usize,
    pub value: usize,
    pub intermediate: usize,
}

/// The limits of this library.
pub open spec fn own_limits() -> TiffLimits {
    TiffLimits {
        pixels: MAX_DECODED_BYTES,
        value: MAX_VALUE_BYTES,
        intermediate: MAX_INTERMEDIATE_BYTES,
    }
}

/// What a pixel is made of, with the bits of a sample.
#[derive(Debug, Clone, Copy, PartialEq, Eq, Structural)]
pub enum TiffColor {
    Gray(u8),
    GrayAlpha(u8),
    Rgb(u8),
    Rgba(u8),
    /// Bits of a sample and number of samples.
    Bands(u8, u16),
    Other,
}

/// Whether `tiff::decoder::Decoder` finds more than one image, and the size of
/// the first.
pub uninterp spec fn tiff_frame_of(b: Seq<u8>) -> Result<(bool, u32, u32), Trouble>;

/// The numbers that `Decoder::find_tag_unsigned_vec` finds under a tag.
pub uninterp spec fn tiff_numbers_of(b: Seq<u8>, limits: TiffLimits, tag: u16) -> Result<
    Option<Seq<u16>>,
    Trouble,
>;

/// The number that `Decoder::find_tag_unsigned` finds under a tag.
pub uninterp spec fn tiff_number_of(b: Seq<u8>, limits: TiffLimits, tag: u16) -> Result<
    Option<u16>,
    Trouble,
>;

/// Whether `Decoder::find_tag` finds a tag.
pub uninterp spec fn tiff_tag_of(b: Seq<u8>, limits: TiffLimits, tag: u16) -> Result<
    bool,
    Trouble,
>;

/// What `Decoder::colortype` says.
pub uninterp spec fn tiff_color_of(b: Seq<u8>) -> Result<TiffColor, Trouble>;

/// Calls `Decoder::new`, `Decoder::more_images` and `Decoder::dimensions`. The decoder
/// counts the strips and tiles of a file without a check, so they must be
/// countable.
#[verifier::external_body]
fn read_frame(b: &[u8]) -> (r: Result<(bool, u32, u32), CodecError>)
    requires
        is_countable(b@),
    ensures
        codec::seen(r) == tiff_frame_of(b@),
{
    let found = Decoder::new(Cursor::new(b)).and_then(|mut decoder| {
        decoder.dimensions().map(|(width, height)| (decoder.more_images(), width, height))
    });
    found.map_err(|error| match error {
        TiffError::IoError(error) => CodecError::Io(error.kind() == ErrorKind::UnexpectedEof, error.to_string()),
        TiffError::LimitsExceeded | TiffError::IntSizeError => CodecError::Limit,
        TiffError::UnsupportedError(_) => CodecError::Unsupported,
        _ => CodecError::Invalid,
    })
}

pub open spec fn seen_numbers(r: Result<Option<Vec<u16>>, CodecError>) -> Result<
    Option<Seq<u16>>,
    Trouble,
> {
    match r {
        Ok(Some(numbers)) => Ok(Some(numbers@)),
        Ok(None) => Ok(None),
        Err(error) => Err(error@),
    }
}

/// Calls `Decoder::find_tag_unsigned_vec`.
#[verifier::external_body]
fn read_numbers(b: &[u8], limits: TiffLimits, tag: u16) -> (r: Result<
    Option<Vec<u16>>,
    CodecError,
>)
    requires
        is_countable(b@),
    ensures
        seen_numbers(r) == tiff_numbers_of(b@, limits, tag),
{
    let mut kept = Limits::default();
    (kept.decoding_buffer_size, kept.ifd_value_size, kept.intermediate_buffer_size) = (limits.pixels, limits.value, limits.intermediate);
    let found = Decoder::new(Cursor::new(b)).and_then(|decoder| decoder.with_limits(kept).find_tag_unsigned_vec(Tag::from_u16_exhaustive(tag)));
    found.map_err(|error| match error {
        TiffError::IoError(error) => CodecError::Io(error.kind() == ErrorKind::UnexpectedEof, error.to_string()),
        TiffError::LimitsExceeded | TiffError::IntSizeError => CodecError::Limit,
        TiffError::UnsupportedError(_) => CodecError::Unsupported,
        _ => CodecError::Invalid,
    })
}

/// Calls `Decoder::find_tag_unsigned`.
#[verifier::external_body]
fn read_number(b: &[u8], limits: TiffLimits, tag: u16) -> (r: Result<Option<u16>, CodecError>)
    requires
        is_countable(b@),
    ensures
        codec::seen(r) == tiff_number_of(b@, limits, tag),
{
    let mut kept = Limits::default();
    (kept.decoding_buffer_size, kept.ifd_value_size, kept.intermediate_buffer_size) = (limits.pixels, limits.value, limits.intermediate);
    let found = Decoder::new(Cursor::new(b)).and_then(|decoder| decoder.with_limits(kept).find_tag_unsigned(Tag::from_u16_exhaustive(tag)));
    found.map_err(|error| match error {
        TiffError::IoError(error) => CodecError::Io(error.kind() == ErrorKind::UnexpectedEof, error.to_string()),
        TiffError::LimitsExceeded | TiffError::IntSizeError => CodecError::Limit,
        TiffError::UnsupportedError(_) => CodecError::Unsupported,
        _ => CodecError::Invalid,
    })
}

/// Calls `Decoder::find_tag`.
#[verifier::external_body]
fn read_tag(b: &[u8], limits: TiffLimits, tag: u16) -> (r: Result<bool, CodecError>)
    requires
        is_countable(b@),
    ensures
        codec::seen(r) == tiff_tag_of(b@, limits, tag),
{
    let mut kept = Limits::default();
    (kept.decoding_buffer_size, kept.ifd_value_size, kept.intermediate_buffer_size) = (limits.pixels, limits.value, limits.intermediate);
    let found = Decoder::new(Cursor::new(b)).and_then(|decoder| decoder.with_limits(kept).find_tag(Tag::from_u16_exhaustive(tag)));
    found.map(|value| value.is_some()).map_err(|error| match error {
        TiffError::IoError(error) => CodecError::Io(error.kind() == ErrorKind::UnexpectedEof, error.to_string()),
        TiffError::LimitsExceeded | TiffError::IntSizeError => CodecError::Limit,
        TiffError::UnsupportedError(_) => CodecError::Unsupported,
        _ => CodecError::Invalid,
    })
}

/// Calls `Decoder::colortype`.
#[verifier::external_body]
fn read_color(b: &[u8]) -> (r: Result<TiffColor, CodecError>)
    requires
        is_countable(b@),
    ensures
        codec::seen(r) == tiff_color_of(b@),
{
    let found = Decoder::new(Cursor::new(b)).and_then(|mut decoder| decoder.colortype());
    found.map(|color| match color {
        ColorType::Gray(bits) => TiffColor::Gray(bits), ColorType::GrayA(bits) => TiffColor::GrayAlpha(bits),
        ColorType::RGB(bits) => TiffColor::Rgb(bits), ColorType::RGBA(bits) => TiffColor::Rgba(bits),
        ColorType::Multiband { bit_depth, num_samples } => TiffColor::Bands(bit_depth, num_samples),
        _ => TiffColor::Other,
    }).map_err(|error| match error {
        TiffError::IoError(error) => CodecError::Io(error.kind() == ErrorKind::UnexpectedEof, error.to_string()),
        TiffError::LimitsExceeded | TiffError::IntSizeError => CodecError::Limit,
        TiffError::UnsupportedError(_) => CodecError::Unsupported,
        _ => CodecError::Invalid,
    })
}

/// What `Decoder::read_image` decodes; `None` for samples that are no bytes.
pub uninterp spec fn tiff_pixels_of(b: Seq<u8>, limits: TiffLimits) -> Result<
    Option<Seq<u8>>,
    Trouble,
>;

/// A file tells its compression, and it is not JPEG, which is decoded in a way
/// that differs between machines.
pub open spec fn is_settled(b: Seq<u8>, limits: TiffLimits) -> bool {
    match tiff_number_of(b, limits, TAG_COMPRESSION) {
        Err(_) => false,
        Ok(compression) => compression != Some(7u16),
    }
}

/// Calls `Decoder::read_image`; `None` for samples that are no bytes. Nothing is
/// said of what becomes of JPEG data.
#[verifier::external_body]
fn read_pixels(b: &[u8], limits: TiffLimits) -> (r: Result<Option<Vec<u8>>, CodecError>)
    requires
        is_countable(b@),
    ensures
        is_settled(b@, limits) ==> seen_pixels(r) == tiff_pixels_of(b@, limits),
{
    let mut kept = Limits::default();
    (kept.decoding_buffer_size, kept.ifd_value_size, kept.intermediate_buffer_size) = (limits.pixels, limits.value, limits.intermediate);
    let found = Decoder::new(Cursor::new(b)).and_then(|decoder| decoder.with_limits(kept).read_image());
    found.map(|pixels| match pixels { DecodingResult::U8(pixels) => Some(pixels), _ => None }).map_err(|error| match error {
        TiffError::IoError(error) => CodecError::Io(error.kind() == ErrorKind::UnexpectedEof, error.to_string()),
        TiffError::LimitsExceeded | TiffError::IntSizeError => CodecError::Limit,
        TiffError::UnsupportedError(_) => CodecError::Unsupported,
        _ => CodecError::Invalid,
    })
}

/// Whether the samples of a pixel were multiplied by its alpha value; nothing
/// if there is no alpha value to speak of.
pub open spec fn associated(extra: Seq<u16>) -> Option<bool> {
    if extra.len() == 1 && extra[0] == 1 {
        Some(true)
    } else if extra.len() == 1 && extra[0] == 2 {
        Some(false)
    } else {
        None
    }
}

/// What pixels stand for, and whether they were multiplied by their alpha
/// values.
pub open spec fn pixel_format(
    color: TiffColor,
    extra: Seq<u16>,
    photometric: Option<u16>,
) -> Option<(PixelColor, bool)> {
    match (color, associated(extra)) {
        (TiffColor::Gray(bits), _) => if bits == 8 && extra.len() == 0 {
            Some((PixelColor::Grayscale, false))
        } else {
            None
        },
        (TiffColor::Rgb(bits), _) => if bits == 8 && extra.len() == 0 {
            Some((PixelColor::Rgb, false))
        } else {
            None
        },
        (TiffColor::GrayAlpha(bits), Some(multiplied)) => if bits == 8 {
            Some((PixelColor::GrayscaleAlpha, multiplied))
        } else {
            None
        },
        (TiffColor::Bands(bits, samples), Some(multiplied)) => if bits == 8 && samples == 2
            && photometric == Some(1u16) {
            Some((PixelColor::GrayscaleAlpha, multiplied))
        } else {
            None
        },
        (TiffColor::Rgba(bits), Some(multiplied)) => if bits == 8 {
            Some((PixelColor::Rgba, multiplied))
        } else {
            None
        },
        _ => None,
    }
}

/// How an image will be decoded.
#[derive(Debug, Clone, Copy, PartialEq, Eq, Structural)]
pub struct TiffPlan {
    pub width: u32,
    pub height: u32,
    pub color: PixelColor,
    pub multiplied: bool,
}

/// What the tags of an image say.
pub struct TiffTags {
    pub frame: Result<(bool, u32, u32), CodecError>,
    pub extra: Result<Option<Vec<u16>>, CodecError>,
    pub photometric: Result<Option<u16>, CodecError>,
    pub color: Result<TiffColor, CodecError>,
    pub orientation: Result<Option<u16>, CodecError>,
    pub planar: Result<Option<u16>, CodecError>,
    pub profile: Result<bool, CodecError>,
    pub sub_ifd: Result<bool, CodecError>,
}

/// What contracts say of `TiffTags`.
pub struct Tags {
    pub frame: Result<(bool, u32, u32), Trouble>,
    pub extra: Result<Option<Seq<u16>>, Trouble>,
    pub photometric: Result<Option<u16>, Trouble>,
    pub color: Result<TiffColor, Trouble>,
    pub orientation: Result<Option<u16>, Trouble>,
    pub planar: Result<Option<u16>, Trouble>,
    pub profile: Result<bool, Trouble>,
    pub sub_ifd: Result<bool, Trouble>,
}

impl View for TiffTags {
    type V = Tags;

    open spec fn view(&self) -> Tags {
        Tags {
            frame: codec::seen(self.frame),
            extra: seen_numbers(self.extra),
            photometric: codec::seen(self.photometric),
            color: codec::seen(self.color),
            orientation: codec::seen(self.orientation),
            planar: codec::seen(self.planar),
            profile: codec::seen(self.profile),
            sub_ifd: codec::seen(self.sub_ifd),
        }
    }
}

/// The tags that a decoder finds in a file.
pub open spec fn tags_of(b: Seq<u8>) -> Tags {
    let limits = own_limits();
    Tags {
        frame: tiff_frame_of(b),
        extra: tiff_numbers_of(b, limits, TAG_EXTRA_SAMPLES),
        photometric: tiff_number_of(b, limits, TAG_PHOTOMETRIC),
        color: tiff_color_of(b),
        orientation: tiff_number_of(b, limits, TAG_ORIENTATION),
        planar: tiff_number_of(b, limits, TAG_PLANAR_CONFIGURATION),
        profile: tiff_tag_of(b, limits, TAG_ICC_PROFILE),
        sub_ifd: tiff_tag_of(b, limits, TAG_SUB_IFD),
    }
}

/// The first failure of two or the pair of both.
pub open spec fn both<A, B>(a: Result<A, Fault>, b: Result<B, Fault>) -> Result<(A, B), Fault> {
    match a {
        Err(fault) => Err(fault),
        Ok(a) => match b {
            Err(fault) => Err(fault),
            Ok(b) => Ok((a, b)),
        },
    }
}

pub open spec fn judged<T>(r: Result<T, Trouble>) -> Result<T, Fault> {
    match r {
        Ok(value) => Ok(value),
        Err(trouble) => Err(codec::fault_of(trouble)),
    }
}

/// Whether an image is taken, and how it will be decoded.
pub open spec fn planned(tags: Tags) -> Result<TiffPlan, Fault> {
    match judged(tags.frame) {
        Err(fault) => Err(fault),
        Ok((more, width, height)) => if more {
            Err(Fault::UnsupportedImage)
        } else if !raster::allowed_size(width as int, height as int) {
            Err(Fault::TooLarge)
        } else {
            match both(judged(tags.extra), both(judged(tags.photometric), judged(tags.color))) {
                Err(fault) => Err(fault),
                Ok((extra, (photometric, color))) => {
                    let numbers = match extra {
                        Some(numbers) => numbers,
                        None => Seq::empty(),
                    };
                    match pixel_format(color, numbers, photometric) {
                        None => Err(Fault::UnsupportedImage),
                        Some((color, multiplied)) => if width * height * color.channels_spec()
                            > MAX_DECODED_BYTES {
                            Err(Fault::TooLarge)
                        } else {
                            upright(tags, TiffPlan { width, height, color, multiplied })
                        },
                    }
                },
            }
        },
    }
}

/// Only plain images are taken.
pub open spec fn upright(tags: Tags, plan: TiffPlan) -> Result<TiffPlan, Fault> {
    match both(judged(tags.orientation), judged(tags.planar)) {
        Err(fault) => Err(fault),
        Ok((orientation, planar)) => if planar is Some && planar->0 != 1 || orientation is Some
            && orientation->0 != 1 {
            Err(Fault::UnsupportedImage)
        } else {
            match judged(tags.profile) {
                Err(fault) => Err(fault),
                Ok(true) => Err(Fault::UnsupportedImage),
                Ok(false) => match judged(tags.sub_ifd) {
                    Err(fault) => Err(fault),
                    Ok(true) => Err(Fault::UnsupportedImage),
                    Ok(false) => Ok(plan),
                },
            }
        },
    }
}

/// The image that decoded bytes make up.
pub open spec fn assembled(
    plan: TiffPlan,
    pixels: Result<Option<Seq<u8>>, Trouble>,
) -> Result<Raster, Fault> {
    let channels = plan.color.channels_spec();
    match judged(pixels) {
        Err(fault) => Err(fault),
        Ok(None) => Err(Fault::UnsupportedImage),
        Ok(Some(pixels)) => if pixels.len() != plan.width * plan.height * channels {
            Err(Fault::InvalidImage)
        } else {
            Ok(
                Raster {
                    width: plan.width,
                    height: plan.height,
                    color: plan.color,
                    pixels: if plan.multiplied {
                        raster::unmultiplied_pixels(pixels, plan.width * channels, channels)
                    } else {
                        pixels
                    },
                },
            )
        },
    }
}

fn find_format(color: TiffColor, extra: &Vec<u16>, photometric: Option<u16>) -> (r: Option<
    (PixelColor, bool),
>)
    ensures
        r == pixel_format(color, extra@, photometric),
{
    let multiplied: Option<bool> = if extra.len() == 1 && extra[0] == 1 {
        Some(true)
    } else if extra.len() == 1 && extra[0] == 2 {
        Some(false)
    } else {
        None
    };
    match (color, multiplied) {
        (TiffColor::Gray(8), _) => if extra.len() == 0 {
            Some((PixelColor::Grayscale, false))
        } else {
            None
        },
        (TiffColor::Rgb(8), _) => if extra.len() == 0 {
            Some((PixelColor::Rgb, false))
        } else {
            None
        },
        (TiffColor::GrayAlpha(8), Some(multiplied)) => Some(
            (PixelColor::GrayscaleAlpha, multiplied),
        ),
        (TiffColor::Bands(8, 2), Some(multiplied)) => match photometric {
            Some(1) => Some((PixelColor::GrayscaleAlpha, multiplied)),
            _ => None,
        },
        (TiffColor::Rgba(8), Some(multiplied)) => Some((PixelColor::Rgba, multiplied)),
        _ => None,
    }
}

/// Whether an image is taken, and how it will be decoded.
pub fn plan_tiff(tags: TiffTags) -> (r: Result<TiffPlan, ImagePdfError>)
    ensures
        match planned(tags@) {
            Ok(plan) => r is Ok && r->Ok_0 == plan,
            Err(fault) => r is Err && r->Err_0@ == fault,
        },
{
    let (more, width, height): (bool, u32, u32) = match tags.frame {
        Err(error) => {
            return Err(codec_error(error));
        },
        Ok(frame) => frame,
    };
    if more {
        return Err(ImagePdfError::UnsupportedImage);
    }
    match checked_dimensions(width, height) {
        Err(error) => {
            return Err(error);
        },
        Ok(()) => {},
    }
    let extra: Vec<u16> = match tags.extra {
        Err(error) => {
            return Err(codec_error(error));
        },
        Ok(Some(numbers)) => numbers,
        Ok(None) => Vec::new(),
    };
    let photometric: Option<u16> = match tags.photometric {
        Err(error) => {
            return Err(codec_error(error));
        },
        Ok(photometric) => photometric,
    };
    let color = match tags.color {
        Err(error) => {
            return Err(codec_error(error));
        },
        Ok(color) => color,
    };
    let (color, multiplied) = match find_format(color, &extra, photometric) {
        None => {
            return Err(ImagePdfError::UnsupportedImage);
        },
        Some((color, multiplied)) => (color, multiplied),
    };
    match decoded_size(width, height, color.channels()) {
        Err(error) => {
            return Err(error);
        },
        Ok(size) => {
            if size > MAX_DECODED_BYTES {
                return Err(ImagePdfError::TooLarge);
            }
        },
    }
    let orientation: Option<u16> = match tags.orientation {
        Err(error) => {
            return Err(codec_error(error));
        },
        Ok(orientation) => orientation,
    };
    let planar: Option<u16> = match tags.planar {
        Err(error) => {
            return Err(codec_error(error));
        },
        Ok(planar) => planar,
    };
    let turned = match orientation {
        Some(value) => value != 1,
        None => false,
    };
    let split = match planar {
        Some(value) => value != 1,
        None => false,
    };
    if split || turned {
        return Err(ImagePdfError::UnsupportedImage);
    }
    match tags.profile {
        Err(error) => {
            return Err(codec_error(error));
        },
        Ok(found) => {
            if found {
                return Err(ImagePdfError::UnsupportedImage);
            }
        },
    }
    match tags.sub_ifd {
        Err(error) => {
            return Err(codec_error(error));
        },
        Ok(found) => {
            if found {
                return Err(ImagePdfError::UnsupportedImage);
            }
        },
    }
    Ok(TiffPlan { width, height, color, multiplied })
}

pub open spec fn seen_pixels(r: Result<Option<Vec<u8>>, CodecError>) -> Result<
    Option<Seq<u8>>,
    Trouble,
> {
    match r {
        Ok(Some(pixels)) => Ok(Some(pixels@)),
        Ok(None) => Ok(None),
        Err(error) => Err(error@),
    }
}

/// The image that decoded bytes make up.
pub fn assemble_tiff<F: Fn() -> bool>(
    plan: &TiffPlan,
    pixels: Result<Option<Vec<u8>>, CodecError>,
    should_stop: &F,
) -> (r: Result<RasterImage, ImagePdfError>)
    requires
        plan.width > 0,
        plan.height > 0,
        should_stop.requires(()),
    ensures
        halted(r, *should_stop) || gives(r, assembled(*plan, seen_pixels(pixels))),
{
    let channels = plan.color.channels();
    let mut pixels = match pixels {
        Err(error) => {
            return Err(codec_error(error));
        },
        Ok(None) => {
            return Err(ImagePdfError::UnsupportedImage);
        },
        Ok(Some(pixels)) => pixels,
    };
    assert(pixels.len() <= usize::MAX);
    match decoded_size(plan.width, plan.height, channels) {
        Err(_) => {
            return Err(ImagePdfError::InvalidImage);
        },
        Ok(size) => {
            if pixels.len() != size {
                return Err(ImagePdfError::InvalidImage);
            }
        },
    }
    if plan.multiplied {
        match unpremultiply_alpha(&mut pixels, plan.width, channels, should_stop) {
            Err(error) => {
                assert(plan.width * channels <= plan.width * plan.height * channels)
                    by (nonlinear_arith)
                    requires
                        plan.width > 0,
                        plan.height > 0,
                        channels >= 0,
                ;
                return Err(error);
            },
            Ok(()) => {},
        }
    }
    Ok(RasterImage { width: plan.width, height: plan.height, color: plan.color, pixels })
}

/// Whether the image of a file is taken, and how it will be decoded. A file whose
/// strips or tiles cannot be counted is not decoded; it is too large, if its size
/// is.
pub open spec fn plan_of(b: Seq<u8>) -> Result<TiffPlan, Fault> {
    if is_countable(b) {
        planned(tags_of(b))
    } else if raster::allowed_size(layout(b)->0.width as int, layout(b)->0.height as int) {
        Err(Fault::InvalidImage)
    } else {
        Err(Fault::TooLarge)
    }
}

/// `pixels` is what the decoder can give for a file.
pub open spec fn may_decode(b: Seq<u8>, pixels: Result<Option<Seq<u8>>, Trouble>) -> bool {
    is_settled(b, own_limits()) ==> pixels == tiff_pixels_of(b, own_limits())
}

/// Decodes a TIFF image. What the decoder gives is put together as `assembled`
/// says.
pub fn decode_tiff<F: Fn() -> bool>(b: &[u8], should_stop: &F) -> (r: Result<
    RasterImage,
    ImagePdfError,
>)
    requires
        should_stop.requires(()),
    ensures
        stopping::always(*should_stop) ==> halted(r, *should_stop),
        halted(r, *should_stop) || match plan_of(b@) {
            Err(fault) => r is Err && r->Err_0@ == fault,
            Ok(plan) => exists|pixels: Result<Option<Seq<u8>>, Trouble>|
                may_decode(b@, pixels) && #[trigger] gives(r, assembled(plan, pixels)),
        },
{
    if should_stop() {
        return Err(ImagePdfError::Cancelled);
    }
    if let Some(layout) = read_layout(b) {
        if !layout.can_be_counted() {
            return match checked_dimensions(layout.width, layout.height) {
                Ok(()) => Err(ImagePdfError::InvalidImage),
                Err(error) => Err(error),
            };
        }
    }
    let limits = TiffLimits {
        pixels: MAX_DECODED_BYTES,
        value: MAX_VALUE_BYTES,
        intermediate: MAX_INTERMEDIATE_BYTES,
    };
    let tags = TiffTags {
        frame: read_frame(b),
        extra: read_numbers(b, limits, TAG_EXTRA_SAMPLES),
        photometric: read_number(b, limits, TAG_PHOTOMETRIC),
        color: read_color(b),
        orientation: read_number(b, limits, TAG_ORIENTATION),
        planar: read_number(b, limits, TAG_PLANAR_CONFIGURATION),
        profile: read_tag(b, limits, TAG_ICC_PROFILE),
        sub_ifd: read_tag(b, limits, TAG_SUB_IFD),
    };
    let plan = match plan_tiff(tags) {
        Err(error) => {
            return Err(error);
        },
        Ok(plan) => plan,
    };
    if should_stop() {
        return Err(ImagePdfError::Cancelled);
    }
    let pixels = read_pixels(b, limits);
    let ghost found = seen_pixels(pixels);
    let r = assemble_tiff(&plan, pixels, should_stop);
    assert(halted(r, *should_stop) || gives(r, assembled(plan, found)));
    r
}

} // verus!
