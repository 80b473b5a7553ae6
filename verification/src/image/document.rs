//! PDF files that show images, one on each page.

use vstd::prelude::*;
use vstd::utf8::*;

use crate::bytes;
use crate::bytes::{append, push_decimal, push_padded};
use crate::image::error::{concludes, gives, halted, Fault, ImagePdfError};
use crate::image::picture;
use crate::image::picture::{read_image, ImageKind, InputImage, Source};
use crate::image::raster;
use crate::image::raster::{take_component, PixelColor};
use crate::pdf::filter;
use crate::pdf::filter::write_zlib;
use crate::pdf_out;
use crate::pdf_out::{Draft, PdfOutput};
use crate::stopping;

verus! {

/// The most bytes that a file may have.
pub const MAX_PDF_BYTES: usize = 134_217_728;

/// The most images that a file may show.
pub const MAX_IMAGES: usize = 200;

/// The most bytes that the images of a file may have together.
pub const MAX_BATCH_INPUT_BYTES: u64 = 536_870_912;

/// The longest side that a page may have, in points.
pub const MAX_PAGE_SIDE: u32 = 14_400;

/// How the data of an image is encoded.
#[derive(Debug, Clone, Copy, PartialEq, Eq, Structural)]
pub enum Encoding {
    Flate,
    /// JPEG data; with a color transform if there are three components.
    Jpeg(Option<u8>),
}

/// An image as it is embedded.
#[derive(Debug)]
pub struct Picture {
    pub width: u32,
    pub height: u32,
    /// Pixels are red, green and blue; they are gray otherwise.
    pub rgb: bool,
    pub encoding: Encoding,
    pub data: Vec<u8>,
    /// How opaque the pixels are, as compressed data.
    pub mask: Option<Vec<u8>>,
}

/// What contracts say of a `Picture`.
pub struct Plate {
    pub width: u32,
    pub height: u32,
    pub rgb: bool,
    pub encoding: Encoding,
    pub data: Seq<u8>,
    pub mask: Option<Seq<u8>>,
}

impl View for Picture {
    type V = Plate;

    open spec fn view(&self) -> Plate {
        Plate {
            width: self.width,
            height: self.height,
            rgb: self.rgb,
            encoding: self.encoding,
            data: self.data@,
            mask: match self.mask {
                None => None,
                Some(mask) => Some(mask@),
            },
        }
    }
}

/// An image as it is embedded. Pixels are compressed, the opaqueness of each
/// apart from its color; a JPEG file stays as it is.
pub open spec fn prepared(source: Source) -> Result<Plate, Fault> {
    match source {
        Source::Raster(image) => {
            let channels = image.color.channels_spec();
            if image.width * channels > usize::MAX || image.height * (image.width * channels)
                > usize::MAX {
                Err(Fault::TooLarge)
            } else if !raster::whole_raster(image) {
                Err(Fault::InvalidImage)
            } else {
                Ok(
                    Plate {
                        width: image.width,
                        height: image.height,
                        rgb: image.color == PixelColor::Rgb || image.color == PixelColor::Rgba,
                        encoding: Encoding::Flate,
                        data: filter::zlib_of(raster::component(image, false)),
                        mask: if image.color.has_alpha_spec() {
                            Some(filter::zlib_of(raster::component(image, true)))
                        } else {
                            None
                        },
                    },
                )
            }
        },
        Source::Jpeg(info, b) => Ok(
            Plate {
                width: info.width,
                height: info.height,
                rgb: info.components == 3,
                encoding: Encoding::Jpeg(
                    if info.components == 3 {
                        Some(info.color_transform)
                    } else {
                        None
                    },
                ),
                data: b,
                mask: None,
            },
        ),
    }
}

/// A reader of `data` finds `plain` in it.
pub open spec fn unpacks_to(data: Seq<u8>, plain: Seq<u8>) -> bool {
    forall|most: nat|
        most > plain.len() ==> #[trigger] filter::zlib_prefix(data, most) == Some(plain)
}

/// A reader of the embedded image finds the pixels of `source` in it, and how
/// opaque they are.
pub open spec fn shows(plate: Plate, source: Source) -> bool {
    match source {
        Source::Raster(image) => {
            &&& unpacks_to(plate.data, raster::component(image, false))
            &&& match plate.mask {
                None => !image.color.has_alpha_spec(),
                Some(mask) => image.color.has_alpha_spec() && unpacks_to(
                    mask,
                    raster::component(image, true),
                ),
            }
        },
        Source::Jpeg(_, b) => plate.data == b && plate.mask is None,
    }
}

/// Compresses the pixels of an image. What is compressed can be read back.
pub fn prepare_image<F: Fn() -> bool>(image: InputImage, should_stop: &F) -> (r: Result<
    Picture,
    ImagePdfError,
>)
    requires
        should_stop.requires(()),
    ensures
        concludes(r, prepared(image@), *should_stop),
        r is Ok ==> shows(r->Ok_0@, image@),
{
    match image {
        InputImage::Raster(raster) => {
            let data = match take_component(&raster, false, should_stop) {
                Err(error) => {
                    return Err(error);
                },
                Ok(data) => write_zlib(data.as_slice()),
            };
            let mask = if raster.color.has_alpha() {
                match take_component(&raster, true, should_stop) {
                    Err(error) => {
                        return Err(error);
                    },
                    Ok(mask) => Some(write_zlib(mask.as_slice())),
                }
            } else {
                None
            };
            let rgb = raster.color == PixelColor::Rgb || raster.color == PixelColor::Rgba;
            Ok(
                Picture {
                    width: raster.width,
                    height: raster.height,
                    rgb,
                    encoding: Encoding::Flate,
                    data,
                    mask,
                },
            )
        },
        InputImage::Jpeg(info, b) => {
            let transform = if info.components == 3 {
                Some(info.color_transform)
            } else {
                None
            };
            Ok(
                Picture {
                    width: info.width,
                    height: info.height,
                    rgb: info.components == 3,
                    encoding: Encoding::Jpeg(transform),
                    data: b,
                    mask: None,
                },
            )
        },
    }
}

/// The integer nearest to `n / d`; the even one of two that are as near.
pub open spec fn rounded(n: int, d: int) -> int {
    let q = n / d;
    let twice = 2 * (n % d);
    if twice < d || (twice == d && q % 2 == 0) {
        q
    } else {
        q + 1
    }
}

/// A side of a page in ten-thousandths of a point: as long as the image has
/// pixels, unless the page would be too large. It is then scaled down.
pub open spec fn page_side(side: u32, longest: u32) -> int {
    if longest <= MAX_PAGE_SIDE {
        side * 10_000
    } else {
        rounded(side * 144_000_000, longest as int)
    }
}

/// A number of ten-thousandths with four digits behind the point.
pub open spec fn tenths(n: int) -> Seq<u8> {
    bytes::decimal((n / 10_000) as nat) + encode_utf8("."@) + bytes::padded(
        (n % 10_000) as nat,
        4,
    )
}

pub open spec fn longest(plate: Plate) -> u32 {
    if plate.width >= plate.height {
        plate.width
    } else {
        plate.height
    }
}

/// The width of a page as a file gives it.
pub open spec fn width_text(plate: Plate) -> Seq<u8> {
    tenths(page_side(plate.width, longest(plate)))
}

/// The height of a page as a file gives it.
pub open spec fn height_text(plate: Plate) -> Seq<u8> {
    tenths(page_side(plate.height, longest(plate)))
}

/// A page never has a side that is longer than the limit.
pub proof fn law_page_fits(width: u32, height: u32)
    ensures
        ({
            let longest = if width >= height {
                width
            } else {
                height
            };
            &&& 0 <= page_side(width, longest) <= MAX_PAGE_SIDE * 10_000
            &&& 0 <= page_side(height, longest) <= MAX_PAGE_SIDE * 10_000
        }),
{
    let longest = if width >= height {
        width
    } else {
        height
    };
    if longest > MAX_PAGE_SIDE {
        lemma_rounded(width as int * 144_000_000, longest as int, 144_000_000);
        lemma_rounded(height as int * 144_000_000, longest as int, 144_000_000);
    }
}

proof fn lemma_rounded(n: int, d: int, most: int)
    requires
        0 <= n <= d * most,
        d > 0,
        most >= 0,
    ensures
        0 <= rounded(n, d) <= most,
{
    let q = n / d;
    let r = n % d;
    assert(n == d * q + r && 0 <= r < d) by (nonlinear_arith)
        requires
            d > 0,
            q == n / d,
            r == n % d,
    ;
    assert(0 <= q <= most && (q == most ==> r == 0)) by (nonlinear_arith)
        requires
            n == d * q + r,
            0 <= r < d,
            0 <= n <= d * most,
            d > 0,
    ;
}

fn side_of(side: u32, longest: u32) -> (r: u64)
    requires
        side <= longest,
    ensures
        r == page_side(side, longest),
{
    if longest <= MAX_PAGE_SIDE {
        side as u64 * 10_000
    } else {
        let n: u64 = side as u64 * 144_000_000;
        let d: u64 = longest as u64;
        proof {
            lemma_rounded(n as int, d as int, 144_000_000);
        }
        let q: u64 = n / d;
        let twice: u64 = 2 * (n % d);
        if twice < d || (twice == d && q % 2 == 0) {
            q
        } else {
            q + 1
        }
    }
}

fn push_tenths(out: &mut Vec<u8>, n: u64)
    ensures
        final(out)@ == old(out)@ + tenths(n as int),
{
    push_decimal(out, (n / 10_000) as u128);
    append(out, ".".as_bytes());
    push_padded(out, n % 10_000, 4);
    assert(out@ =~= old(out)@ + tenths(n as int));
}

fn side_texts(picture: &Picture) -> (r: (Vec<u8>, Vec<u8>))
    ensures
        r.0@ == width_text(picture@),
        r.1@ == height_text(picture@),
{
    let longest: u32 = if picture.width >= picture.height {
        picture.width
    } else {
        picture.height
    };
    let mut width: Vec<u8> = Vec::new();
    push_tenths(&mut width, side_of(picture.width, longest));
    assert(width@ =~= width_text(picture@));
    let mut height: Vec<u8> = Vec::new();
    push_tenths(&mut height, side_of(picture.height, longest));
    assert(height@ =~= height_text(picture@));
    (width, height)
}

/// The object of a page.
#[verifier::opaque]
pub open spec fn page_body(plate: Plate, image_object: int, content_object: int) -> Seq<u8> {
    encode_utf8("<< /Type /Page /Parent 2 0 R /MediaBox [0 0 "@) + width_text(plate) + encode_utf8(
        " "@,
    ) + height_text(plate) + encode_utf8("] /Resources << /XObject << /Im0 "@) + bytes::decimal(
        image_object as nat,
    ) + encode_utf8(" 0 R >> >> /Contents "@) + bytes::decimal(content_object as nat)
        + encode_utf8(" 0 R >>"@)
}

fn page_object(picture: &Picture, image_object: usize, content_object: usize) -> (r: Vec<u8>)
    ensures
        r@ == page_body(picture@, image_object as int, content_object as int),
{
    reveal(page_body);
    let (width, height) = side_texts(picture);
    let mut out: Vec<u8> = Vec::new();
    append(&mut out, "<< /Type /Page /Parent 2 0 R /MediaBox [0 0 ".as_bytes());
    assert(out@ =~= encode_utf8("<< /Type /Page /Parent 2 0 R /MediaBox [0 0 "@));
    append(&mut out, width.as_slice());
    append(&mut out, " ".as_bytes());
    append(&mut out, height.as_slice());
    append(&mut out, "] /Resources << /XObject << /Im0 ".as_bytes());
    push_decimal(&mut out, image_object as u128);
    append(&mut out, " 0 R >> >> /Contents ".as_bytes());
    push_decimal(&mut out, content_object as u128);
    append(&mut out, " 0 R >>".as_bytes());
    out
}

/// What draws the image over its page.
#[verifier::opaque]
pub open spec fn drawing(plate: Plate) -> Seq<u8> {
    encode_utf8("q\n"@) + width_text(plate) + encode_utf8(" 0 0 "@) + height_text(plate)
        + encode_utf8(" 0 0 cm\n/Im0 Do\nQ\n"@)
}

/// The object that draws the image over its page.
#[verifier::opaque]
pub open spec fn content_body(plate: Plate) -> Seq<u8> {
    encode_utf8("<< /Length "@) + bytes::decimal(drawing(plate).len()) + encode_utf8(
        " >>\nstream\n"@,
    ) + drawing(plate) + encode_utf8("endstream"@)
}

fn content_object(picture: &Picture) -> (r: Vec<u8>)
    ensures
        r@ == content_body(picture@),
{
    reveal(content_body);
    let (width, height) = side_texts(picture);
    let mut content: Vec<u8> = Vec::new();
    append(&mut content, "q\n".as_bytes());
    assert(content@ =~= encode_utf8("q\n"@));
    append(&mut content, width.as_slice());
    append(&mut content, " 0 0 ".as_bytes());
    append(&mut content, height.as_slice());
    append(&mut content, " 0 0 cm\n/Im0 Do\nQ\n".as_bytes());
    assert(content@ == drawing(picture@)) by {
        reveal(drawing);
    }
    let mut out: Vec<u8> = Vec::new();
    append(&mut out, "<< /Length ".as_bytes());
    assert(out@ =~= encode_utf8("<< /Length "@));
    push_decimal(&mut out, content.len() as u128);
    append(&mut out, " >>\nstream\n".as_bytes());
    append(&mut out, content.as_slice());
    append(&mut out, "endstream".as_bytes());
    out
}

/// The color space of an image.
pub open spec fn color_space(plate: Plate) -> Seq<u8> {
    if plate.rgb {
        encode_utf8("/DeviceRGB"@)
    } else {
        encode_utf8("/DeviceGray"@)
    }
}

/// How a reader decodes the data of an image.
pub open spec fn filter_text(plate: Plate) -> Seq<u8> {
    match plate.encoding {
        Encoding::Flate => encode_utf8("/FlateDecode"@),
        Encoding::Jpeg(None) => encode_utf8("/DCTDecode"@),
        Encoding::Jpeg(Some(transform)) => encode_utf8("/DCTDecode"@) + encode_utf8(
            " /DecodeParms << /ColorTransform "@,
        ) + bytes::decimal(transform as nat) + encode_utf8(" >>"@),
    }
}

/// Where a reader finds how opaque the pixels are.
pub open spec fn mask_text(plate: Plate, mask_object: int) -> Seq<u8> {
    match plate.mask {
        None => Seq::empty(),
        Some(_) => encode_utf8(" /SMask "@) + bytes::decimal(mask_object as nat) + encode_utf8(
            " 0 R"@,
        ),
    }
}

/// What stands before the data of an image.
#[verifier::opaque]
pub open spec fn image_head(plate: Plate, mask_object: int, length_object: int) -> Seq<u8> {
    encode_utf8("<< /Type /XObject /Subtype /Image /Width "@) + bytes::decimal(plate.width as nat)
        + encode_utf8(" /Height "@) + bytes::decimal(plate.height as nat) + encode_utf8(
        " /ColorSpace "@,
    ) + color_space(plate) + encode_utf8(" /BitsPerComponent 8 /Filter "@) + filter_text(plate)
        + mask_text(plate, mask_object) + encode_utf8(" /Length "@) + bytes::decimal(
        length_object as nat,
    ) + encode_utf8(" 0 R >>\nstream\n"@)
}

fn head_of_image(picture: &Picture, mask_object: usize, length_object: usize) -> (r: Vec<u8>)
    ensures
        r@ == image_head(picture@, mask_object as int, length_object as int),
{
    reveal(image_head);
    let mut filter: Vec<u8> = Vec::new();
    match picture.encoding {
        Encoding::Flate => {
            append(&mut filter, "/FlateDecode".as_bytes());
        },
        Encoding::Jpeg(transform) => {
            append(&mut filter, "/DCTDecode".as_bytes());
            assert(filter@ =~= encode_utf8("/DCTDecode"@));
            match transform {
                None => {},
                Some(transform) => {
                    append(&mut filter, " /DecodeParms << /ColorTransform ".as_bytes());
                    push_decimal(&mut filter, transform as u128);
                    append(&mut filter, " >>".as_bytes());
                },
            }
        },
    }
    assert(filter@ =~= filter_text(picture@));
    let mut mask: Vec<u8> = Vec::new();
    if picture.mask.is_some() {
        append(&mut mask, " /SMask ".as_bytes());
        push_decimal(&mut mask, mask_object as u128);
        append(&mut mask, " 0 R".as_bytes());
    }
    assert(mask@ =~= mask_text(picture@, mask_object as int));
    let space = if picture.rgb {
        "/DeviceRGB"
    } else {
        "/DeviceGray"
    };
    let mut out: Vec<u8> = Vec::new();
    append(&mut out, "<< /Type /XObject /Subtype /Image /Width ".as_bytes());
    assert(out@ =~= encode_utf8("<< /Type /XObject /Subtype /Image /Width "@));
    push_decimal(&mut out, picture.width as u128);
    append(&mut out, " /Height ".as_bytes());
    push_decimal(&mut out, picture.height as u128);
    append(&mut out, " /ColorSpace ".as_bytes());
    append(&mut out, space.as_bytes());
    append(&mut out, " /BitsPerComponent 8 /Filter ".as_bytes());
    append(&mut out, filter.as_slice());
    append(&mut out, mask.as_slice());
    append(&mut out, " /Length ".as_bytes());
    push_decimal(&mut out, length_object as u128);
    append(&mut out, " 0 R >>\nstream\n".as_bytes());
    out
}

/// The mask of an image, as an image of its own.
pub open spec fn mask_plate(plate: Plate) -> Plate {
    Plate {
        width: plate.width,
        height: plate.height,
        rgb: false,
        encoding: Encoding::Flate,
        data: Seq::empty(),
        mask: None,
    }
}

/// The next object is a stream.
pub open spec fn with_stream(draft: Draft, head: Seq<u8>, data: Seq<u8>) -> Draft {
    draft.with_start().with(head).with(data).with(encode_utf8("\nendstream"@)).with(
        pdf_out::object_end(),
    )
}

fn write_stream(pdf: &mut PdfOutput, head: &[u8], data: &[u8])
    ensures
        final(pdf)@ == with_stream(old(pdf)@, head@, data@),
{
    pdf.start_object();
    pdf.append(head);
    pdf.append(data);
    pdf.append_text("\nendstream");
    pdf.end_object();
}

fn write_mask(pdf: &mut PdfOutput, picture: &Picture, mask: &Vec<u8>, length_object: usize)
    ensures
        final(pdf)@ == with_stream(
            old(pdf)@,
            image_head(mask_plate(picture@), 0, length_object as int),
            mask@,
        ),
{
    let stand_in = Picture {
        width: picture.width,
        height: picture.height,
        rgb: false,
        encoding: Encoding::Flate,
        data: Vec::new(),
        mask: None,
    };
    let head = head_of_image(&stand_in, 0, length_object);
    assert(stand_in@.data =~= Seq::<u8>::empty());
    assert(stand_in@ == mask_plate(picture@));
    write_stream(pdf, head.as_slice(), mask.as_slice());
}

fn write_length(pdf: &mut PdfOutput, length: usize)
    ensures
        final(pdf)@ == old(pdf)@.with_object(bytes::decimal(length as nat)),
{
    let mut body: Vec<u8> = Vec::new();
    push_decimal(&mut body, length as u128);
    assert(body@ =~= bytes::decimal(length as nat));
    pdf.object(body.as_slice());
}

/// The first line of a file, and a line of bytes that are no text.
pub open spec fn header() -> Seq<u8> {
    encode_utf8("%PDF-1.4\n%"@) + seq![0xe2u8, 0xe3u8, 0xcfu8, 0xd3u8, 0x0au8]
}

fn begin() -> (r: PdfOutput)
    ensures
        r@ == Draft::begun(header()).with_object(encode_utf8("<< /Type /Catalog /Pages 2 0 R >>"@)),
{
    let mut head: Vec<u8> = Vec::new();
    append(&mut head, "%PDF-1.4\n%".as_bytes());
    head.push(0xe2);
    head.push(0xe3);
    head.push(0xcf);
    head.push(0xd3);
    head.push(0x0a);
    assert(head@ =~= header());
    let mut pdf = PdfOutput::new(head);
    pdf.object("<< /Type /Catalog /Pages 2 0 R >>".as_bytes());
    pdf
}

/// A file that shows one image, before its cross-reference table.
#[verifier::opaque]
pub open spec fn single_draft(plate: Plate) -> Draft {
    let draft = Draft::begun(header()).with_object(
        encode_utf8("<< /Type /Catalog /Pages 2 0 R >>"@),
    ).with_object(encode_utf8("<< /Type /Pages /Kids [3 0 R] /Count 1 >>"@)).with_object(
        page_body(plate, 5, 4),
    ).with_object(content_body(plate));
    match plate.mask {
        None => with_stream(draft, image_head(plate, 6, 6), plate.data).with_object(
            bytes::decimal(plate.data.len()),
        ),
        Some(mask) => with_stream(
            with_stream(draft, image_head(plate, 6, 7), plate.data),
            image_head(mask_plate(plate), 0, 8),
            mask,
        ).with_object(bytes::decimal(plate.data.len())).with_object(bytes::decimal(mask.len())),
    }
}

/// A file, unless it is too large.
pub open spec fn limited(draft: Draft) -> Result<Seq<u8>, Fault> {
    if draft.finished().len() > MAX_PDF_BYTES {
        Err(Fault::OutputTooLarge)
    } else {
        Ok(draft.finished())
    }
}

fn finish_limited(pdf: PdfOutput) -> (r: Result<Vec<u8>, ImagePdfError>)
    ensures
        gives(r, limited(pdf@)),
{
    let out = pdf.finish();
    if out.len() > MAX_PDF_BYTES {
        return Err(ImagePdfError::OutputTooLarge);
    }
    Ok(out)
}

/// Writes a file that shows one image.
fn write_single(picture: &Picture) -> (r: Result<Vec<u8>, ImagePdfError>)
    ensures
        gives(r, limited(single_draft(picture@))),
{
    reveal(single_draft);
    let mut pdf = begin();
    pdf.object("<< /Type /Pages /Kids [3 0 R] /Count 1 >>".as_bytes());
    let page = page_object(picture, 5, 4);
    pdf.object(page.as_slice());
    let content = content_object(picture);
    pdf.object(content.as_slice());
    match &picture.mask {
        None => {
            let head = head_of_image(picture, 6, 6);
            write_stream(&mut pdf, head.as_slice(), picture.data.as_slice());
            write_length(&mut pdf, picture.data.len());
        },
        Some(mask) => {
            let head = head_of_image(picture, 6, 7);
            write_stream(&mut pdf, head.as_slice(), picture.data.as_slice());
            write_mask(&mut pdf, picture, mask, 8);
            write_length(&mut pdf, picture.data.len());
            write_length(&mut pdf, mask.len());
        },
    }
    finish_limited(pdf)
}

/// The file that shows an image.
pub open spec fn image_pdf(source: Source) -> Result<Seq<u8>, Fault> {
    match prepared(source) {
        Err(fault) => Err(fault),
        Ok(plate) => limited(single_draft(plate)),
    }
}

/// Writes a file that shows one image.
pub fn write_pdf<F: Fn() -> bool>(image: InputImage, should_stop: &F) -> (r: Result<
    Vec<u8>,
    ImagePdfError,
>)
    requires
        should_stop.requires(()),
    ensures
        concludes(r, image_pdf(image@), *should_stop),
{
    let picture = match prepare_image(image, should_stop) {
        Err(error) => {
            return Err(error);
        },
        Ok(picture) => picture,
    };
    let r = write_single(&picture);
    if should_stop() {
        return Err(ImagePdfError::Cancelled);
    }
    r
}

/// Reads an image file and writes a file that shows it. `outcome` stands for
/// what reading gave.
pub open spec fn converts(
    kind: ImageKind,
    b: Seq<u8>,
    r: Result<Vec<u8>, ImagePdfError>,
) -> bool {
    exists|outcome: Result<Source, Fault>| #[trigger]
        picture::reads_as(kind, b, outcome) && match outcome {
            Err(fault) => gives(r, Err(fault)),
            Ok(source) => gives(r, image_pdf(source)),
        }
}

/// Where a PDF file is to be written.
#[derive(Debug, Clone, Copy)]
pub struct OutputPath {
    pub absolute: bool,
    /// The parent is a directory.
    pub in_directory: bool,
}

impl OutputPath {
    /// A file may be written there.
    pub open spec fn allowed(self) -> bool {
        self.absolute && self.in_directory
    }
}

/// Turns an image file into a PDF file.
pub fn write_image_pdf<F: Fn() -> bool>(
    input: Result<(ImageKind, Vec<u8>), ImagePdfError>,
    output: OutputPath,
    should_stop: &F,
) -> (r: Result<Vec<u8>, ImagePdfError>)
    requires
        should_stop.requires(()),
    ensures
        output.allowed() && stopping::always(*should_stop) ==> halted(r, *should_stop),
        if !output.allowed() {
            gives(r, Err(Fault::InvalidOutputPath))
        } else {
            halted(r, *should_stop) || match input {
                Err(error) => gives(r, Err(error@)),
                Ok((kind, b)) => converts(kind, b@, r),
            }
        },
{
    if !output.absolute || !output.in_directory {
        return Err(ImagePdfError::InvalidOutputPath);
    }
    if should_stop() {
        return Err(ImagePdfError::Cancelled);
    }
    let (kind, b) = match input {
        Err(error) => {
            return Err(error);
        },
        Ok((kind, b)) => (kind, b),
    };
    let ghost bytes = b@;
    let image = read_image(kind, b, should_stop);
    let ghost outcome = picture::outcome(image);
    match image {
        Err(error) => {
            let r: Result<Vec<u8>, ImagePdfError> = Err(error);
            assert(halted(r, *should_stop) || (picture::reads_as(kind, bytes, outcome) && gives(
                r,
                Err(outcome->Err_0),
            )));
            r
        },
        Ok(image) => {
            assert(picture::reads_as(kind, bytes, outcome));
            if should_stop() {
                return Err(ImagePdfError::Cancelled);
            }
            write_pdf(image, should_stop)
        },
    }
}

/// How many objects a page of a file with several images has.
pub const OBJECTS_PER_PAGE: usize = 6;

/// The number of the object of page `index`.
pub open spec fn page_number(index: int) -> int {
    index * OBJECTS_PER_PAGE + 3
}

/// The references to the first `n` pages.
pub open spec fn kids(n: int) -> Seq<u8>
    decreases n,
{
    if n <= 0 {
        Seq::empty()
    } else {
        kids(n - 1) + bytes::decimal(page_number(n - 1) as nat) + encode_utf8(" 0 R "@)
    }
}

/// The object that lists the pages.
#[verifier::opaque]
pub open spec fn pages_body(count: int) -> Seq<u8> {
    encode_utf8("<< /Type /Pages /Kids ["@) + kids(count) + encode_utf8("] /Count "@)
        + bytes::decimal(count as nat) + encode_utf8(" >>"@)
}

/// A page with its image is written next.
#[verifier::opaque]
pub open spec fn with_page(draft: Draft, plate: Plate) -> Draft {
    let number = draft.offsets.len() as int + 1;
    let shown = with_stream(
        draft.with_object(page_body(plate, number + 2, number + 1)).with_object(
            content_body(plate),
        ),
        image_head(plate, number + 4, number + 3),
        plate.data,
    ).with_object(bytes::decimal(plate.data.len()));
    match plate.mask {
        None => shown.with_object(encode_utf8("null"@)).with_object(encode_utf8("0"@)),
        Some(mask) => with_stream(
            shown,
            image_head(mask_plate(plate), 0, number + 5),
            mask,
        ).with_object(bytes::decimal(mask.len())),
    }
}

/// A file that shows several images, as far as it is written.
pub struct Book {
    pub draft: Draft,
    /// How many pages it is to have, and how many it has.
    pub count: int,
    pub written: int,
    /// How many bytes the files of its images have together.
    pub total: int,
}

impl Book {
    /// Page `i` is the object that the list of pages says.
    pub open spec fn wf(self) -> bool {
        &&& 0 < self.count <= MAX_IMAGES
        &&& 0 <= self.written <= self.count
        &&& 0 <= self.total <= MAX_BATCH_INPUT_BYTES
        &&& self.draft.offsets.len() + 1 == page_number(self.written)
        &&& self.draft.wf()
    }

    pub open spec fn opened(count: int) -> Book {
        Book {
            draft: Draft::begun(header()).with_object(
                encode_utf8("<< /Type /Catalog /Pages 2 0 R >>"@),
            ).with_object(pages_body(count)),
            count,
            written: 0,
            total: 0,
        }
    }

    /// The next image is added.
    pub open spec fn with_image(self, source: Source, length: int) -> Result<Book, Fault> {
        if self.total + length > MAX_BATCH_INPUT_BYTES {
            Err(Fault::TooLarge)
        } else {
            match prepared(source) {
                Err(fault) => Err(fault),
                Ok(plate) => {
                    let draft = with_page(self.draft, plate);
                    if draft.bytes.len() > MAX_PDF_BYTES {
                        Err(Fault::OutputTooLarge)
                    } else {
                        Ok(
                            Book {
                                draft,
                                count: self.count,
                                written: self.written + 1,
                                total: self.total + length,
                            },
                        )
                    }
                },
            }
        }
    }
}

/// A file that shows several images, as far as it is written.
#[derive(Debug)]
pub struct ImageBook {
    pdf: PdfOutput,
    count: usize,
    written: usize,
    total: u64,
}

impl View for ImageBook {
    type V = Book;

    closed spec fn view(&self) -> Book {
        Book {
            draft: self.pdf@,
            count: self.count as int,
            written: self.written as int,
            total: self.total as int,
        }
    }
}

fn list_pages(count: usize) -> (r: Vec<u8>)
    requires
        count <= MAX_IMAGES,
    ensures
        r@ == pages_body(count as int),
{
    reveal(pages_body);
    let mut list: Vec<u8> = Vec::new();
    let mut i: usize = 0;
    while i < count
        invariant
            i <= count <= MAX_IMAGES,
            list@ == kids(i as int),
        decreases count - i,
    {
        push_decimal(&mut list, (i * OBJECTS_PER_PAGE + 3) as u128);
        append(&mut list, " 0 R ".as_bytes());
        i += 1;
    }
    let mut out: Vec<u8> = Vec::new();
    append(&mut out, "<< /Type /Pages /Kids [".as_bytes());
    assert(out@ =~= encode_utf8("<< /Type /Pages /Kids ["@));
    append(&mut out, list.as_slice());
    append(&mut out, "] /Count ".as_bytes());
    push_decimal(&mut out, count as u128);
    append(&mut out, " >>".as_bytes());
    out
}

/// Writes a page and its image, whose objects begin with object `number`.
fn write_page(pdf: &mut PdfOutput, number: usize, picture: &Picture)
    requires
        number == old(pdf)@.offsets.len() + 1,
        number <= 10_000,
    ensures
        final(pdf)@ == with_page(old(pdf)@, picture@),
{
    reveal(with_page);
    let page = page_object(picture, number + 2, number + 1);
    pdf.object(page.as_slice());
    let content = content_object(picture);
    pdf.object(content.as_slice());
    let head = head_of_image(picture, number + 4, number + 3);
    write_stream(pdf, head.as_slice(), picture.data.as_slice());
    write_length(pdf, picture.data.len());
    match &picture.mask {
        None => {
            pdf.object("null".as_bytes());
            pdf.object("0".as_bytes());
        },
        Some(mask) => {
            write_mask(pdf, picture, mask, number + 5);
            write_length(pdf, mask.len());
        },
    }
}

proof fn lemma_page(draft: Draft, plate: Plate)
    ensures
        with_page(draft, plate).offsets.len() == draft.offsets.len() + OBJECTS_PER_PAGE,
{
    reveal(with_page);
}

impl ImageBook {
    /// Begins a file that is to show `count` images, up to the limit.
    pub fn new(count: usize) -> (r: Result<ImageBook, ImagePdfError>)
        ensures
            if 0 < count <= MAX_IMAGES {
                r is Ok && r->Ok_0@ == Book::opened(count as int) && r->Ok_0@.wf()
            } else {
                r is Err && r->Err_0@ == Fault::InvalidInput
            },
    {
        if count == 0 || count > MAX_IMAGES {
            return Err(ImagePdfError::InvalidInput);
        }
        let mut pdf = begin();
        let pages = list_pages(count);
        pdf.object(pages.as_slice());
        proof {
            let catalog = encode_utf8("<< /Type /Catalog /Pages 2 0 R >>"@);
            lemma_begun();
            pdf_out::law_draft_keeps_offsets(Draft::begun(header()), catalog);
            pdf_out::law_draft_keeps_offsets(
                Draft::begun(header()).with_object(catalog),
                pages_body(count as int),
            );
        }
        Ok(ImageBook { pdf, count, written: 0, total: 0 })
    }

    /// Adds the next image, whose file has `length` bytes. After a failure
    /// nothing may be added any more.
    pub fn add_image<F: Fn() -> bool>(
        &mut self,
        image: InputImage,
        length: u64,
        should_stop: &F,
    ) -> (r: Result<(), ImagePdfError>)
        requires
            old(self)@.wf(),
            old(self)@.written < old(self)@.count,
            should_stop.requires(()),
        ensures
            halted(r, *should_stop) || match old(self)@.with_image(image@, length as int) {
                Err(fault) => r is Err && r->Err_0@ == fault,
                Ok(book) => r is Ok && final(self)@ == book && book.wf(),
            },
    {
        if length > MAX_BATCH_INPUT_BYTES || self.total > MAX_BATCH_INPUT_BYTES - length {
            return Err(ImagePdfError::TooLarge);
        }
        let picture = match prepare_image(image, should_stop) {
            Err(error) => {
                return Err(error);
            },
            Ok(picture) => picture,
        };
        proof {
            law_book_stays_well_formed(self@, image@, length as int);
        }
        write_page(&mut self.pdf, self.written * OBJECTS_PER_PAGE + 3, &picture);
        if self.pdf.position() > MAX_PDF_BYTES {
            return Err(ImagePdfError::OutputTooLarge);
        }
        self.total = self.total + length;
        self.written = self.written + 1;
        Ok(())
    }

    /// The whole file, once every image has been added.
    pub fn finish<F: Fn() -> bool>(self, should_stop: &F) -> (r: Result<Vec<u8>, ImagePdfError>)
        requires
            self@.wf(),
            self@.written == self@.count,
            should_stop.requires(()),
        ensures
            concludes(r, limited(self@.draft), *should_stop),
    {
        let r = finish_limited(self.pdf);
        if should_stop() {
            return Err(ImagePdfError::Cancelled);
        }
        r
    }
}

/// What reading one of several images gave: the image and the length of its
/// file.
pub open spec fn image_outcome(input: Result<(ImageKind, Vec<u8>), ImagePdfError>, outcome: Result<
    (Source, int),
    Fault,
>) -> bool {
    match input {
        Err(error) => outcome == Err::<(Source, int), Fault>(error@),
        Ok((kind, b)) => exists|image: Result<Source, Fault>| #[trigger]
            picture::reads_as(kind, b@, image) && outcome == match image {
                Err(fault) => Err(fault),
                Ok(source) => Ok((source, b@.len() as int)),
            },
    }
}

/// Reading the image of index `i` gave `outcome`.
pub open spec fn was_read<R: Fn(usize) -> Result<(ImageKind, Vec<u8>), ImagePdfError>>(
    read: R,
    i: usize,
    outcome: Result<(Source, int), Fault>,
) -> bool {
    exists|input: Result<(ImageKind, Vec<u8>), ImagePdfError>| #[trigger]
        read.ensures((i,), input) && image_outcome(input, outcome)
}

/// The images from the first on were read with these outcomes.
pub open spec fn were_read<R: Fn(usize) -> Result<(ImageKind, Vec<u8>), ImagePdfError>>(
    read: R,
    outcomes: Seq<Result<(Source, int), Fault>>,
) -> bool {
    forall|i: int| 0 <= i < outcomes.len() ==> was_read(read, i as usize, #[trigger] outcomes[i])
}

/// The file after one more image was read.
#[verifier::opaque]
pub open spec fn next_book(book: Book, outcome: Result<(Source, int), Fault>) -> Result<
    Book,
    Fault,
> {
    match outcome {
        Err(fault) => Err(fault),
        Ok((source, length)) => book.with_image(source, length),
    }
}

/// The file of `count` images after those that were read.
pub open spec fn bound(count: int, outcomes: Seq<Result<(Source, int), Fault>>) -> Result<
    Book,
    Fault,
>
    decreases outcomes.len(),
{
    if outcomes.len() == 0 {
        Ok(Book::opened(count))
    } else {
        match bound(count, outcomes.drop_last()) {
            Err(fault) => Err(fault),
            Ok(book) => next_book(book, outcomes.last()),
        }
    }
}

/// The file that shows the images: one is shown as it is shown alone.
pub open spec fn merged(count: int, outcomes: Seq<Result<(Source, int), Fault>>) -> Result<
    Seq<u8>,
    Fault,
> {
    if count == 1 {
        match outcomes[0] {
            Err(fault) => Err(fault),
            Ok((source, length)) => if length > MAX_BATCH_INPUT_BYTES {
                Err(Fault::TooLarge)
            } else {
                image_pdf(source)
            },
        }
    } else {
        match bound(count, outcomes) {
            Err(fault) => Err(fault),
            Ok(book) => limited(book.draft),
        }
    }
}

/// What `progress` makes of `before` when it is told of the first `n` of `total`
/// images, one after the other.
pub open spec fn was_told<T, P: Fn(T, usize, usize) -> T>(
    progress: P,
    before: T,
    after: T,
    n: int,
    total: usize,
) -> bool
    decreases n,
{
    if n <= 0 {
        after == before
    } else {
        exists|middle: T| #[trigger]
            progress.ensures((middle, n as usize, total), after) && was_told(
                progress,
                before,
                middle,
                n - 1,
                total,
            )
    }
}

/// How many images were put into a file of `count`, given what was read.
pub open spec fn put_in(count: int, outcomes: Seq<Result<(Source, int), Fault>>) -> int {
    if count == 1 && merged(count, outcomes) is Err || count > 1 && bound(count, outcomes) is Err {
        outcomes.len() - 1
    } else {
        outcomes.len() as int
    }
}

/// `r` is what the images give that were read, and those behind a failure were
/// not.
pub open spec fn is_merger<R: Fn(usize) -> Result<(ImageKind, Vec<u8>), ImagePdfError>>(
    r: Result<Vec<u8>, ImagePdfError>,
    count: int,
    read: R,
    outcomes: Seq<Result<(Source, int), Fault>>,
) -> bool {
    &&& were_read(read, outcomes)
    &&& 0 < outcomes.len() <= count
    &&& outcomes.len() < count ==> bound(count, outcomes) is Err
    &&& gives(r, merged(count, outcomes))
}

/// `r` is what the images give, of which those behind a failure are not read.
pub open spec fn is_merged<R: Fn(usize) -> Result<(ImageKind, Vec<u8>), ImagePdfError>>(
    r: Result<Vec<u8>, ImagePdfError>,
    count: int,
    read: R,
) -> bool {
    exists|outcomes: Seq<Result<(Source, int), Fault>>| #[trigger]
        is_merger(r, count, read, outcomes)
}

/// `r` is what the images give, and `progress` has made `after` of `before` when it
/// was told of each image that was put in.
pub open spec fn is_told_merger<
    T,
    R: Fn(usize) -> Result<(ImageKind, Vec<u8>), ImagePdfError>,
    P: Fn(T, usize, usize) -> T,
>(
    r: Result<Vec<u8>, ImagePdfError>,
    count: usize,
    read: R,
    progress: P,
    before: T,
    after: T,
) -> bool {
    exists|outcomes: Seq<Result<(Source, int), Fault>>| #[trigger]
        is_merger(r, count as int, read, outcomes) && was_told(
            progress,
            before,
            after,
            put_in(count as int, outcomes),
            count,
        )
}

/// A merger was cancelled after some of the images were put in.
pub open spec fn is_halted_merger<T, P: Fn(T, usize, usize) -> T, F: Fn() -> bool>(
    r: Result<Vec<u8>, ImagePdfError>,
    count: usize,
    progress: P,
    before: T,
    after: T,
    stop: F,
) -> bool {
    halted(r, stop) && exists|n: int|
        0 <= n <= count && #[trigger] was_told(progress, before, after, n, count)
}

/// What `r` is about.
spec fn outcome_of(r: Result<(InputImage, u64), ImagePdfError>) -> Result<(Source, int), Fault> {
    match r {
        Err(error) => Err(error@),
        Ok((image, length)) => Ok((image@, length as int)),
    }
}

fn read_one<R: Fn(usize) -> Result<(ImageKind, Vec<u8>), ImagePdfError>, F: Fn() -> bool>(
    read: &R,
    i: usize,
    should_stop: &F,
) -> (r: Result<(InputImage, u64), ImagePdfError>)
    requires
        should_stop.requires(()),
        read.requires((i,)),
    ensures
        halted(r, *should_stop) || was_read(*read, i, outcome_of(r)),
{
    let input = read(i);
    let ghost given = input;
    let (kind, b) = match input {
        Err(error) => {
            let r: Result<(InputImage, u64), ImagePdfError> = Err(error);
            assert(image_outcome(given, outcome_of(r)));
            return r;
        },
        Ok((kind, b)) => (kind, b),
    };
    let length: u64 = b.len() as u64;
    let ghost bytes = b@;
    let image = read_image(kind, b, should_stop);
    let ghost outcome = picture::outcome(image);
    let r = match image {
        Err(error) => Err(error),
        Ok(image) => Ok((image, length)),
    };
    assert(picture::reads_as(kind, bytes, outcome) ==> image_outcome(given, outcome_of(r)));
    r
}

/// Adding an image to a file gave `r` and left `after`.
spec fn added_as(r: Result<(), ImagePdfError>, after: Book, expected: Result<Book, Fault>) -> bool {
    match expected {
        Err(fault) => r is Err && r->Err_0@ == fault,
        Ok(book) => r is Ok && after == book,
    }
}

fn add_next<R: Fn(usize) -> Result<(ImageKind, Vec<u8>), ImagePdfError>, F: Fn() -> bool>(
    book: &mut ImageBook,
    read: &R,
    i: usize,
    should_stop: &F,
) -> (r: Result<(), ImagePdfError>)
    requires
        old(book)@.wf(),
        old(book)@.written < old(book)@.count,
        should_stop.requires(()),
        read.requires((i,)),
    ensures
        halted(r, *should_stop) || exists|outcome: Result<(Source, int), Fault>| #[trigger]
            was_read(*read, i, outcome) && added_as(
                r,
                final(book)@,
                next_book(old(book)@, outcome),
            ),
        r is Ok ==> final(book)@.wf() && final(book)@.count == old(book)@.count
            && final(book)@.written == old(book)@.written + 1,
{
    reveal(next_book);
    let one = read_one(read, i, should_stop);
    let ghost outcome = outcome_of(one);
    match one {
        Err(error) => Err(error),
        Ok((image, length)) => {
            assert(was_read(*read, i, outcome));
            book.add_image(image, length, should_stop)
        },
    }
}

/// Writes a file that shows several images, a page for each. `read` reads an
/// image. `progress` is told how many of the images have been put in, whenever
/// there is one more, and makes something new of `told`.
pub fn write_images_pdf_telling<
    T,
    R: Fn(usize) -> Result<(ImageKind, Vec<u8>), ImagePdfError>,
    P: Fn(T, usize, usize) -> T,
    F: Fn() -> bool,
>(count: usize, output: OutputPath, read: R, told: T, progress: P, should_stop: &F) -> (r: (
    Result<Vec<u8>, ImagePdfError>,
    T,
))
    requires
        should_stop.requires(()),
        forall|i: usize| i < count ==> #[trigger] read.requires((i,)),
        forall|t: T, n: usize| 0 < n <= count ==> #[trigger] progress.requires((t, n, count)),
    ensures
        0 < count <= MAX_IMAGES && output.allowed() && stopping::always(*should_stop) ==> halted(
            r.0,
            *should_stop,
        ) && r.1 == told,
        if count == 0 || count > MAX_IMAGES {
            gives(r.0, Err(Fault::InvalidInput)) && r.1 == told
        } else if !output.allowed() {
            gives(r.0, Err(Fault::InvalidOutputPath)) && r.1 == told
        } else {
            is_halted_merger(r.0, count, progress, told, r.1, *should_stop) || is_told_merger(
                r.0,
                count,
                read,
                progress,
                told,
                r.1,
            )
        },
{
    if count == 0 || count > MAX_IMAGES {
        return (Err(ImagePdfError::InvalidInput), told);
    }
    if !output.absolute || !output.in_directory {
        return (Err(ImagePdfError::InvalidOutputPath), told);
    }
    assert(was_told(progress, told, told, 0, count));
    if should_stop() {
        return (Err(ImagePdfError::Cancelled), told);
    }
    if count == 1 {
        return write_only_image(&read, told, &progress, should_stop);
    }
    let mut book = match ImageBook::new(count) {
        Err(error) => {
            return (Err(error), told);
        },
        Ok(book) => book,
    };
    let mut state: T = told;
    let ghost mut outcomes: Seq<Result<(Source, int), Fault>> = Seq::empty();
    let mut i: usize = 0;
    while i < count
        invariant
            1 < count <= MAX_IMAGES,
            output.allowed(),
            i <= count,
            outcomes.len() == i,
            should_stop.requires(()),
            !stopping::always(*should_stop),
            forall|i: usize| i < count ==> #[trigger] read.requires((i,)),
            forall|t: T, n: usize| 0 < n <= count ==> #[trigger] progress.requires((t, n, count)),
            were_read(read, outcomes),
            was_told(progress, told, state, i as int, count),
            book@.wf(),
            book@.count == count,
            book@.written == i,
            bound(count as int, outcomes) == Ok::<Book, Fault>(book@),
        decreases count - i,
    {
        if should_stop() {
            return (Err(ImagePdfError::Cancelled), state);
        }
        let ghost before = outcomes;
        let ghost held = book@;
        let added = add_next(&mut book, &read, i, should_stop);
        let ghost outcome = choose|outcome: Result<(Source, int), Fault>| #[trigger]
            was_read(read, i, outcome) && added_as(added, book@, next_book(held, outcome));
        proof {
            outcomes = outcomes.push(outcome);
            lemma_bound_more(count as int, before, outcome);
        }
        match added {
            Err(error) => {
                let r: Result<Vec<u8>, ImagePdfError> = Err(error);
                assert(halted(r, *should_stop) || is_merger(r, count as int, read, outcomes));
                return (r, state);
            },
            Ok(()) => {},
        }
        i += 1;
        let ghost so_far = state;
        state = progress(state, i, count);
        assert(progress.ensures((so_far, i, count), state));
    }
    if should_stop() {
        return (Err(ImagePdfError::Cancelled), state);
    }
    let r = book.finish(should_stop);
    assert(halted(r, *should_stop) || is_merger(r, count as int, read, outcomes));
    (r, state)
}

/// Whoever writes down what `progress` is told has the numbers from 1 on in order.
pub proof fn law_images_are_told_in_order<
    T: View<V = Seq<(usize, usize)>>,
    P: Fn(T, usize, usize) -> T,
>(progress: P, before: T, after: T, n: int, total: usize)
    requires
        0 <= n <= usize::MAX,
        was_told(progress, before, after, n, total),
        forall|t: T, k: usize, r: T| #[trigger]
            progress.ensures((t, k, total), r) ==> r@ == t@.push((k, total)),
    ensures
        after@ == before@ + Seq::new(n as nat, |i: int| ((i + 1) as usize, total)),
    decreases n,
{
    if n > 0 {
        let middle = choose|middle: T| #[trigger]
            progress.ensures((middle, n as usize, total), after) && was_told(
                progress,
                before,
                middle,
                n - 1,
                total,
            );
        law_images_are_told_in_order(progress, before, middle, n - 1, total);
    }
    assert(after@ =~= before@ + Seq::new(n as nat, |i: int| ((i + 1) as usize, total)));
}

/// What was told of each image was told of all of them.
proof fn lemma_told<P: Fn((), usize, usize) -> ()>(progress: P, n: int, total: usize)
    requires
        0 <= n <= usize::MAX,
        was_told(progress, (), (), n, total),
    ensures
        forall|k: usize| 0 < k <= n ==> #[trigger] progress.ensures(((), k, total), ()),
    decreases n,
{
    if n > 0 {
        let middle = choose|middle: ()| #[trigger]
            progress.ensures((middle, n as usize, total), ()) && was_told(
                progress,
                (),
                middle,
                n - 1,
                total,
            );
        lemma_told(progress, n - 1, total);
    }
}

/// Writes a file that shows several images, a page for each. `read` reads an
/// image, and `progress` is told how many of how many have been put in.
pub fn write_images_pdf<
    R: Fn(usize) -> Result<(ImageKind, Vec<u8>), ImagePdfError>,
    P: Fn(usize, usize),
    F: Fn() -> bool,
>(count: usize, output: OutputPath, read: R, progress: P, should_stop: &F) -> (r:
    Result<Vec<u8>, ImagePdfError>)
    requires
        should_stop.requires(()),
        forall|i: usize| i < count ==> #[trigger] read.requires((i,)),
        forall|n: usize| 0 < n <= count ==> #[trigger] progress.requires((n, count)),
    ensures
        0 < count <= MAX_IMAGES && output.allowed() && stopping::always(*should_stop) ==> halted(
            r,
            *should_stop,
        ),
        if count == 0 || count > MAX_IMAGES {
            gives(r, Err(Fault::InvalidInput))
        } else if !output.allowed() {
            gives(r, Err(Fault::InvalidOutputPath))
        } else {
            halted(r, *should_stop) || is_merged(r, count as int, read)
        },
        r is Ok ==> forall|n: usize|
            0 < n <= count ==> #[trigger] progress.ensures((n, count), ()),
{
    let listener = &progress;
    let tell = |_told: (), n: usize, total: usize| -> (after: ())
        requires
            listener.requires((n, total)),
        ensures
            listener.ensures((n, total), ()),
        { listener(n, total) };
    let (r, _told) = write_images_pdf_telling(count, output, read, (), tell, should_stop);
    proof {
        if r is Ok {
            assert(is_told_merger(r, count, read, tell, (), ()));
            let outcomes = choose|outcomes: Seq<Result<(Source, int), Fault>>| #[trigger]
                is_merger(r, count as int, read, outcomes) && was_told(
                    tell,
                    (),
                    (),
                    put_in(count as int, outcomes),
                    count,
                );
            lemma_told(tell, put_in(count as int, outcomes), count);
            assert forall|n: usize| 0 < n <= count implies #[trigger] progress.ensures(
                (n, count),
                (),
            ) by {
                assert(tell.ensures(((), n, count), ()));
            }
        }
    }
    r
}

proof fn lemma_bound_more(
    count: int,
    before: Seq<Result<(Source, int), Fault>>,
    outcome: Result<(Source, int), Fault>,
)
    ensures
        bound(count, before.push(outcome)) == match bound(count, before) {
            Err(fault) => Err(fault),
            Ok(book) => next_book(book, outcome),
        },
{
    assert(before.push(outcome).drop_last() =~= before);
}

/// Writes a file that shows the only image.
fn write_only_image<
    T,
    R: Fn(usize) -> Result<(ImageKind, Vec<u8>), ImagePdfError>,
    P: Fn(T, usize, usize) -> T,
    F: Fn() -> bool,
>(read: &R, told: T, progress: &P, should_stop: &F) -> (r: (Result<Vec<u8>, ImagePdfError>, T))
    requires
        should_stop.requires(()),
        read.requires((0,)),
        progress.requires((told, 1, 1)),
    ensures
        is_halted_merger(r.0, 1, *progress, told, r.1, *should_stop) || is_told_merger(
            r.0,
            1,
            *read,
            *progress,
            told,
            r.1,
        ),
{
    assert(was_told(*progress, told, told, 0, 1));
    let one = read_one(read, 0, should_stop);
    let ghost outcomes = Seq::<Result<(Source, int), Fault>>::empty().push(outcome_of(one));
    let (image, length) = match one {
        Err(error) => {
            let r: Result<Vec<u8>, ImagePdfError> = Err(error);
            assert(halted(r, *should_stop) || is_merger(r, 1, *read, outcomes));
            return (r, told);
        },
        Ok((image, length)) => (image, length),
    };
    assert(were_read(*read, outcomes));
    if length > MAX_BATCH_INPUT_BYTES {
        let r: Result<Vec<u8>, ImagePdfError> = Err(ImagePdfError::TooLarge);
        assert(is_merger(r, 1, *read, outcomes));
        return (r, told);
    }
    let r = write_pdf(image, should_stop);
    assert(halted(r, *should_stop) || is_merger(r, 1, *read, outcomes));
    if r.is_err() {
        return (r, told);
    }
    let ghost first = told;
    let told = progress(told, 1, 1);
    assert(progress.ensures((first, 1, 1), told));
    assert(was_told(*progress, first, told, 1, 1)) by {
        assert(was_told(*progress, first, first, 0, 1));
    }
    (r, told)
}

/// The objects of a file that shows one image begin where its cross-reference
/// table says.
pub proof fn law_single_file_is_well_formed(plate: Plate)
    ensures
        single_draft(plate).wf(),
{
    reveal(single_draft);
    lemma_begun();
    let a = Draft::begun(header());
    let b = a.with_object(encode_utf8("<< /Type /Catalog /Pages 2 0 R >>"@));
    pdf_out::law_draft_keeps_offsets(a, encode_utf8("<< /Type /Catalog /Pages 2 0 R >>"@));
    let c = b.with_object(encode_utf8("<< /Type /Pages /Kids [3 0 R] /Count 1 >>"@));
    pdf_out::law_draft_keeps_offsets(
        b,
        encode_utf8("<< /Type /Pages /Kids [3 0 R] /Count 1 >>"@),
    );
    let d = c.with_object(page_body(plate, 5, 4));
    pdf_out::law_draft_keeps_offsets(c, page_body(plate, 5, 4));
    let e = d.with_object(content_body(plate));
    pdf_out::law_draft_keeps_offsets(d, content_body(plate));
    let length = bytes::decimal(plate.data.len());
    match plate.mask {
        None => {
            lemma_stream(e, image_head(plate, 6, 6), plate.data);
            pdf_out::law_draft_keeps_offsets(
                with_stream(e, image_head(plate, 6, 6), plate.data),
                length,
            );
        },
        Some(mask) => {
            lemma_stream(e, image_head(plate, 6, 7), plate.data);
            let f = with_stream(e, image_head(plate, 6, 7), plate.data);
            let head = image_head(mask_plate(plate), 0, 8);
            lemma_stream(f, head, mask);
            let g = with_stream(f, head, mask);
            pdf_out::law_draft_keeps_offsets(g, length);
            pdf_out::law_draft_keeps_offsets(g.with_object(length), bytes::decimal(mask.len()));
        },
    }
}

proof fn lemma_begun()
    ensures
        Draft::begun(header()).wf(),
{
}

proof fn lemma_stream(draft: Draft, head: Seq<u8>, data: Seq<u8>)
    requires
        draft.wf(),
    ensures
        with_stream(draft, head, data).wf(),
{
    pdf_out::law_draft_keeps_offsets(draft, head);
    let a = draft.with_start();
    pdf_out::law_draft_keeps_offsets(a, head);
    pdf_out::law_draft_keeps_offsets(a.with(head), data);
    let b = a.with(head).with(data);
    pdf_out::law_draft_keeps_offsets(b, encode_utf8("\nendstream"@));
    pdf_out::law_draft_keeps_offsets(
        b.with(encode_utf8("\nendstream"@)),
        pdf_out::object_end(),
    );
}

/// Whatever images a file shows, its objects begin where its cross-reference
/// table says, and its pages are those that its list of pages names.
pub proof fn law_book_stays_well_formed(book: Book, source: Source, length: int)
    requires
        book.wf(),
        book.written < book.count,
        length >= 0,
    ensures
        match book.with_image(source, length) {
            Err(_) => true,
            Ok(next) => next.wf(),
        },
{
    match prepared(source) {
        Err(_) => {},
        Ok(plate) => {
            lemma_page(book.draft, plate);
            reveal(with_page);
            let draft = book.draft;
            let number = draft.offsets.len() as int + 1;
            let page = page_body(plate, number + 2, number + 1);
            pdf_out::law_draft_keeps_offsets(draft, page);
            let a = draft.with_object(page);
            pdf_out::law_draft_keeps_offsets(a, content_body(plate));
            let b = a.with_object(content_body(plate));
            lemma_stream(b, image_head(plate, number + 4, number + 3), plate.data);
            let c = with_stream(b, image_head(plate, number + 4, number + 3), plate.data);
            let length_text = bytes::decimal(plate.data.len());
            pdf_out::law_draft_keeps_offsets(c, length_text);
            let d = c.with_object(length_text);
            match plate.mask {
                None => {
                    pdf_out::law_draft_keeps_offsets(d, encode_utf8("null"@));
                    pdf_out::law_draft_keeps_offsets(
                        d.with_object(encode_utf8("null"@)),
                        encode_utf8("0"@),
                    );
                },
                Some(mask) => {
                    let head = image_head(mask_plate(plate), 0, number + 5);
                    lemma_stream(d, head, mask);
                    pdf_out::law_draft_keeps_offsets(
                        with_stream(d, head, mask),
                        bytes::decimal(mask.len()),
                    );
                },
            }
        },
    }
}

} // verus!
