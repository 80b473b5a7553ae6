use std::cell::{Cell, RefCell};
use std::collections::BTreeMap;
use std::io::{Cursor, Read};

use minimal_pdf_converter::image::document::{
    write_image_pdf, write_images_pdf, write_images_pdf_telling, ImageBook, OutputPath,
    MAX_BATCH_INPUT_BYTES, MAX_IMAGES,
};
use minimal_pdf_converter::image::error::{input_io_error, IoKind};
use minimal_pdf_converter::image::jpeg::{exif_orientation, inspect_jpeg};
use minimal_pdf_converter::image::picture::{
    admit_file, admit_path, image_kind, read_image, ImageKind, InputImage, MAX_INPUT_BYTES,
};
use minimal_pdf_converter::image::raster::{checked_dimensions, decoded_size, MAX_SIDE};
use minimal_pdf_converter::image::ImagePdfError;

/// Files that are kept in memory.
struct TestFiles {
    files: RefCell<BTreeMap<String, Vec<u8>>>,
}

impl TestFiles {
    fn new() -> Self {
        Self {
            files: RefCell::new(BTreeMap::new()),
        }
    }

    fn path(&self, name: &str) -> String {
        format!("/files/{name}")
    }

    fn write(&self, path: &str, bytes: &[u8]) {
        self.files
            .borrow_mut()
            .insert(path.to_owned(), bytes.to_vec());
    }

    fn read(&self, path: &str) -> Vec<u8> {
        self.files.borrow().get(path).expect("file").clone()
    }

    fn holds(&self, path: &str) -> bool {
        self.files.borrow().contains_key(path)
    }

    fn open(&self, path: &str) -> Result<(ImageKind, Vec<u8>), ImagePdfError> {
        admit_path(path.starts_with('/'), false)?;
        let files = self.files.borrow();
        let Some(bytes) = files.get(path) else {
            return Err(input_io_error(IoKind::Other, "not found".to_owned()));
        };
        let extension = path.rsplit_once('.').map(|(_, extension)| extension);
        let kind = admit_file(true, bytes.len() as u64, extension)?;
        Ok((kind, bytes.clone()))
    }
}

fn convert(
    files: &TestFiles,
    input: &str,
    output: &str,
    should_stop: impl Fn() -> bool,
) -> Result<(), ImagePdfError> {
    let pdf = write_image_pdf(files.open(input), output_path(output), &should_stop)?;
    if files.holds(output) {
        return Err(ImagePdfError::OutputIo("already exists".to_owned()));
    }
    files.write(output, &pdf);
    Ok(())
}

fn convert_all(
    files: &TestFiles,
    inputs: &[String],
    output: &str,
    should_stop: impl Fn() -> bool,
    progress: impl Fn(usize, usize),
) -> Result<(), ImagePdfError> {
    let pdf = write_images_pdf(
        inputs.len(),
        output_path(output),
        |index: usize| files.open(&inputs[index]),
        progress,
        &should_stop,
    )?;
    files.write(output, &pdf);
    Ok(())
}

fn output_path(path: &str) -> OutputPath {
    OutputPath {
        absolute: path.starts_with('/'),
        in_directory: path.starts_with("/files/"),
    }
}

fn png_input(
    files: &TestFiles,
    path: &str,
    width: u32,
    height: u32,
    color: png::ColorType,
    pixels: &[u8],
) {
    let mut file = Vec::new();
    let mut encoder = png::Encoder::new(&mut file, width, height);
    encoder.set_color(color);
    encoder.set_depth(png::BitDepth::Eight);
    encoder
        .write_header()
        .expect("PNG header")
        .write_image_data(pixels)
        .expect("PNG pixels");
    files.write(path, &file);
}

fn jpeg_input(files: &TestFiles, path: &str, width: u16, height: u16, pixels: &[u8]) -> Vec<u8> {
    let mut jpeg = Vec::new();
    jpeg_encoder::Encoder::new(&mut jpeg, 90)
        .encode(pixels, width, height, jpeg_encoder::ColorType::Rgb)
        .expect("encode JPEG");
    files.write(path, &jpeg);
    jpeg
}

fn bmp_input(
    files: &TestFiles,
    path: &str,
    width: u32,
    height: i32,
    channels: usize,
    top_first_pixels: &[u8],
) -> Vec<u8> {
    let row_bytes = usize::try_from(width).expect("test width") * channels;
    let stride = (row_bytes + 3) & !3;
    let rows = usize::try_from(height.unsigned_abs()).expect("test height");
    assert_eq!(top_first_pixels.len(), rows * row_bytes);
    let mut bytes = vec![0u8; 54 + stride * rows];
    bytes[..2].copy_from_slice(b"BM");
    let file_size = u32::try_from(bytes.len()).expect("BMP size");
    bytes[2..6].copy_from_slice(&file_size.to_le_bytes());
    bytes[10..14].copy_from_slice(&54u32.to_le_bytes());
    bytes[14..18].copy_from_slice(&40u32.to_le_bytes());
    bytes[18..22].copy_from_slice(&width.to_le_bytes());
    bytes[22..26].copy_from_slice(&height.to_le_bytes());
    bytes[26..28].copy_from_slice(&1u16.to_le_bytes());
    bytes[28..30].copy_from_slice(
        &u16::try_from(channels * 8)
            .expect("BMP bit depth")
            .to_le_bytes(),
    );
    bytes[34..38].copy_from_slice(
        &u32::try_from(rows * stride)
            .expect("BMP pixels")
            .to_le_bytes(),
    );
    for row in 0..rows {
        let source_row = if height < 0 { row } else { rows - 1 - row };
        let source = &top_first_pixels[source_row * row_bytes..(source_row + 1) * row_bytes];
        let destination = &mut bytes[54 + row * stride..54 + row * stride + row_bytes];
        for (rgb, bgr) in source
            .chunks_exact(channels)
            .zip(destination.chunks_exact_mut(channels))
        {
            bgr[0] = rgb[2];
            bgr[1] = rgb[1];
            bgr[2] = rgb[0];
            if channels == 4 {
                bgr[3] = rgb[3];
            }
        }
    }
    files.write(path, &bytes);
    bytes
}

fn inflate_stream(pdf: &[u8], image_object: usize, length_object: usize) -> Vec<u8> {
    let encoded = stream(pdf, image_object, length_object);
    let mut decoded = Vec::new();
    flate2::read::ZlibDecoder::new(encoded.as_slice())
        .read_to_end(&mut decoded)
        .expect("inflate PDF image stream");
    decoded
}

fn gif_input(files: &TestFiles, path: &str, width: u16, height: u16, frames: &[&[u8]]) {
    let mut encoder = gif::Encoder::new(Vec::new(), width, height, &[]).expect("GIF header");
    for pixels in frames {
        let mut pixels = pixels.to_vec();
        let frame = gif::Frame::from_rgba_speed(width, height, &mut pixels, 10);
        encoder.write_frame(&frame).expect("GIF frame");
    }
    files.write(path, &encoder.into_inner().expect("GIF trailer"));
}

fn webp_bytes(width: u32, height: u32, pixels: &[u8], color: image_webp::ColorType) -> Vec<u8> {
    let mut bytes = Vec::new();
    image_webp::WebPEncoder::new(&mut bytes)
        .encode(pixels, width, height, color)
        .expect("encode WebP");
    bytes
}

fn rgba_tiff_input(files: &TestFiles, path: &str, width: u32, height: u32, frames: &[&[u8]]) {
    let mut file = Cursor::new(Vec::new());
    {
        let mut encoder = tiff::encoder::TiffEncoder::new(&mut file)
            .expect("TIFF header")
            .with_compression(tiff::encoder::Compression::Lzw);
        for pixels in frames {
            let mut image = encoder
                .new_image::<tiff::encoder::colortype::RGB8>(width, height)
                .expect("TIFF RGBA frame");
            image
                .extra_samples(&[tiff::tags::ExtraSamples::UnassociatedAlpha])
                .expect("TIFF alpha tag");
            image.write_data(pixels).expect("TIFF RGBA pixels");
        }
    }
    files.write(path, file.get_ref());
}

fn alpha_tiff_input(
    files: &TestFiles,
    path: &str,
    color: png::ColorType,
    alpha: tiff::tags::ExtraSamples,
    pixels: &[u8],
) {
    let mut file = Cursor::new(Vec::new());
    {
        let mut encoder = tiff::encoder::TiffEncoder::new(&mut file)
            .expect("TIFF header")
            .with_compression(tiff::encoder::Compression::Lzw);
        match color {
            png::ColorType::GrayscaleAlpha => {
                let mut image = encoder
                    .new_image::<tiff::encoder::colortype::Gray8>(2, 1)
                    .expect("TIFF GrayA image");
                image.extra_samples(&[alpha]).expect("TIFF alpha tag");
                image.write_data(pixels).expect("TIFF GrayA pixels");
            }
            png::ColorType::Rgba => {
                let mut image = encoder
                    .new_image::<tiff::encoder::colortype::RGB8>(1, 1)
                    .expect("TIFF RGBA image");
                image.extra_samples(&[alpha]).expect("TIFF alpha tag");
                image.write_data(pixels).expect("TIFF RGBA pixels");
            }
            _ => panic!("alpha TIFF fixture requires GrayA or RGBA"),
        }
    }
    files.write(path, file.get_ref());
}

fn rgb_tiff_input(files: &TestFiles, path: &str, width: u32, height: u32, pixels: &[u8]) {
    let mut file = Cursor::new(Vec::new());
    {
        let mut encoder = tiff::encoder::TiffEncoder::new(&mut file)
            .expect("TIFF header")
            .with_compression(tiff::encoder::Compression::Lzw)
            .with_predictor(tiff::encoder::Predictor::Horizontal);
        encoder
            .write_image::<tiff::encoder::colortype::RGB8>(width, height, pixels)
            .expect("TIFF RGB frame");
    }
    files.write(path, file.get_ref());
}

fn rgb_tiff_with_sub_ifd(files: &TestFiles, path: &str) {
    let mut file = Cursor::new(Vec::new());
    {
        let mut encoder = tiff::encoder::TiffEncoder::new(&mut file).expect("TIFF header");
        let sub_ifd = {
            let mut directory = encoder.extra_directory().expect("SubIFD directory");
            directory
                .write_tag(tiff::tags::Tag::Software, "test")
                .expect("SubIFD tag");
            directory.finish_with_offsets().expect("finish SubIFD")
        };
        let mut image = encoder
            .new_image::<tiff::encoder::colortype::RGB8>(1, 1)
            .expect("TIFF RGB image");
        image
            .encoder()
            .write_tag(tiff::tags::Tag::SubIfd, sub_ifd.offset)
            .expect("link SubIFD");
        image.write_data(&[10, 20, 30]).expect("TIFF RGB data");
    }
    files.write(path, file.get_ref());
}

fn append_webp_chunk(output: &mut Vec<u8>, name: &[u8; 4], bytes: &[u8]) {
    output.extend_from_slice(name);
    output.extend_from_slice(
        &u32::try_from(bytes.len())
            .expect("test chunk size")
            .to_le_bytes(),
    );
    output.extend_from_slice(bytes);
    if bytes.len() % 2 != 0 {
        output.push(0);
    }
}

fn animated_webp() -> Vec<u8> {
    let first = webp_bytes(2, 1, &[255, 0, 0, 0, 0, 255], image_webp::ColorType::Rgb8);
    let second = webp_bytes(
        2,
        1,
        &[0, 255, 0, 255, 255, 255],
        image_webp::ColorType::Rgb8,
    );
    let mut body = b"WEBP".to_vec();
    append_webp_chunk(&mut body, b"VP8X", &[2, 0, 0, 0, 1, 0, 0, 0, 0, 0]);
    append_webp_chunk(&mut body, b"ANIM", &[0, 0, 0, 0, 0, 0]);
    for frame in [&first, &second] {
        let mut payload = vec![0; 16];
        payload[6] = 1;
        payload[12] = 10;
        payload.extend_from_slice(&frame[12..]);
        append_webp_chunk(&mut body, b"ANMF", &payload);
    }
    let mut output = b"RIFF".to_vec();
    output.extend_from_slice(
        &u32::try_from(body.len())
            .expect("test RIFF size")
            .to_le_bytes(),
    );
    output.extend_from_slice(&body);
    output
}

fn stream(pdf: &[u8], object: usize, length_object: usize) -> Vec<u8> {
    let marker = format!("{object} 0 obj\n");
    let offset = pdf
        .windows(marker.len())
        .position(|bytes| bytes == marker.as_bytes())
        .expect("find image object");
    let stream = pdf[offset..]
        .windows(7)
        .position(|bytes| bytes == b"stream\n")
        .expect("find image stream")
        + offset
        + 7;
    let marker = format!("{length_object} 0 obj\n");
    let length_at = pdf
        .windows(marker.len())
        .position(|bytes| bytes == marker.as_bytes())
        .expect("find indirect stream length")
        + marker.len();
    let length_end = pdf[length_at..]
        .iter()
        .position(|byte| *byte == b'\n')
        .expect("end of length")
        + length_at;
    let length: usize = std::str::from_utf8(&pdf[length_at..length_end])
        .expect("length UTF-8")
        .parse()
        .expect("numeric length");
    pdf[stream..stream + length].to_vec()
}

#[test]
fn bmp_24_bit_bottom_up_and_top_down_preserve_color_order_and_padding() {
    let files = TestFiles::new();
    let expected = [255u8, 0, 0, 0, 255, 0, 0, 0, 255, 255, 255, 0];
    for (name, height) in [("bottom.bmp", 2), ("top.bmp", -2)] {
        let input = files.path(name);
        bmp_input(&files, &input, 2, height, 3, &expected);
        let output = files.path(&format!("{name}.pdf"));
        convert(&files, &input, &output, || false).expect("convert BMP");
        assert_eq!(
            inflate_stream(&files.read(&output), 5, 6),
            expected
        );
    }
}

#[test]
fn bmp_32_bit_preserves_alpha_as_pdf_soft_mask() {
    let files = TestFiles::new();
    let input = files.path("alpha.bmp");
    bmp_input(&files, &input, 2, -1, 4, &[255, 0, 0, 255, 0, 0, 255, 64]);
    let output = files.path("alpha.pdf");
    convert(&files, &input, &output, || false).expect("convert BGRA BMP");
    let pdf = files.read(&output);
    assert_eq!(inflate_stream(&pdf, 5, 7), [255, 0, 0, 0, 0, 255]);
    assert_eq!(inflate_stream(&pdf, 6, 8), [255, 64]);
}

#[test]
fn bmp_rejects_compressed_paletted_profile_malformed_or_oversized_images() {
    let files = TestFiles::new();
    let input = files.path("image.bmp");
    let base = bmp_input(&files, &input, 1, 1, 3, &[255, 0, 0]);
    let output = files.path("image.pdf");
    for (offset, replacement, error) in [
        (30, 1u32, "compression"),
        (46, 1u32, "palette"),
        (50, 1u32, "important colors"),
        (10, 55u32, "pixel offset"),
        (14, 124u32, "embedded profile header"),
        (2, 99u32, "file size"),
        (34, 99u32, "pixel size"),
    ] {
        let mut malformed = base.clone();
        malformed[offset..offset + 4].copy_from_slice(&replacement.to_le_bytes());
        files.write(&input, &malformed);
        assert!(
            convert(&files, &input, &output, || false).is_err(),
            "accepted {error}"
        );
        assert!(!files.holds(&output));
    }
    files.write(&input, &base[..base.len() - 1]);
    assert!(matches!(
        convert(&files, &input, &output, || false),
        Err(ImagePdfError::InvalidImage)
    ));
    let mut oversized = base;
    oversized[18..22].copy_from_slice(&(MAX_SIDE + 1).to_le_bytes());
    files.write(&input, &oversized);
    assert!(matches!(
        convert(&files, &input, &output, || false),
        Err(ImagePdfError::TooLarge)
    ));
    assert!(!files.holds(&output));
}

#[test]
fn bmp_cancellation_does_not_leave_an_output() {
    let files = TestFiles::new();
    let input = files.path("cancel.bmp");
    bmp_input(&files, &input, 2, 2, 3, &[255, 0, 0].repeat(4));
    let output = files.path("cancel.pdf");
    let checks = Cell::new(0usize);
    let result = convert(&files, &input, &output, || {
        checks.set(checks.get() + 1);
        checks.get() > 4
    });
    assert!(matches!(result, Err(ImagePdfError::Cancelled)));
    assert!(!files.holds(&output));
}

#[test]
fn rgba_png_writes_exact_color_and_alpha_streams() {
    let files = TestFiles::new();
    let input = files.path("transparent.png");
    let output = files.path("transparent.pdf");
    png_input(&files, &input,
        2,
        1,
        png::ColorType::Rgba,
        &[255, 0, 0, 255, 0, 0, 255, 64],
    );
    convert(&files, &input, &output, || false).expect("write transparent PDF");
    let bytes = files.read(&output);
    assert!(bytes.starts_with(b"%PDF-1.4"));
    assert!(bytes.windows(12).any(|part| part == b"/SMask 6 0 R"));
    assert!(bytes
        .windows(b"/MediaBox [0 0 2.0000 1.0000]".len())
        .any(|part| part == b"/MediaBox [0 0 2.0000 1.0000]"));
    let mut colors = Vec::new();
    flate2::read::ZlibDecoder::new(stream(&bytes, 5, 7).as_slice())
        .read_to_end(&mut colors)
        .expect("decode RGB");
    assert_eq!(colors, [255, 0, 0, 0, 0, 255]);
    let mut alpha = Vec::new();
    flate2::read::ZlibDecoder::new(stream(&bytes, 6, 8).as_slice())
        .read_to_end(&mut alpha)
        .expect("decode soft mask");
    assert_eq!(alpha, [255, 64]);
}

#[test]
fn indexed_png_with_transparency_is_expanded_without_losing_alpha() {
    let files = TestFiles::new();
    let input = files.path("indexed.png");
    let mut png = Vec::new();
    let mut encoder = png::Encoder::new(&mut png, 2, 1);
    encoder.set_color(png::ColorType::Indexed);
    encoder.set_depth(png::BitDepth::Eight);
    encoder.set_palette(vec![255, 0, 0, 0, 255, 0]);
    encoder.set_trns(vec![255, 0]);
    encoder
        .write_header()
        .expect("palette PNG")
        .write_image_data(&[0, 1])
        .expect("palette pixels");
    files.write(&input, &png);
    let output = files.path("indexed.pdf");
    convert(&files, &input, &output, || false).expect("write indexed image");
    let bytes = files.read(&output);
    let mut alpha = Vec::new();
    flate2::read::ZlibDecoder::new(stream(&bytes, 6, 8).as_slice())
        .read_to_end(&mut alpha)
        .expect("decode transparency");
    assert_eq!(alpha, [255, 0]);
}

#[test]
fn single_frame_gif_preserves_palette_color_and_transparency() {
    let files = TestFiles::new();
    let input = files.path("transparent.gif");
    gif_input(&files, &input, 2, 1, &[&[255, 0, 0, 255, 0, 0, 255, 0]]);
    let output = files.path("transparent-gif.pdf");
    convert(&files, &input, &output, || false).expect("write GIF PDF");
    let bytes = files.read(&output);
    assert!(bytes.windows(12).any(|part| part == b"/SMask 6 0 R"));
    let mut colors = Vec::new();
    flate2::read::ZlibDecoder::new(stream(&bytes, 5, 7).as_slice())
        .read_to_end(&mut colors)
        .expect("decode GIF colors");
    assert_eq!(colors, [255, 0, 0, 0, 0, 255]);
    let mut alpha = Vec::new();
    flate2::read::ZlibDecoder::new(stream(&bytes, 6, 8).as_slice())
        .read_to_end(&mut alpha)
        .expect("decode GIF alpha");
    assert_eq!(alpha, [255, 0]);
}

#[test]
fn lossless_webp_preserves_rgba_and_lossy_webp_is_accepted() {
    let files = TestFiles::new();
    let lossless = files.path("transparent.webp");
    files.write(&lossless, &webp_bytes(
            2,
            1,
            &[10, 20, 30, 255, 100, 110, 120, 64],
            image_webp::ColorType::Rgba8,
        ));
    let lossless_pdf = files.path("transparent-webp.pdf");
    convert(&files, &lossless, &lossless_pdf, || false).expect("write lossless WebP PDF");
    let bytes = files.read(&lossless_pdf);
    let mut colors = Vec::new();
    flate2::read::ZlibDecoder::new(stream(&bytes, 5, 7).as_slice())
        .read_to_end(&mut colors)
        .expect("decode WebP colors");
    assert_eq!(colors, [10, 20, 30, 100, 110, 120]);
    let mut alpha = Vec::new();
    flate2::read::ZlibDecoder::new(stream(&bytes, 6, 8).as_slice())
        .read_to_end(&mut alpha)
        .expect("decode WebP alpha");
    assert_eq!(alpha, [255, 64]);

    const LOSSY_WEBP: &[u8] = &[
        0x52, 0x49, 0x46, 0x46, 0x38, 0x00, 0x00, 0x00, 0x57, 0x45, 0x42, 0x50, 0x56, 0x50,
        0x38, 0x20, 0x2c, 0x00, 0x00, 0x00, 0xb0, 0x01, 0x00, 0x9d, 0x01, 0x2a, 0x01, 0x00,
        0x01, 0x00, 0x02, 0x40, 0x38, 0x25, 0xa0, 0x02, 0x74, 0xba, 0x00, 0x06, 0x22, 0x00,
        0x00, 0xda, 0x6f, 0xfd, 0x26, 0xcf, 0xf8, 0x9b, 0x3f, 0xe2, 0x6c, 0xf9, 0x24, 0x7f,
        0xf0, 0xad, 0x67, 0xad, 0xd1, 0xa2, 0x20, 0x00,
    ];
    let lossy = files.path("lossy.webp");
    files.write(&lossy, &LOSSY_WEBP);
    let lossy_pdf = files.path("lossy.pdf");
    convert(&files, &lossy, &lossy_pdf, || false).expect("write lossy WebP PDF");
    let bytes = files.read(&lossy_pdf);
    let mut colors = Vec::new();
    flate2::read::ZlibDecoder::new(stream(&bytes, 5, 6).as_slice())
        .read_to_end(&mut colors)
        .expect("decode lossy WebP PDF stream");
    assert_eq!(colors.len(), 3);
}

#[test]
fn static_tiff_preserves_rgb_and_alpha_in_pdf_streams() {
    let files = TestFiles::new();
    let input = files.path("alpha.tif");
    let pixels = [10, 20, 30, 255, 100, 110, 120, 64];
    rgba_tiff_input(&files, &input, 2, 1, &[&pixels]);
    let output = files.path("alpha-tiff.pdf");

    convert(&files, &input, &output, || false).expect("write TIFF PDF");
    let bytes = files.read(&output);
    let mut colors = Vec::new();
    flate2::read::ZlibDecoder::new(stream(&bytes, 5, 7).as_slice())
        .read_to_end(&mut colors)
        .expect("decode TIFF colors");
    assert_eq!(colors, [10, 20, 30, 100, 110, 120]);
    let mut alpha = Vec::new();
    flate2::read::ZlibDecoder::new(stream(&bytes, 6, 8).as_slice())
        .read_to_end(&mut alpha)
        .expect("decode TIFF alpha");
    assert_eq!(alpha, [255, 64]);
}

#[test]
fn tiff_gray_alpha_and_associated_alpha_are_preserved() {
    let files = TestFiles::new();
    let gray = files.path("gray-alpha.tif");
    alpha_tiff_input(&files, &gray,
        png::ColorType::GrayscaleAlpha,
        tiff::tags::ExtraSamples::UnassociatedAlpha,
        &[10, 255, 100, 64],
    );
    let gray_pdf = files.path("gray-alpha.pdf");
    convert(&files, &gray, &gray_pdf, || false).expect("write GrayA TIFF PDF");
    let bytes = files.read(&gray_pdf);
    let mut colors = Vec::new();
    flate2::read::ZlibDecoder::new(stream(&bytes, 5, 7).as_slice())
        .read_to_end(&mut colors)
        .expect("decode GrayA colors");
    assert_eq!(colors, [10, 100]);
    let mut alpha = Vec::new();
    flate2::read::ZlibDecoder::new(stream(&bytes, 6, 8).as_slice())
        .read_to_end(&mut alpha)
        .expect("decode GrayA alpha");
    assert_eq!(alpha, [255, 64]);

    let associated = files.path("associated-alpha.tiff");
    alpha_tiff_input(&files, &associated,
        png::ColorType::Rgba,
        tiff::tags::ExtraSamples::AssociatedAlpha,
        &[64, 32, 16, 128],
    );
    let associated_pdf = files.path("associated-alpha.pdf");
    convert(&files, &associated, &associated_pdf, || false)
        .expect("write associated-alpha TIFF PDF");
    let bytes = files.read(&associated_pdf);
    let mut colors = Vec::new();
    flate2::read::ZlibDecoder::new(stream(&bytes, 5, 7).as_slice())
        .read_to_end(&mut colors)
        .expect("decode unpremultiplied colors");
    assert_eq!(colors, [128, 64, 32]);
    let mut alpha = Vec::new();
    flate2::read::ZlibDecoder::new(stream(&bytes, 6, 8).as_slice())
        .read_to_end(&mut alpha)
        .expect("decode associated alpha");
    assert_eq!(alpha, [128]);
}

#[test]
fn multipage_tiff_is_rejected_without_selecting_the_first_page() {
    let files = TestFiles::new();
    let input = files.path("multipage.tiff");
    rgba_tiff_input(&files, &input, 1, 1, &[&[255, 0, 0, 255], &[0, 0, 255, 255]]);
    let output = files.path("multipage.pdf");

    let error = convert(&files, &input, &output, || false).expect_err("multipage TIFF");
    assert!(matches!(&error, ImagePdfError::UnsupportedImage));
    assert_eq!(error.code(), "UNSUPPORTED_FORMAT");
    assert!(!files.holds(&output));
}

#[test]
fn tiff_sub_ifd_is_rejected_as_an_additional_image_directory() {
    let files = TestFiles::new();
    let input = files.path("sub-ifd.tiff");
    rgb_tiff_with_sub_ifd(&files, &input);
    let output = files.path("sub-ifd.pdf");

    let error = convert(&files, &input, &output, || false).expect_err("TIFF SubIFD");
    assert!(matches!(&error, ImagePdfError::UnsupportedImage));
    assert_eq!(error.code(), "UNSUPPORTED_FORMAT");
    assert!(!files.holds(&output));
}

#[test]
fn tiff_dimensions_are_bounded_before_decoding_pixels() {
    let files = TestFiles::new();
    let input = files.path("wide.tif");
    let width = MAX_SIDE + 1;
    let pixels = vec![0u8; usize::try_from(width).expect("width") * 3];
    rgb_tiff_input(&files, &input, width, 1, &pixels);
    let output = files.path("wide.pdf");

    assert!(matches!(
        convert(&files, &input, &output, || false),
        Err(ImagePdfError::TooLarge)
    ));
    assert!(!files.holds(&output));
}

#[test]
fn cancellation_from_tiff_decoder_io_leaves_no_output() {
    let files = TestFiles::new();
    let input = files.path("cancel.tiff");
    rgb_tiff_input(&files, &input, 2, 1, &[10, 20, 30, 40, 50, 60]);
    let output = files.path("cancel-tiff.pdf");
    let checks = Cell::new(0u32);
    let should_stop = || {
        checks.set(checks.get() + 1);
        checks.get() >= 2
    };

    let error = convert(&files, &input, &output, should_stop).expect_err("cancel TIFF decode");
    assert!(matches!(&error, ImagePdfError::Cancelled));
    assert_eq!(error.code(), "CANCELLED");
    assert!(!files.holds(&output));
}

#[test]
fn animated_gif_and_webp_are_rejected_without_selecting_a_frame() {
    let files = TestFiles::new();
    let gif = files.path("animated.gif");
    gif_input(&files, &gif, 1, 1, &[&[255, 0, 0, 255], &[0, 0, 255, 255]]);
    let gif_pdf = files.path("animated-gif.pdf");
    assert!(matches!(
        convert(&files, &gif, &gif_pdf, || false),
        Err(ImagePdfError::UnsupportedImage)
    ));
    assert!(!files.holds(&gif_pdf));

    let webp = files.path("animated.webp");
    files.write(&webp, &animated_webp());
    let webp_pdf = files.path("animated-webp.pdf");
    assert!(matches!(
        convert(&files, &webp, &webp_pdf, || false),
        Err(ImagePdfError::UnsupportedImage)
    ));
    assert!(!files.holds(&webp_pdf));
}

#[test]
fn partial_frame_gif_is_rejected_instead_of_guessing_canvas_composition() {
    let files = TestFiles::new();
    let input = files.path("partial.gif");
    let mut encoder = gif::Encoder::new(Vec::new(), 2, 1, &[255, 0, 0]).expect("GIF header");
    let frame = gif::Frame::from_indexed_pixels(1, 1, vec![0], None);
    encoder.write_frame(&frame).expect("partial GIF frame");
    files.write(&input, &encoder.into_inner().expect("GIF trailer"));
    let output = files.path("partial.pdf");
    assert!(matches!(
        convert(&files, &input, &output, || false),
        Err(ImagePdfError::UnsupportedImage)
    ));
    assert!(!files.holds(&output));
}

#[test]
fn baseline_jpeg_is_embedded_without_reencoding() {
    let files = TestFiles::new();
    let input = files.path("photo.jpeg");
    let output = files.path("photo.pdf");
    let jpeg = jpeg_input(&files, &input, 2, 1, &[255, 0, 0, 0, 0, 255]);
    convert(&files, &input, &output, || false).expect("write JPEG PDF");
    let bytes = files.read(&output);
    assert!(bytes
        .windows(b"/DCTDecode".len())
        .any(|part| part == b"/DCTDecode"));
    assert_eq!(stream(&bytes, 5, 6), jpeg);
    assert!(bytes.ends_with(b"%%EOF\n"));
}

#[test]
fn progressive_and_grayscale_jpeg_are_supported() {
    let files = TestFiles::new();
    let input = files.path("progressive.jpg");
    let mut jpeg = Vec::new();
    let mut encoder = jpeg_encoder::Encoder::new(&mut jpeg, 90);
    encoder.set_progressive(true);
    encoder
        .encode(
            &[255, 0, 0, 0, 0, 255, 255, 0, 0, 0, 0, 255],
            2,
            2,
            jpeg_encoder::ColorType::Rgb,
        )
        .expect("progressive JPEG");
    files.write(&input, &jpeg);
    let output = files.path("progressive.pdf");
    convert(&files, &input, &output, || false).expect("progressive image PDF");
    assert_eq!(stream(&files.read(&output), 5, 6), jpeg);

    let gray = files.path("gray.jpg");
    let mut jpeg = Vec::new();
    jpeg_encoder::Encoder::new(&mut jpeg, 90)
        .encode(&[25, 225], 2, 1, jpeg_encoder::ColorType::Luma)
        .expect("grayscale JPEG");
    files.write(&gray, &jpeg);
    let gray_pdf = files.path("gray.pdf");
    convert(&files, &gray, &gray_pdf, || false).expect("grayscale image PDF");
    let bytes = files.read(&gray_pdf);
    assert!(bytes
        .windows(b"/ColorSpace /DeviceGray".len())
        .any(|part| part == b"/ColorSpace /DeviceGray"));
}

#[test]
fn sixteen_bit_png_is_not_silently_reduced_to_eight_bits() {
    let files = TestFiles::new();
    let input = files.path("sixteen.png");
    let mut png = Vec::new();
    let mut encoder = png::Encoder::new(&mut png, 1, 1);
    encoder.set_color(png::ColorType::Rgb);
    encoder.set_depth(png::BitDepth::Sixteen);
    encoder
        .write_header()
        .expect("16-bit PNG")
        .write_image_data(&[0xff, 0xff, 0x00, 0x00, 0x7f, 0xff])
        .expect("16-bit RGB");
    files.write(&input, &png);
    let output = files.path("sixteen.pdf");
    let error = convert(&files, &input, &output, || false).expect_err("16-bit PNG");
    assert!(matches!(&error, ImagePdfError::UnsupportedImage));
    assert_eq!(error.code(), "UNSUPPORTED_FORMAT");
    assert!(!files.holds(&output));
}

#[test]
fn corrupt_jpeg_or_mismatched_extension_is_rejected_without_output() {
    let files = TestFiles::new();
    let input = files.path("broken.jpg");
    let output = files.path("broken.pdf");
    let mut jpeg = jpeg_input(&files, &input, 1, 1, &[255, 0, 0]);
    jpeg.pop();
    files.write(&input, &jpeg);
    let error = convert(&files, &input, &output, || false).expect_err("truncated JPEG");
    assert!(matches!(&error, ImagePdfError::InvalidImage));
    assert_eq!(error.code(), "CORRUPTED_IMAGE");
    assert!(!files.holds(&output));
    let png = files.path("not-a-jpeg.jpg");
    png_input(&files, &png, 1, 1, png::ColorType::Rgb, &[1, 2, 3]);
    assert!(matches!(
        convert(&files, &png, &output, || false),
        Err(ImagePdfError::InvalidImage)
    ));
}

#[test]
fn structurally_valid_jpeg_with_truncated_entropy_is_not_embedded() {
    let files = TestFiles::new();
    let input = files.path("broken-entropy.jpg");
    let output = files.path("broken-entropy.pdf");
    let mut pixels = Vec::with_capacity(200 * 100 * 3);
    for _ in 0..100 {
        for x in 0..200 {
            pixels.extend_from_slice(if x < 100 { &[255, 0, 0] } else { &[0, 0, 255] });
        }
    }
    let jpeg = jpeg_input(&files, &input, 200, 100, &pixels);
    let sos = jpeg
        .windows(2)
        .position(|bytes| bytes == [0xff, 0xda])
        .expect("start of scan");
    let header = usize::from(u16::from_be_bytes([jpeg[sos + 2], jpeg[sos + 3]]));
    let entropy_start = sos + 2 + header;
    assert!(entropy_start < jpeg.len() - 2);
    let mut broken = jpeg[..entropy_start].to_vec();
    broken.extend_from_slice(&[0x00, 0xff, 0xd9]);
    files.write(&input, &broken);

    assert!(
        matches!(
            inspect_jpeg(&broken, &|| false),
            Err(ImagePdfError::InvalidImage)
        ),
        "the minimum entropy bound must reject early EOI"
    );
    assert!(matches!(
        convert(&files, &input, &output, || false),
        Err(ImagePdfError::InvalidImage)
    ));
    assert!(!files.holds(&output));
}

#[test]
fn invalid_huffman_tables_are_rejected_by_full_decode() {
    let files = TestFiles::new();
    let input = files.path("broken-huffman.jpg");
    let output = files.path("broken-huffman.pdf");
    let mut jpeg = jpeg_input(&files, &input, 32, 32, &[140, 80, 40].repeat(32 * 32));
    let dht = jpeg
        .windows(2)
        .position(|bytes| bytes == [0xff, 0xc4])
        .expect("DHT segment");
    jpeg[dht + 4] = 0xff;
    files.write(&input, &jpeg);

    assert!(
        inspect_jpeg(&jpeg, &|| false).is_ok(),
        "outer JPEG marker structure remains intact"
    );
    assert!(matches!(
        convert(&files, &input, &output, || false),
        Err(ImagePdfError::InvalidImage)
    ));
    assert!(!files.holds(&output));
}

#[test]
fn cancellation_while_decoding_jpeg_is_reported_without_an_output() {
    let files = TestFiles::new();
    let input = files.path("cancel.jpg");
    let output = files.path("cancel.pdf");
    jpeg_input(&files, &input, 200, 100, &[100, 90, 80].repeat(200 * 100));
    let checks = Cell::new(0u32);
    let should_stop = || {
        checks.set(checks.get() + 1);
        checks.get() >= 4
    };
    let error = convert(&files, &input, &output, should_stop).expect_err("cancel JPEG decode");
    assert!(matches!(&error, ImagePdfError::Cancelled));
    assert_eq!(error.code(), "CANCELLED");
    assert!(checks.get() >= 4);
    assert!(!files.holds(&output));
}

#[test]
fn exif_rotation_is_rejected_instead_of_writing_a_sideways_page() {
    let files = TestFiles::new();
    let input = files.path("rotated.jpg");
    let jpeg = jpeg_input(&files, &input, 2, 1, &[255, 0, 0, 0, 0, 255]);
    let exif = b"Exif\0\0II*\0\x08\0\0\0\x01\0\x12\x01\x03\0\x01\0\0\0\x06\0\0\0\0\0\0\0";
    assert_eq!(exif_orientation(exif).expect("EXIF orientation"), 6);
    let mut rotated = vec![0xff, 0xd8, 0xff, 0xe1];
    let app_length = u16::try_from(exif.len() + 2).expect("APP1 size");
    rotated.extend_from_slice(&app_length.to_be_bytes());
    rotated.extend_from_slice(exif);
    rotated.extend_from_slice(&jpeg[2..]);
    files.write(&input, &rotated);
    let output = files.path("rotated.pdf");
    assert!(matches!(
        convert(&files, &input, &output, || false),
        Err(ImagePdfError::UnsupportedImage)
    ));
    assert!(!files.holds(&output));
}

#[test]
fn pixel_and_axis_limits_are_checked_before_allocation() {
    assert!(matches!(
        checked_dimensions(MAX_SIDE + 1, 1),
        Err(ImagePdfError::TooLarge)
    ));
    assert!(matches!(
        checked_dimensions(4_000, 3_001),
        Err(ImagePdfError::TooLarge)
    ));
    assert!(checked_dimensions(4_000, 3_000).is_ok());
}

#[test]
fn gif_and_webp_dimensions_are_bounded_before_pixel_allocation() {
    let files = TestFiles::new();
    let gif = files.path("oversized.gif");
    gif_input(&files, &gif, 1, 1, &[&[0, 0, 0, 255]]);
    let mut gif_bytes = files.read(&gif);
    gif_bytes[6..8]
        .copy_from_slice(&u16::try_from(MAX_SIDE + 1).expect("GIF side").to_le_bytes());
    files.write(&gif, &gif_bytes);
    let gif_pdf = files.path("oversized-gif.pdf");
    assert!(matches!(
        convert(&files, &gif, &gif_pdf, || false),
        Err(ImagePdfError::TooLarge)
    ));
    assert!(!files.holds(&gif_pdf));

    let webp = files.path("oversized.webp");
    let mut bytes = webp_bytes(1, 1, &[0, 0, 0], image_webp::ColorType::Rgb8);
    let dimensions = 3_999u32 | (3_999u32 << 14);
    bytes[21..25].copy_from_slice(&dimensions.to_le_bytes());
    files.write(&webp, &bytes);
    let webp_pdf = files.path("oversized-webp.pdf");
    assert!(matches!(
        convert(&files, &webp, &webp_pdf, || false),
        Err(ImagePdfError::TooLarge)
    ));
    assert!(!files.holds(&webp_pdf));
}

#[test]
fn error_variants_return_stable_worker_codes() {
    let cases = [
        (ImagePdfError::InvalidInput, "PATH_NOT_ALLOWED"),
        (ImagePdfError::InvalidOutputPath, "OUTPUT_PATH_NOT_ALLOWED"),
        (ImagePdfError::InvalidImage, "CORRUPTED_IMAGE"),
        (ImagePdfError::UnsupportedImage, "UNSUPPORTED_FORMAT"),
        (ImagePdfError::TooLarge, "INPUT_TOO_LARGE"),
        (ImagePdfError::OutputTooLarge, "OUTPUT_SIZE_EXCEEDED"),
        (ImagePdfError::Cancelled, "CANCELLED"),
        (
            ImagePdfError::InputIo("input denied".to_owned()),
            "INPUT_READ_FAILED",
        ),
        (
            ImagePdfError::OutputIo("output denied".to_owned()),
            "OUTPUT_WRITE_FAILED",
        ),
    ];

    for (error, expected) in cases {
        assert_eq!(error.code(), expected);
    }
}

#[test]
fn io_error_variants_preserve_their_sources() {
    let input = ImagePdfError::InputIo("input denied".to_owned());
    let output = ImagePdfError::OutputIo("output closed".to_owned());
    assert_eq!(input.message(), "Could not read the image: input denied");
    assert_eq!(output.message(), "PDF output failed: output closed");
}

#[test]
fn mixed_images_form_multi_page_pdf_with_distinct_dimensions() {
    let files = TestFiles::new();
    let png = files.path("first.png");
    png_input(
        &files,
        &png,
        2,
        1,
        png::ColorType::Rgb,
        &[255, 0, 0, 0, 255, 0],
    );
    let bmp = files.path("second.bmp");
    bmp_input(&files, &bmp, 1, -2, 3, &[0, 0, 255, 255, 255, 0]);
    let jpg = files.path("third.jpg");
    let jpeg = jpeg_input(&files, &jpg, 3, 1, &[0, 255, 255].repeat(3));
    let output = files.path("album.pdf");
    let updates = RefCell::new(Vec::new());
    convert_all(
        &files,
        &[png, bmp, jpg],
        &output,
        || false,
        |done, total| {
            updates.borrow_mut().push((done, total));
        },
    )
    .expect("convert mixed album");
    let pdf = files.read(&output);
    assert!(pdf.ends_with(b"%%EOF\n"));
    assert_eq!(updates.into_inner(), [(1, 3), (2, 3), (3, 3)]);
    assert_eq!(
        pdf.windows(b"/Type /Page /Parent".len())
            .filter(|chunk| *chunk == b"/Type /Page /Parent")
            .count(),
        3
    );
    for expected in [
        b"/MediaBox [0 0 2.0000 1.0000]".as_slice(),
        b"/MediaBox [0 0 1.0000 2.0000]".as_slice(),
        b"/MediaBox [0 0 3.0000 1.0000]".as_slice(),
    ] {
        assert!(pdf.windows(expected.len()).any(|chunk| chunk == expected));
    }
    assert_eq!(inflate_stream(&pdf, 5, 6), [255, 0, 0, 0, 255, 0]);
    assert_eq!(inflate_stream(&pdf, 11, 12), [0, 0, 255, 255, 255, 0]);
    assert_eq!(stream(&pdf, 17, 18), jpeg);
}

#[test]
fn multi_page_invalid_count_cancellation_and_failure_clean_up() {
    let files = TestFiles::new();
    let valid = files.path("valid.png");
    png_input(&files, &valid, 1, 1, png::ColorType::Rgb, &[10, 20, 30]);
    let output = files.path("album.pdf");
    assert!(matches!(
        convert_all(&files, &[], &output, || false, |_, _| {}),
        Err(ImagePdfError::InvalidInput)
    ));
    assert!(matches!(
        convert_all(
            &files,
            &vec![valid.clone(); MAX_IMAGES + 1],
            &output,
            || false,
            |_, _| {}
        ),
        Err(ImagePdfError::InvalidInput)
    ));
    assert!(!files.holds(&output));
    let missing = files.path("missing.bmp");
    assert!(convert_all(
        &files,
        &[valid.clone(), missing],
        &output,
        || false,
        |_, _| {}
    )
    .is_err());
    assert!(!files.holds(&output));
    let done = Cell::new(0usize);
    assert!(matches!(
        convert_all(
            &files,
            &[valid.clone(), valid.clone()],
            &output,
            || done.get() > 0,
            |count, _| done.set(count)
        ),
        Err(ImagePdfError::Cancelled)
    ));
    assert!(!files.holds(&output));
    convert_all(
        &files,
        &[valid],
        &output,
        || false,
        |done, total| {
            assert_eq!((done, total), (1, 1));
        },
    )
    .expect("single-page batch path");
    assert_eq!(
        inflate_stream(&files.read(&output), 5, 6),
        [10, 20, 30]
    );
}

#[test]
fn missing_absolute_input_is_reported_as_input_read_failure() {
    let files = TestFiles::new();
    let input = files.path("missing.png");
    let output = files.path("missing.pdf");

    let error = convert(&files, &input, &output, || false).expect_err("missing input");
    assert!(matches!(
        &error,
        ImagePdfError::InputIo(source) if source == "not found"
    ));
    assert_eq!(error.code(), "INPUT_READ_FAILED");
    assert!(!files.holds(&output));
}

#[test]
fn oversized_input_is_rejected_before_decoding_or_creating_output() {
    assert!(matches!(
        admit_file(true, MAX_INPUT_BYTES + 1, Some("jpg")),
        Err(ImagePdfError::TooLarge)
    ));
    assert!(matches!(
        admit_file(true, MAX_INPUT_BYTES, Some("jpg")),
        Ok(ImageKind::Jpeg)
    ));
}

#[test]
fn cancellation_cleans_partial_output_and_existing_file_is_untouched() {
    let files = TestFiles::new();
    let input = files.path("color.png");
    let output = files.path("color.pdf");
    png_input(
        &files,
        &input,
        2,
        1,
        png::ColorType::Rgb,
        &[255, 0, 0, 0, 0, 255],
    );
    let checks = Cell::new(0usize);
    assert!(matches!(
        convert(&files, &input, &output, || {
            checks.set(checks.get() + 1);
            checks.get() > 3
        }),
        Err(ImagePdfError::Cancelled)
    ));
    assert!(!files.holds(&output));
    files.write(&output, b"old result");
    let error = convert(&files, &input, &output, || false).expect_err("existing output");
    assert!(matches!(
        &error,
        ImagePdfError::OutputIo(source) if source == "already exists"
    ));
    assert_eq!(error.code(), "OUTPUT_WRITE_FAILED");
    assert_eq!(files.read(&output), b"old result");
}

#[test]
fn cancellation_while_writing_webp_pixels_removes_partial_pdf() {
    let files = TestFiles::new();
    let input = files.path("cancel.webp");
    files.write(
        &input,
        &webp_bytes(
            20,
            20,
            &[25, 100, 225, 128].repeat(20 * 20),
            image_webp::ColorType::Rgba8,
        ),
    );
    let output = files.path("cancel-webp.pdf");
    let checks = Cell::new(0usize);
    assert!(matches!(
        convert(&files, &input, &output, || {
            checks.set(checks.get() + 1);
            checks.get() > 8
        }),
        Err(ImagePdfError::Cancelled)
    ));
    assert!(!files.holds(&output));
}

#[test]
fn image_paths_must_be_absolute_and_no_links() {
    assert!(admit_path(true, false).is_ok());
    assert!(matches!(
        admit_path(false, false),
        Err(ImagePdfError::InvalidInput)
    ));
    assert!(matches!(
        admit_path(true, true),
        Err(ImagePdfError::InvalidInput)
    ));
    assert!(matches!(
        admit_file(false, 10, Some("png")),
        Err(ImagePdfError::InvalidInput)
    ));
    assert!(matches!(
        admit_file(true, 0, Some("png")),
        Err(ImagePdfError::InvalidInput)
    ));
    assert!(matches!(
        admit_file(true, 10, None),
        Err(ImagePdfError::InvalidInput)
    ));
}

#[test]
fn extensions_name_the_kinds_of_images() {
    assert_eq!(image_kind("JPeG"), Some(ImageKind::Jpeg));
    assert_eq!(image_kind("tif"), Some(ImageKind::Tiff));
    assert_eq!(image_kind("svg"), None);
}

#[test]
fn decoded_sizes_are_bounded() {
    assert_eq!(decoded_size(3, 2, 4).expect("size"), 24);
    assert!(matches!(
        decoded_size(4_001, 4_000, usize::MAX),
        Err(ImagePdfError::TooLarge)
    ));
}

#[test]
fn batches_are_limited_in_bytes() {
    let files = TestFiles::new();
    let input = files.path("one.png");
    png_input(&files, &input, 1, 1, png::ColorType::Rgb, &[1, 2, 3]);
    let (kind, bytes) = files.open(&input).expect("admitted");
    let image = read_image(kind, bytes, &|| false).expect("decoded");
    let mut book = ImageBook::new(1).expect("book");
    assert!(matches!(
        book.add_image(image, MAX_BATCH_INPUT_BYTES + 1, &|| false),
        Err(ImagePdfError::TooLarge)
    ));
}

#[test]
fn small_pages_keep_their_size_and_large_ones_are_scaled_to_fit() {
    let files = TestFiles::new();
    let input = files.path("wide.png");
    let output = files.path("wide.pdf");
    png_input(
        &files,
        &input,
        4_000,
        1,
        png::ColorType::Grayscale,
        &[0; 4_000],
    );
    convert(&files, &input, &output, || false).expect("convert");
    let pdf = files.read(&output);
    let text = String::from_utf8_lossy(&pdf).into_owned();
    let start = text.find("/MediaBox [0 0 ").expect("media box") + 15;
    let width: f64 = text[start..]
        .split(' ')
        .next()
        .expect("width")
        .parse()
        .expect("number");
    assert!(width <= 4_000.0);
    assert_eq!(inflate_stream(&pdf, 5, 6), [0; 4_000]);
}

#[test]
fn output_paths_are_absolute_and_in_a_directory() {
    let files = TestFiles::new();
    let input = files.path("one.png");
    png_input(&files, &input, 1, 1, png::ColorType::Rgb, &[1, 2, 3]);
    for output in ["one.pdf", "/elsewhere/one.pdf"] {
        assert!(matches!(
            convert(&files, &input, output, || true),
            Err(ImagePdfError::InvalidOutputPath)
        ));
        assert!(matches!(
            convert_all(&files, &[input.clone()], output, || true, |_, _| {}),
            Err(ImagePdfError::InvalidOutputPath)
        ));
        assert!(!files.holds(output));
    }
    let output = files.path("two.pdf");
    let several = [input.clone(), input];
    assert!(matches!(
        convert_all(&files, &several, &output, || true, |_, _| {}),
        Err(ImagePdfError::Cancelled)
    ));
    convert_all(&files, &several, &output, || false, |_, _| {}).expect("convert");
    assert!(files.read(&output).starts_with(b"%PDF-1.4\n"));
}

#[test]
fn an_image_that_is_always_stopped_is_cancelled() {
    for kind in [
        ImageKind::Png,
        ImageKind::Jpeg,
        ImageKind::Gif,
        ImageKind::Webp,
        ImageKind::Bmp,
        ImageKind::Tiff,
    ] {
        assert!(matches!(
            read_image(kind, Vec::new(), &|| true),
            Err(ImagePdfError::Cancelled)
        ));
    }
}

/// A small TIFF file with the given entries: tag, type, count and value.
fn tiff_with(entries: &[(u16, u16, u32, u32)]) -> Vec<u8> {
    let mut bytes = b"II*\0\x08\0\0\0".to_vec();
    bytes.extend_from_slice(&(entries.len() as u16).to_le_bytes());
    for (tag, kind, count, value) in entries {
        bytes.extend_from_slice(&tag.to_le_bytes());
        bytes.extend_from_slice(&kind.to_le_bytes());
        bytes.extend_from_slice(&count.to_le_bytes());
        bytes.extend_from_slice(&value.to_le_bytes());
    }
    bytes.extend_from_slice(&[0; 20]);
    bytes
}

#[test]
fn tiff_pieces_that_cannot_be_counted_are_too_large() {
    let strips = tiff_with(&[
        (256, 4, 1, 1),
        (257, 4, 1, u32::MAX),
        (258, 3, 2, 0x0008_0008),
        (259, 3, 1, 1),
        (262, 3, 1, 1),
        (273, 4, 1, 8),
        (277, 3, 1, 2),
        (278, 4, 1, 1),
        (279, 4, 1, 8),
        (284, 3, 1, 2),
    ]);
    assert!(matches!(
        read_image(ImageKind::Tiff, strips, &|| false),
        Err(ImagePdfError::TooLarge)
    ));
    let tiles = tiff_with(&[
        (256, 4, 1, u32::MAX),
        (257, 4, 1, u32::MAX),
        (258, 3, 2, 0x0008_0008),
        (259, 3, 1, 1),
        (262, 3, 1, 1),
        (277, 3, 1, 2),
        (284, 3, 1, 2),
        (322, 4, 1, 1),
        (323, 4, 1, 1),
        (324, 4, 1, 8),
        (325, 4, 1, 8),
    ]);
    assert!(matches!(
        read_image(ImageKind::Tiff, tiles, &|| false),
        Err(ImagePdfError::TooLarge)
    ));
}

#[test]
fn tiff_tiles_are_counted_by_their_size() {
    // two tiles, whose offsets and sizes stand behind the directory
    let tiles = tiff_with(&[
        (256, 4, 1, u32::MAX),
        (257, 4, 1, u32::MAX),
        (258, 3, 2, 0x0008_0008),
        (259, 3, 1, 1),
        (262, 3, 1, 1),
        (277, 3, 1, 2),
        (284, 3, 1, 2),
        (322, 4, 1, u32::MAX),
        (323, 4, 1, u32::MAX),
        (324, 4, 2, 142),
        (325, 4, 2, 142),
    ]);
    assert!(matches!(
        read_image(ImageKind::Tiff, tiles, &|| false),
        Err(ImagePdfError::TooLarge)
    ));
}

#[test]
fn the_last_of_repeated_tiff_entries_counts() {
    let image = tiff_with(&[
        (256, 4, 1, 1),
        (257, 4, 1, u32::MAX),
        (277, 3, 1, 2),
        (278, 4, 1, 1),
        (284, 3, 1, 2),
        (257, 4, 1, 1),
        (258, 3, 1, 8),
        (259, 3, 1, 1),
        (262, 3, 1, 1),
        (273, 4, 1, 0),
        (277, 3, 1, 1),
        (279, 4, 1, 1),
        (284, 3, 1, 1),
    ]);
    let image = read_image(ImageKind::Tiff, image, &|| false).expect("one pixel");
    assert!(matches!(
        image,
        InputImage::Raster(raster) if raster.pixels == [b'I']
    ));
}

#[test]
fn merging_tells_of_every_image_in_order() {
    let files = TestFiles::new();
    let names: Vec<String> = (0..3).map(|index| files.path(&format!("{index}.bmp"))).collect();
    for name in &names {
        bmp_input(&files, name, 1, 1, 3, &[1, 2, 3]);
    }
    let merge = |names: &[String], count: usize, stop: bool| {
        write_images_pdf_telling(
            count,
            output_path("/files/all.pdf"),
            |index: usize| files.open(&names[index]),
            Vec::new(),
            |mut told: Vec<(usize, usize)>, done: usize, total: usize| {
                told.push((done, total));
                told
            },
            &|| stop,
        )
    };
    let (pdf, told) = merge(&names, 3, false);
    assert!(pdf.is_ok());
    assert_eq!(told, [(1, 3), (2, 3), (3, 3)]);
    let (pdf, told) = merge(&names[..1], 1, false);
    assert!(pdf.is_ok());
    assert_eq!(told, [(1, 1)]);
    let (pdf, told) = merge(&names, 0, false);
    assert!(matches!(pdf, Err(ImagePdfError::InvalidInput)));
    assert!(told.is_empty());
    let (pdf, told) = merge(&names, MAX_IMAGES + 1, false);
    assert!(matches!(pdf, Err(ImagePdfError::InvalidInput)));
    assert!(told.is_empty());
    let (pdf, told) = merge(&names, 3, true);
    assert!(matches!(pdf, Err(ImagePdfError::Cancelled)));
    assert!(told.is_empty());
    let broken = [names[0].clone(), files.path("none.bmp"), names[1].clone()];
    let (pdf, told) = merge(&broken, 3, false);
    assert!(matches!(pdf, Err(ImagePdfError::InputIo(..))));
    assert_eq!(told, [(1, 3)]);
}
