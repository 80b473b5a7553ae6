use std::cell::Cell;
use std::collections::BTreeMap;
use std::io::{Cursor, Read};

use minimal_pdf_converter::pptx::image_file::{
    image_dimensions, valid_dimensions, MAX_IMAGE_BYTES,
};
use minimal_pdf_converter::pptx::package::{validate_slides, PackageWriter, MAX_SLIDES};
use minimal_pdf_converter::pptx::parts::slide_xml;
use minimal_pdf_converter::pptx::{
    write_image_pptx, ImageInput, PptxError, SlideImage, SlideImageFormat,
};

fn png_bytes(width: u32, height: u32, pixels: &[u8]) -> Vec<u8> {
    let mut file = Vec::new();
    let mut encoder = png::Encoder::new(&mut file, width, height);
    encoder.set_color(png::ColorType::Rgb);
    encoder.set_depth(png::BitDepth::Eight);
    encoder
        .write_header()
        .expect("PNG header")
        .write_image_data(pixels)
        .expect("PNG data");
    file
}

fn png(width: u32, height: u32) -> (SlideImage, Vec<u8>) {
    let pixels = vec![255; usize::try_from(width * height * 3).expect("test size")];
    let slide = SlideImage {
        path: "/images/page.png".to_owned(),
        width,
        height,
        format: SlideImageFormat::Png,
    };
    (slide, png_bytes(width, height, &pixels))
}

fn jpeg(width: u16, height: u16) -> (SlideImage, Vec<u8>) {
    let mut file = Vec::new();
    jpeg_encoder::Encoder::new(&mut file, 85)
        .encode(
            &vec![240; usize::from(width) * usize::from(height) * 3],
            width,
            height,
            jpeg_encoder::ColorType::Rgb,
        )
        .expect("JPEG data");
    let slide = SlideImage {
        path: "/images/page.jpg".to_owned(),
        width: u32::from(width),
        height: u32::from(height),
        format: SlideImageFormat::Jpeg,
    };
    (slide, file)
}

fn found(data: &[u8]) -> ImageInput {
    ImageInput {
        absolute: true,
        symbolic_link: false,
        regular: true,
        length: data.len() as u64,
        data: data.to_vec(),
    }
}

fn write(pages: Vec<(SlideImage, Vec<u8>)>) -> Result<Vec<u8>, PptxError> {
    let (slides, images): (Vec<_>, Vec<_>) = pages.into_iter().unzip();
    write_image_pptx(
        true,
        true,
        &slides,
        |index: usize| Ok(found(&images[index])),
        || false,
    )
}

fn from_file(data: &[u8], format: SlideImageFormat) -> Result<SlideImage, PptxError> {
    SlideImage::from_file("/images/page".to_owned(), format, &Ok(found(data)))
}

fn entries(bytes: &[u8]) -> BTreeMap<String, Vec<u8>> {
    let mut archive = zip::ZipArchive::new(Cursor::new(bytes)).expect("open PPTX ZIP");
    let mut found = BTreeMap::new();
    for index in 0..archive.len() {
        let mut entry = archive.by_index(index).expect("open PPTX member");
        let name = entry.name().expect("member name").into_owned();
        let mut data = Vec::new();
        entry
            .read_to_end(&mut data)
            .expect("read and CRC-check member");
        assert!(found.insert(name, data).is_none());
    }
    found
}

#[test]
fn writes_office_readable_zip_with_png_jpeg_relationships_and_xml() {
    let content = write(vec![png(4, 2), jpeg(2, 4)]).expect("write PPTX");
    let entries = entries(&content);
    assert_eq!(entries.len(), 17);
    let presentation =
        std::str::from_utf8(&entries["ppt/presentation.xml"]).expect("presentation XML");
    assert!(presentation.contains("<p:sldSz cx=\"12192000\" cy=\"6096000\""));
    assert!(presentation.contains("<p:sldId id=\"257\" r:id=\"rId3\""));
    let second_slide = std::str::from_utf8(&entries["ppt/slides/slide2.xml"]).expect("slide XML");
    assert!(second_slide
        .contains("<a:off x=\"4572000\" y=\"0\"/><a:ext cx=\"3048000\" cy=\"6096000\"/>"));
    assert!(
        std::str::from_utf8(&entries["ppt/slides/_rels/slide2.xml.rels"])
            .expect("relationships")
            .contains("../media/page2.jpg")
    );
    assert!(entries["ppt/media/page1.png"].starts_with(b"\x89PNG"));
    assert!(entries["ppt/media/page2.jpg"].starts_with(b"\xff\xd8"));

    for (name, xml) in &entries {
        if name.ends_with(".xml") || name.ends_with(".rels") {
            let text = std::str::from_utf8(xml).expect("XML text");
            let mut reader = quick_xml::Reader::from_str(text);
            loop {
                match reader.read_event() {
                    Ok(quick_xml::events::Event::Eof) => break,
                    Ok(_) => {}
                    Err(error) => panic!("{name}: {error}"),
                }
            }
        }
    }
}

#[test]
fn streams_images_larger_than_one_buffer_with_exact_bytes() {
    let mut pixels = vec![0u8; 256 * 256 * 3];
    let mut state = 0x13579bdfu32;
    for pixel in &mut pixels {
        state ^= state << 13;
        state ^= state >> 17;
        state ^= state << 5;
        *pixel = state.to_le_bytes()[0];
    }
    let original = png_bytes(256, 256, &pixels);
    assert!(original.len() > 64 * 1024);
    let slide = SlideImage {
        path: "/images/large.png".to_owned(),
        width: 256,
        height: 256,
        format: SlideImageFormat::Png,
    };
    let package = entries(&write(vec![(slide, original.clone())]).expect("write PPTX"));
    assert_eq!(package["ppt/media/page1.png"], original);
}

#[test]
fn rejects_invalid_and_mismatched_images_without_leaving_output() {
    let (mut image, data) = png(3, 2);
    let discovered = from_file(&data, SlideImageFormat::Png).expect("PNG dimensions");
    assert_eq!((discovered.width, discovered.height), (3, 2));
    image.width = 4;
    assert!(matches!(
        write(vec![(image, data)]),
        Err(PptxError::InvalidImage)
    ));

    let (mut image, data) = jpeg(3, 2);
    let discovered = from_file(&data, SlideImageFormat::Jpeg).expect("JPEG dimensions");
    assert_eq!((discovered.width, discovered.height), (3, 2));
    image.height = 4;
    assert!(matches!(
        write(vec![(image, data)]),
        Err(PptxError::InvalidImage)
    ));

    assert!(matches!(
        from_file(b"not a PNG", SlideImageFormat::Png),
        Err(PptxError::InvalidImage)
    ));
    let slide = SlideImage {
        path: "/images/corrupt.png".to_owned(),
        width: 2,
        height: 2,
        format: SlideImageFormat::Png,
    };
    assert!(matches!(
        write(vec![(slide, b"not a PNG".to_vec())]),
        Err(PptxError::InvalidImage)
    ));
}

#[test]
fn rejects_limits_before_creating_output() {
    assert!(matches!(write(Vec::new()), Err(PptxError::SlideLimit)));
    let (mut oversized, data) = png(2, 2);
    oversized.width = 40_000_001;
    assert!(matches!(
        write(vec![(oversized, data.clone())]),
        Err(PptxError::InvalidDimensions)
    ));
    let (image, _) = png(2, 2);
    assert!(matches!(
        write_image_pptx(
            true,
            true,
            &vec![image],
            |_: usize| Ok(ImageInput {
                length: MAX_IMAGE_BYTES + 1,
                ..found(&data)
            }),
            || false
        ),
        Err(PptxError::PackageTooLarge)
    ));
    let entries = (0..MAX_SLIDES + 1).map(|_| png(2, 2)).collect();
    assert!(matches!(write(entries), Err(PptxError::SlideLimit)));
}

#[test]
fn requires_an_absolute_output_in_an_existing_directory() {
    let (image, data) = png(2, 2);
    let relative = ImageInput {
        absolute: false,
        ..found(&data)
    };
    assert!(matches!(
        SlideImage::from_file(
            "relative.png".to_owned(),
            SlideImageFormat::Png,
            &Ok(relative)
        ),
        Err(PptxError::InvalidImage)
    ));
    let slides = vec![image];
    for (absolute, in_directory) in [(false, true), (true, false)] {
        assert!(matches!(
            write_image_pptx(
                absolute,
                in_directory,
                &slides,
                |_: usize| Ok(found(&data)),
                || false
            ),
            Err(PptxError::InvalidOutputPath)
        ));
    }
}

#[test]
fn rejects_symbolic_link_images() {
    let (original, data) = png(2, 2);
    let link = || ImageInput {
        symbolic_link: true,
        ..found(&data)
    };
    assert!(matches!(
        SlideImage::from_file(
            "/images/link.png".to_owned(),
            SlideImageFormat::Png,
            &Ok(link())
        ),
        Err(PptxError::InvalidImage)
    ));
    assert!(matches!(
        write_image_pptx(true, true, &vec![original], |_: usize| Ok(link()), || false),
        Err(PptxError::InvalidImage)
    ));
}

#[test]
fn cancellation_removes_partial_file_and_never_overwrites_existing_output() {
    let (image, data) = png(2, 2);
    let slides = vec![image];
    let calls = Cell::new(0usize);
    let result = write_image_pptx(true, true, &slides, |_: usize| Ok(found(&data)), || {
        calls.set(calls.get() + 1);
        calls.get() > 15
    });
    assert!(matches!(result, Err(PptxError::Cancelled)));
    let result = write_image_pptx(
        true,
        true,
        &slides,
        |_: usize| Err("gone".to_owned()),
        || false,
    );
    assert!(matches!(result, Err(PptxError::Io(message)) if message == "gone"));
}

#[test]
fn changed_images_are_refused() {
    let (image, data) = png(2, 2);
    let slides = vec![image];
    let result = |length: u64| {
        write_image_pptx(
            true,
            true,
            &slides,
            |_: usize| {
                Ok(ImageInput {
                    length,
                    ..found(&data)
                })
            },
            || false,
        )
    };
    assert!(matches!(
        result(data.len() as u64 + 1),
        Err(PptxError::InvalidImage)
    ));
    assert!(matches!(
        result(data.len() as u64 - 1),
        Err(PptxError::PackageTooLarge)
    ));
}

#[test]
fn parts_of_one_name_are_refused_by_the_archive() {
    let mut package = PackageWriter::new();
    package.add_bytes("x", "<a/>", &|| false).expect("first");
    assert!(matches!(
        package.add_bytes("x", "<b/>", &|| false),
        Err(PptxError::Io(_))
    ));
    let mut package = PackageWriter::new();
    package.add_bytes("x", "<a/>", &|| false).expect("first");
    let file = package.finish().expect("archive");
    assert_eq!(entries(&file)["x"], b"<a/>");
}

#[test]
fn slides_have_the_shape_of_the_first_page() {
    let canvas = validate_slides(&vec![png(4, 2).0, png(1, 1).0]).expect("canvas");
    assert_eq!((canvas.width, canvas.height), (12_192_000, 6_096_000));
    let canvas = validate_slides(&vec![png(2, 4).0]).expect("canvas");
    assert_eq!((canvas.width, canvas.height), (6_096_000, 12_192_000));
    let xml = slide_xml(1, 1, 1, canvas);
    assert!(xml.contains("<a:off x=\"0\" y=\"3048000\"/><a:ext cx=\"6096000\" cy=\"6096000\"/>"));
    let (mut thin, _) = png(4, 2);
    thin.width = 1_000;
    thin.height = 10;
    assert!(matches!(
        validate_slides(&vec![thin]),
        Err(PptxError::InvalidDimensions)
    ));
}

#[test]
fn dimensions_are_bounded() {
    assert!(valid_dimensions(40_000_000, 1));
    assert!(!valid_dimensions(40_000_001, 1));
    assert!(!valid_dimensions(0, 1));
    let (_, data) = jpeg(7, 5);
    assert_eq!(
        image_dimensions(&data, SlideImageFormat::Jpeg, data.len() as u64).expect("size"),
        (7, 5)
    );
    assert!(image_dimensions(
        &data[..data.len() - 1],
        SlideImageFormat::Jpeg,
        data.len() as u64
    )
    .is_err());
}

#[test]
fn pptx_errors_have_messages() {
    assert_eq!(
        PptxError::Io("disk full".to_owned()).message(),
        "PPTX read/write failed: disk full"
    );
    assert_eq!(PptxError::Cancelled.message(), "PPTX conversion cancelled");
}

#[test]
fn a_package_that_is_always_stopped_is_cancelled() {
    let (image, data) = png(2, 2);
    let result = write_image_pptx(
        true,
        true,
        &vec![image],
        |_: usize| Ok(found(&data)),
        || true,
    );
    assert!(matches!(result, Err(PptxError::Cancelled)));
}

#[test]
fn images_that_are_found_make_a_package() {
    let (_, data) = png(3, 2);
    let pages: Vec<(SlideImage, Vec<u8>)> =
        (0..12).map(|_| (png(3, 2).0, data.clone())).collect();
    let file = write(pages).expect("package");
    let held = entries(&file);
    for slide in 1..=12 {
        assert!(held.contains_key(&format!("ppt/slides/slide{slide}.xml")));
    }
    assert_eq!(
        held.values().filter(|content| **content == data).count(),
        12
    );
}
