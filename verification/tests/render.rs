use std::cell::{Cell, RefCell};
use std::io::Cursor;

use minimal_pdf_converter::image::bmp::decode_bmp;
use minimal_pdf_converter::pdf::extract::TextPage;
use minimal_pdf_converter::pdf::selection::MAX_PAGES;
use minimal_pdf_converter::pdf::selection::PageSelection;
use minimal_pdf_converter::pdf::PdfError;
use minimal_pdf_converter::pdf_writer::{write_pages_pdf, write_text_pdf};
use minimal_pdf_converter::render::encode::{encode_bmp, encoder_outcome, write_image};
use minimal_pdf_converter::render::glyph::glyph_rows;
use minimal_pdf_converter::render::image_format::{
    check_image_dimensions, check_rgb_buffer, next_output_bytes, MAX_OUTPUT_BYTES,
};
use minimal_pdf_converter::render::raster::rasterize_page;
use minimal_pdf_converter::render::run::{check_options, page_name, render_page};
use minimal_pdf_converter::render::{
    render_pdf, render_pdf_telling, ImageFormat, RenderError, RenderOptions,
};

fn fixture() -> Vec<u8> {
    b"%PDF-1.7\n1 0 obj << /Type /Catalog /Pages 2 0 R >> endobj\n2 0 obj << /Type /Pages /Kids [3 0 R] /Count 1 >> endobj\n3 0 obj << /Type /Page /Parent 2 0 R /Contents 4 0 R >> endobj\n4 0 obj << /Length 22 >>\nstream\nBT (image test) Tj ET\nendstream\nendobj\ntrailer << /Root 1 0 R >>\n%%EOF\n".to_vec()
}

fn options(format: ImageFormat) -> RenderOptions {
    RenderOptions {
        selection: PageSelection::All,
        dpi: 150,
        format,
        jpg_quality: 85,
        max_selected_pages: 200,
        max_output_bytes: MAX_OUTPUT_BYTES,
    }
}

const PIXELS: [u8; 12] = [
    255, 0, 0, 0, 255, 0, // top row: red, green
    0, 0, 255, 255, 255, 255, // bottom row: blue, white
];

#[test]
fn writes_png_and_jpg_pages() {
    let png = render_pdf(
        Ok(fixture()),
        "page",
        &RenderOptions {
            max_selected_pages: MAX_PAGES,
            max_output_bytes: u64::MAX,
            ..options(ImageFormat::Png)
        },
        &|| false,
        |_, _, _| {},
    )
    .expect("png");
    assert!(png.outputs[0].bytes.starts_with(b"\x89PNG"));
    let jpg = render_pdf(
        Ok(fixture()),
        "page-jpg",
        &RenderOptions {
            max_selected_pages: MAX_PAGES,
            max_output_bytes: u64::MAX,
            ..options(ImageFormat::Jpg)
        },
        &|| false,
        |_, _, _| {},
    )
    .expect("jpg");
    assert!(jpg.outputs[0].bytes.starts_with(b"\xff\xd8"));
}

#[test]
fn bmp_gif_webp_and_tiff_encode_decodable_page_colors() {
    let bytes = write_image(2, 2, &PIXELS, ImageFormat::Bmp, 85).expect("encode BMP");
    assert_eq!(&bytes[..2], b"BM");
    assert_eq!(
        u32::from_le_bytes(bytes[2..6].try_into().expect("size")),
        70
    );
    assert_eq!(&bytes[54..62], &[255, 0, 0, 255, 255, 255, 0, 0]);
    assert_eq!(&bytes[62..70], &[0, 0, 255, 0, 255, 0, 0, 0]);

    let gif = write_image(2, 2, &PIXELS, ImageFormat::Gif, 85).expect("encode GIF");
    let mut decoder = gif::DecodeOptions::new();
    decoder.set_color_output(gif::ColorOutput::RGBA);
    let mut reader = decoder
        .read_info(gif.as_slice())
        .expect("decode GIF header");
    let frame = reader
        .read_next_frame()
        .expect("decode GIF frame")
        .expect("single GIF frame");
    assert_eq!((frame.width, frame.height), (2, 2));
    for (actual, original) in frame.buffer.chunks_exact(4).zip(PIXELS.chunks_exact(3)) {
        assert_eq!(&actual[..3], original);
        assert_eq!(actual[3], 255);
    }
    assert!(reader.read_next_frame().expect("GIF trailer").is_none());

    let webp = write_image(2, 2, &PIXELS, ImageFormat::Webp, 85).expect("encode WebP");
    let mut decoder = image_webp::WebPDecoder::new(Cursor::new(webp)).expect("decode WebP header");
    assert_eq!(decoder.dimensions(), (2, 2));
    assert!(!decoder.is_lossy());
    let mut decoded = [0u8; 12];
    decoder.read_image(&mut decoded).expect("decode WebP image");
    assert_eq!(decoded, PIXELS);

    let tiff = write_image(2, 2, &PIXELS, ImageFormat::Tiff, 85).expect("encode TIFF");
    let mut decoder =
        tiff::decoder::Decoder::new(Cursor::new(tiff)).expect("decode TIFF header");
    assert_eq!(decoder.dimensions().expect("TIFF dimensions"), (2, 2));
    assert_eq!(
        decoder.colortype().expect("TIFF color type"),
        tiff::ColorType::RGB(8)
    );
    assert!(!decoder.more_images());
    match decoder.read_image().expect("decode TIFF pixels") {
        tiff::decoder::DecodingResult::U8(decoded) => assert_eq!(decoded, PIXELS),
        _ => panic!("TIFF encoder must produce 8-bit RGB"),
    }
}

#[test]
fn renders_each_extended_format_as_a_separate_page_file() {
    let input = write_text_pdf("Format names").expect("write page");
    for (format, extension, header) in [
        (ImageFormat::Bmp, "bmp", b"BM".as_slice()),
        (ImageFormat::Gif, "gif", b"GIF89a".as_slice()),
        (ImageFormat::Webp, "webp", b"RIFF".as_slice()),
        (ImageFormat::Tiff, "tiff", b"II*\0".as_slice()),
    ] {
        let result = render_pdf(Ok(input.clone()), "page", &options(format), &|| false, |_, _, _| {})
            .expect("render requested format");
        assert_eq!(result.selected_page_count, 1);
        assert_eq!(result.outputs[0].name, format!("page-001.{extension}"));
        assert!(result.outputs[0].bytes.starts_with(header));
    }
}

#[test]
fn renders_pdf_pages_as_individual_single_image_tiffs() {
    let input =
        write_pages_pdf(&["first".to_owned(), "second".to_owned()]).expect("write two pages");
    let result = render_pdf(
        Ok(input),
        "page",
        &RenderOptions {
            max_selected_pages: 2,
            ..options(ImageFormat::Tiff)
        },
        &|| false,
        |_, _, _| {},
    )
    .expect("render TIFF pages");

    assert_eq!(result.selected_page_count, 2);
    assert_eq!(result.outputs[0].name, "page-001.tiff");
    assert_eq!(result.outputs[1].name, "page-002.tiff");
    for page in result.outputs {
        let mut decoder =
            tiff::decoder::Decoder::new(Cursor::new(page.bytes)).expect("read rendered TIFF");
        assert_eq!(
            decoder.colortype().expect("rendered TIFF color"),
            tiff::ColorType::RGB(8)
        );
        assert!(!decoder.more_images());
    }
}

#[test]
fn image_formats_reject_oversized_dimensions_and_malformed_rgb() {
    assert!(matches!(
        check_image_dimensions(65_536, 1, ImageFormat::Gif),
        Err(RenderError::PixelLimit)
    ));
    assert!(matches!(
        check_image_dimensions(16_385, 1, ImageFormat::Webp),
        Err(RenderError::PixelLimit)
    ));
    assert!(matches!(
        check_image_dimensions(40_000_001, 1, ImageFormat::Bmp),
        Err(RenderError::PixelLimit)
    ));
    assert!(matches!(
        check_rgb_buffer(2, 2, &[0; 11], ImageFormat::Webp),
        Err(RenderError::Encoding)
    ));
    assert_eq!(
        next_output_bytes(MAX_OUTPUT_BYTES - 1, 1, u64::MAX).expect("hard cap"),
        MAX_OUTPUT_BYTES
    );
    assert!(matches!(
        next_output_bytes(MAX_OUTPUT_BYTES, 1, u64::MAX),
        Err(RenderError::OutputLimit)
    ));
    assert!(matches!(
        next_output_bytes(u64::MAX, 1, u64::MAX),
        Err(RenderError::OutputLimit)
    ));
}

#[test]
fn rejects_page_limit_before_creating_presentation_images() {
    let input =
        write_pages_pdf(&["first".to_owned(), "second".to_owned()]).expect("write two pages");
    let result = render_pdf(
        Ok(input),
        "slide",
        &RenderOptions {
            jpg_quality: 90,
            max_selected_pages: 1,
            max_output_bytes: 512 * 1024 * 1024,
            ..options(ImageFormat::Jpg)
        },
        &|| false,
        |_, _, _| {},
    );
    assert!(matches!(
        result,
        Err(RenderError::Pdf(PdfError::PageLimitExceeded))
    ));
}

#[test]
fn rejects_image_budget_after_rendering_one_page() {
    let input = write_text_pdf("budget").expect("write page");
    let result = render_pdf(
        Ok(input),
        "slide",
        &RenderOptions {
            jpg_quality: 90,
            max_output_bytes: 1,
            ..options(ImageFormat::Tiff)
        },
        &|| false,
        |_, _, _| {},
    );
    assert!(matches!(result, Err(RenderError::OutputLimit)));
}

#[test]
fn cancellation_after_first_page_removes_partial_output() {
    let input =
        write_pages_pdf(&["first".to_owned(), "second".to_owned()]).expect("write two pages");
    let told = RefCell::new(Vec::new());
    let result = render_pdf(
        Ok(input.clone()),
        "page",
        &options(ImageFormat::Tiff),
        &|| told.borrow().len() > 1,
        |index, total, phase| told.borrow_mut().push((index, total, phase.to_owned())),
    );
    assert!(matches!(result, Err(RenderError::Pdf(PdfError::Cancelled))));
    assert_eq!(
        told.into_inner(),
        [
            (0, 2, "rendering".to_owned()),
            (1, 2, "rendering".to_owned())
        ]
    );
    let stopping = Cell::new(true);
    let result = render_pdf(
        Ok(input),
        "page",
        &options(ImageFormat::Tiff),
        &|| stopping.get(),
        |_, _, _| panic!("told after it was stopped"),
    );
    assert!(matches!(result, Err(RenderError::Pdf(PdfError::Cancelled))));
}

#[test]
fn bitmaps_are_read_back() {
    let pixels: Vec<u8> = (0..3 * 2 * 3).collect();
    let file = encode_bmp(3, 2, &pixels);
    let image = decode_bmp(&file, &|| false).expect("decode");
    assert_eq!((image.width, image.height), (3, 2));
    assert_eq!(image.pixels, pixels);
}

#[test]
fn page_sides_follow_the_resolution() {
    let page = TextPage {
        text: "Hi".to_owned(),
        width_points: 612,
        height_points: 792,
        text_object_count: 1,
    };
    for dpi in [150u16, 200, 300] {
        let image = rasterize_page(&page, dpi, ImageFormat::Png).expect("raster");
        let scale = f64::from(dpi) / 72.0;
        assert_eq!(image.width, (612.0 * scale).round() as u32);
        assert_eq!(image.height, (792.0 * scale).round() as u32);
        assert_eq!(
            image.pixels.len(),
            image.width as usize * image.height as usize * 3
        );
        assert!(image.pixels.iter().any(|component| *component < 128));
    }
}

#[test]
fn options_outside_their_ranges_are_refused() {
    assert!(check_options(&options(ImageFormat::Png)).is_ok());
    assert!(check_options(&RenderOptions {
        dpi: 149,
        ..options(ImageFormat::Png)
    })
    .is_err());
    assert!(check_options(&RenderOptions {
        dpi: 301,
        ..options(ImageFormat::Png)
    })
    .is_err());
}

#[test]
fn page_names_are_numbered() {
    assert_eq!(page_name("page", 0, ImageFormat::Jpg), "page-001.jpg");
    assert_eq!(page_name("page", 1233, ImageFormat::Png), "page-1234.png");
}

#[test]
fn one_page_is_rendered_to_one_file() {
    let page = TextPage {
        text: "a".to_owned(),
        width_points: 100,
        height_points: 100,
        text_object_count: 1,
    };
    let file = render_page(&page, &options(ImageFormat::Png)).expect("file");
    let reader = png::Decoder::new(Cursor::new(file))
        .read_info()
        .expect("header");
    assert_eq!(reader.info().width, 208);
}

#[test]
fn encoders_that_fail_are_reported() {
    assert!(matches!(encoder_outcome(None), Err(RenderError::Encoding)));
    assert_eq!(encoder_outcome(Some(vec![1])).expect("file"), [1]);
    assert!(matches!(
        write_image(2, 2, &[0; 11], ImageFormat::Png, 85),
        Err(RenderError::Encoding)
    ));
}

#[test]
fn glyphs_have_seven_rows() {
    assert_ne!(glyph_rows('A'), glyph_rows('B'));
    assert_eq!(glyph_rows(' '), [0; 7]);
}

#[test]
fn render_errors_have_messages() {
    assert_ne!(
        RenderError::PixelLimit.message(),
        RenderError::OutputLimit.message()
    );
}

#[test]
fn rendering_tells_of_every_page_in_order() {
    let input =
        write_pages_pdf(&["first".to_owned(), "second".to_owned()]).expect("write two pages");
    let render = |most: usize, bytes: u64| {
        render_pdf_telling(
            Ok(input.clone()),
            "page",
            &RenderOptions {
                max_selected_pages: most,
                max_output_bytes: bytes,
                ..options(ImageFormat::Png)
            },
            &|| false,
            Vec::new(),
            |mut told: Vec<(usize, usize, String)>, index: usize, total: usize, phase: &str| {
                told.push((index, total, phase.to_owned()));
                told
            },
        )
    };
    let (result, told) = render(2, u64::MAX);
    assert_eq!(result.expect("two pages").outputs.len(), 2);
    assert_eq!(
        told,
        [
            (0, 2, "rendering".to_owned()),
            (1, 2, "rendering".to_owned())
        ]
    );
    let (result, told) = render(1, u64::MAX);
    assert!(result.is_err());
    assert!(told.is_empty());
    let (result, told) = render(2, 1);
    assert!(matches!(result, Err(RenderError::OutputLimit)));
    assert_eq!(told, [(0, 2, "rendering".to_owned())]);
}
