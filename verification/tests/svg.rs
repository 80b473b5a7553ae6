use std::cell::Cell;

use minimal_pdf_converter::svg::{
    admit_file, allowed_attribute, allowed_element, check_output, drawn_pdf,
    matches_local_resource, preflight_svg, read_svg, svg_to_pdf, validate_attributes,
    validate_paths, Drawing, SvgInput, SvgPaths, SvgPdfError, MAX_DEPTH, MAX_INPUT_BYTES,
    MAX_NODES, MAX_OUTPUT_BYTES,
};
use svg2pdf::usvg;

fn paths() -> SvgPaths {
    SvgPaths {
        input_absolute: true,
        input_extension: Some("SVG".to_owned()),
        output_absolute: true,
        output_extension: Some("pdf".to_owned()),
        output_parent: true,
    }
}

fn read(xml: &str) -> Result<bool, SvgPdfError> {
    read_svg(xml.as_bytes(), xml.len() as u64, &|| false).map(|source| source.contains_text)
}

fn input(xml: &str) -> Result<SvgInput, String> {
    Ok(SvgInput {
        regular: true,
        length: xml.len() as u64,
        data: xml.as_bytes().to_vec(),
    })
}

fn draw(xml: &str, contains_text: bool) -> Drawing {
    let mut options = usvg::Options {
        resources_dir: None,
        default_size: usvg::Size::from_wh(794.0, 1123.0).expect("page size"),
        ..Default::default()
    };
    if contains_text {
        options.fontdb_mut().load_system_fonts();
        if options.fontdb.faces().next().is_none() {
            return Drawing::NoFonts;
        }
    }
    let tree = match usvg::Tree::from_str(xml, &options) {
        Ok(tree) => tree,
        Err(_) => return Drawing::Unreadable,
    };
    let size = tree.size();
    if size.width() * 72.0 / 96.0 > 14_400.0 || size.height() * 72.0 / 96.0 > 14_400.0 {
        return Drawing::BadPage;
    }
    let conversion = svg2pdf::ConversionOptions {
        embed_text: false,
        ..Default::default()
    };
    match svg2pdf::to_pdf(&tree, conversion, svg2pdf::PageOptions { dpi: 96.0 }) {
        Ok(pdf) => Drawing::Pdf(pdf),
        Err(_) => Drawing::Undrawable,
    }
}

fn holds(bytes: &[u8], word: &[u8]) -> bool {
    bytes.windows(word.len()).any(|window| window == word)
}

#[test]
fn shapes_and_gradient_stay_vector_with_css_pixel_page_size() {
    let file = input(
        r##"<svg xmlns="http://www.w3.org/2000/svg" width="96" height="48"><defs><linearGradient id="paint"><stop offset="0" stop-color="#f00"/><stop offset="1" stop-color="#0f0"/></linearGradient></defs><rect x="0" y="0" width="96" height="48" fill="url(#paint)"/><path d="M2 2 L30 20" stroke="#00f"/></svg>"##,
    );
    let pdf = svg_to_pdf(&paths(), &file, draw, || false).expect("vector SVG conversion");
    assert!(pdf.starts_with(b"%PDF-"));
    assert!(!holds(&pdf, b"/Subtype /Image"));
    assert!(holds(&pdf, b"/MediaBox [0 0 72 36]"));
}

#[test]
fn local_system_font_text_is_outlined_without_embedding_raster_assets() {
    let file = input(
        "<svg xmlns=\"http://www.w3.org/2000/svg\" width=\"140\" height=\"48\"><text x=\"8\" y=\"30\" font-family=\"sans-serif\" font-size=\"22\">Vector</text></svg>",
    );
    let pdf = svg_to_pdf(&paths(), &file, draw, || false)
        .expect("outline text using installed fonts");
    assert!(pdf.starts_with(b"%PDF-"));
    assert!(!holds(&pdf, b"/Subtype /Image"));
    assert!(!holds(&pdf, b"/FontFile"));
}

#[test]
fn svg_conversion_stops_and_fails_in_order() {
    let xml = "<svg xmlns=\"http://www.w3.org/2000/svg\" width=\"20\" height=\"10\"><circle cx=\"10\" cy=\"5\" r=\"5\"/></svg>";
    assert!(matches!(
        svg_to_pdf(&paths(), &input(xml), draw, || true),
        Err(SvgPdfError::Cancelled)
    ));
    let pdf = svg_to_pdf(&paths(), &input(xml), draw, || false).expect("retry conversion");
    assert!(pdf.starts_with(b"%PDF-"));
    let wide = "<svg xmlns=\"http://www.w3.org/2000/svg\" width=\"20000\" height=\"20\"><rect width=\"20000\" height=\"20\"/></svg>";
    assert!(matches!(
        svg_to_pdf(&paths(), &input(wide), draw, || false),
        Err(SvgPdfError::TooLarge)
    ));
    let long = Ok(SvgInput {
        regular: true,
        length: MAX_INPUT_BYTES + 1,
        data: vec![0; MAX_INPUT_BYTES as usize + 1],
    });
    assert!(matches!(
        svg_to_pdf(&paths(), &long, draw, || false),
        Err(SvgPdfError::TooLarge)
    ));
    assert!(matches!(
        svg_to_pdf(&paths(), &Err("denied".to_owned()), draw, || false),
        Err(SvgPdfError::InputIo(message)) if message == "denied"
    ));
    assert!(matches!(
        svg_to_pdf(
            &SvgPaths {
                input_extension: Some("png".to_owned()),
                ..paths()
            },
            &input(xml),
            draw,
            || true
        ),
        Err(SvgPdfError::InvalidInput)
    ));
    let calls = Cell::new(0usize);
    let drawing = |_: &str, _: bool| {
        calls.set(calls.get() + 1);
        Drawing::NoFonts
    };
    assert!(matches!(
        svg_to_pdf(&paths(), &input(xml), drawing, || false),
        Err(SvgPdfError::UnsupportedSvg)
    ));
    assert_eq!(calls.get(), 1);
}

#[test]
fn drawings_tell_what_went_wrong() {
    assert!(matches!(
        drawn_pdf(Drawing::NoFonts),
        Err(SvgPdfError::UnsupportedSvg)
    ));
    assert!(matches!(
        drawn_pdf(Drawing::Undrawable),
        Err(SvgPdfError::UnsupportedSvg)
    ));
    assert!(matches!(
        drawn_pdf(Drawing::Unreadable),
        Err(SvgPdfError::InvalidSvg)
    ));
    assert!(matches!(
        drawn_pdf(Drawing::BadPage),
        Err(SvgPdfError::TooLarge)
    ));
    assert!(matches!(
        drawn_pdf(Drawing::Pdf(vec![0; MAX_OUTPUT_BYTES + 1])),
        Err(SvgPdfError::OutputTooLarge)
    ));
    assert_eq!(
        drawn_pdf(Drawing::Pdf(b"%PDF-1.7 body".to_vec())).expect("a file"),
        b"%PDF-1.7 body"
    );
}

#[test]
fn shapes_and_gradients_pass_the_preflight() {
    let xml = r##"<svg xmlns="http://www.w3.org/2000/svg" width="96" height="48"><defs><linearGradient id="paint"><stop offset="0" stop-color="#f00"/><stop offset="1" stop-color="#0f0"/></linearGradient></defs><rect x="0" y="0" width="96" height="48" fill="url(#paint)"/><path d="M2 2 L30 20" stroke="#00f"/></svg>"##;
    assert!(!read(xml).expect("vector SVG"));
    let xml = "<svg xmlns=\"http://www.w3.org/2000/svg\" width=\"140\" height=\"48\"><text x=\"8\" y=\"30\" font-family=\"sans-serif\" font-size=\"22\">Vector</text></svg>";
    assert!(read(xml).expect("text SVG"));
}

#[test]
fn active_content_external_assets_and_raster_fallback_are_rejected() {
    for node in [
        "<script>alert(1)</script>",
        "<foreignObject><div>unsafe</div></foreignObject>",
        "<image href=\"file:///private/data.png\"/>",
        "<image href=\"https://example.invalid/image.png\"/>",
        "<filter id=\"blur\"/>",
        "<style>@import url(https://example.invalid/x.css)</style>",
        "<use href=\"#shape\"/>",
    ] {
        assert!(
            matches!(
                read(&format!("<svg>{node}</svg>")),
                Err(SvgPdfError::UnsupportedSvg)
            ),
            "accepted {node}"
        );
    }
    for attr in [
        "fill=\"url(file:///etc/passwd)\"",
        "fill=\"url(https://example.invalid/x)\"",
        "style=\"fill:url(#paint)\"",
        "onload=\"alert(1)\"",
        "xml:base=\"file:///etc/\"",
        "href=\"../../outside.svg\"",
    ] {
        assert!(
            matches!(
                read(&format!("<svg><rect {attr} width=\"10\" height=\"10\"/></svg>")),
                Err(SvgPdfError::UnsupportedSvg)
            ),
            "accepted {attr}"
        );
    }
    assert!(matches!(
        read("<!DOCTYPE svg [<!ENTITY leak SYSTEM 'file:///etc/passwd'>]><svg/>"),
        Err(SvgPdfError::UnsupportedSvg)
    ));
}

#[test]
fn svg_limits_and_cancellation() {
    let xml = "<svg width=\"20\" height=\"10\"><circle cx=\"10\" cy=\"5\" r=\"5\"/></svg>";
    assert!(matches!(
        read_svg(xml.as_bytes(), xml.len() as u64, &|| true),
        Err(SvgPdfError::Cancelled)
    ));
    assert!(read(xml).is_ok());
    assert!(matches!(
        admit_file(true, MAX_INPUT_BYTES + 1),
        Err(SvgPdfError::TooLarge)
    ));
    assert!(admit_file(true, MAX_INPUT_BYTES).is_ok());
    assert!(matches!(
        admit_file(false, 10),
        Err(SvgPdfError::InvalidInput)
    ));
    let deep = format!("{}{}", "<svg>".repeat(MAX_DEPTH + 1), "</svg>".repeat(MAX_DEPTH + 1));
    assert!(read(&deep).is_err());
    let many = format!("<svg>{}</svg>", "<g/>".repeat(MAX_NODES));
    assert!(matches!(read(&many), Err(SvgPdfError::TooLarge)));
    let calls = Cell::new(0usize);
    assert!(matches!(
        preflight_svg(xml, &|| {
            calls.set(calls.get() + 1);
            calls.get() > 2
        }),
        Err(SvgPdfError::Cancelled)
    ));
}

#[test]
fn malformed_svg_is_invalid() {
    for xml in ["", "<svg>", "<svg></g>", "text", "<g/>"] {
        assert!(read(xml).is_err(), "accepted {xml}");
    }
    assert!(matches!(
        read_svg(&[0xff, 0xfe], 2, &|| false),
        Err(SvgPdfError::InvalidSvg)
    ));
}

#[test]
fn local_resources_are_fragments() {
    assert!(matches_local_resource("url(#paint)"));
    assert!(!matches_local_resource("url(#)"));
    assert!(!matches_local_resource("url(x#paint)"));
    assert!(!matches_local_resource("#paint"));
}

#[test]
fn elements_and_attributes_come_from_lists() {
    assert!(allowed_element("rect"));
    assert!(!allowed_element("script"));
    assert!(allowed_attribute("fill"));
    assert!(!allowed_attribute("onload"));
    assert!(validate_attributes(" x=\"1\" y=\"2\"", false).is_ok());
    assert!(validate_attributes(" href=\"#a\"", false).is_err());
}

#[test]
fn svg_paths_are_checked_before_work() {
    assert!(validate_paths(&paths()).is_ok());
    assert!(matches!(
        validate_paths(&SvgPaths {
            input_absolute: false,
            ..paths()
        }),
        Err(SvgPdfError::InvalidInput)
    ));
    assert!(matches!(
        validate_paths(&SvgPaths {
            output_parent: false,
            ..paths()
        }),
        Err(SvgPdfError::InvalidOutputPath)
    ));
}

#[test]
fn drawn_files_must_be_vector_pdfs() {
    assert!(check_output(b"%PDF-1.7 body").is_ok());
    assert!(check_output(b"nothing").is_err());
    assert!(check_output(b"%PDF-1.7 /Subtype /Image").is_err());
}

#[test]
fn svg_errors_have_codes() {
    assert_eq!(SvgPdfError::Cancelled.code(), "CANCELLED");
    assert_eq!(SvgPdfError::TooLarge.code(), "INPUT_TOO_LARGE");
    assert!(SvgPdfError::OutputIo("full".to_owned())
        .message()
        .contains("full"));
}
