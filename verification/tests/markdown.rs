use std::cell::Cell;

use minimal_pdf_converter::markdown::{
    pdf_to_markdown, pdf_to_markdown_with_limit, validate_paths, write_document, MarkdownError,
    MarkdownPaths, MAX_INPUT_BYTES,
};
use minimal_pdf_converter::pdf::extract::{ControlledReadError, TextPage};
use minimal_pdf_converter::pdf::PdfError;

fn utf16_hex(value: &str) -> String {
    let mut output = String::from("FEFF");
    for unit in value.encode_utf16() {
        output.push_str(&format!("{unit:04X}"));
    }
    output
}

fn pdf_fixture(pages: &[&[&str]]) -> Vec<u8> {
    assert!(!pages.is_empty());
    let mut objects = Vec::new();
    objects.push(b"<< /Type /Catalog /Pages 2 0 R >>".to_vec());

    let kids = (0..pages.len())
        .map(|index| format!("{} 0 R", 3 + index * 2))
        .collect::<Vec<_>>()
        .join(" ");
    objects
        .push(format!("<< /Type /Pages /Kids [{kids}] /Count {} >>", pages.len()).into_bytes());

    for (index, lines) in pages.iter().enumerate() {
        let page_object = 3 + index * 2;
        let stream_object = page_object + 1;
        objects.push(
            format!(
                "<< /Type /Page /Parent 2 0 R /MediaBox [0 0 612 792] /Contents {stream_object} 0 R >>"
            )
            .into_bytes(),
        );
        let content = if lines.is_empty() {
            String::from("q Q")
        } else {
            let operations = lines
                .iter()
                .enumerate()
                .map(|(line_index, line)| {
                    let move_line = if line_index == 0 { "" } else { " T*" };
                    format!("{move_line} <{}> Tj", utf16_hex(line))
                })
                .collect::<String>();
            format!("BT /F1 12 Tf 72 720 Td{operations} ET")
        };
        let mut stream = format!("<< /Length {} >>\nstream\n", content.len()).into_bytes();
        stream.extend_from_slice(content.as_bytes());
        stream.extend_from_slice(b"\nendstream");
        objects.push(stream);
    }

    let mut pdf = b"%PDF-1.7\n".to_vec();
    let mut offsets = Vec::with_capacity(objects.len());
    for (index, object) in objects.iter().enumerate() {
        offsets.push(pdf.len());
        pdf.extend_from_slice(format!("{} 0 obj\n", index + 1).as_bytes());
        pdf.extend_from_slice(object);
        pdf.extend_from_slice(b"\nendobj\n");
    }
    let xref_offset = pdf.len();
    pdf.extend_from_slice(
        format!("xref\n0 {}\n0000000000 65535 f \n", objects.len() + 1).as_bytes(),
    );
    for offset in offsets {
        pdf.extend_from_slice(format!("{offset:010} 00000 n \n").as_bytes());
    }
    pdf.extend_from_slice(
        format!(
            "trailer << /Root 1 0 R /Size {} >>\nstartxref\n{xref_offset}\n%%EOF\n",
            objects.len() + 1
        )
        .as_bytes(),
    );
    pdf
}

fn convert(pages: &[&[&str]]) -> (usize, usize, u64, String) {
    let (stats, bytes) = pdf_to_markdown(Ok(pdf_fixture(pages)), &|| false).expect("convert PDF");
    (
        stats.page_count,
        stats.text_object_count,
        stats.output_bytes,
        String::from_utf8(bytes).expect("Markdown text"),
    )
}

fn paths() -> MarkdownPaths {
    MarkdownPaths {
        input_absolute: true,
        input_extension: Some("pdf".to_owned()),
        input_found: Ok(Some((true, 100))),
        output_absolute: true,
        output_extension: Some("md".to_owned()),
        output_parent: true,
    }
}

#[test]
fn preserves_multi_page_order_boundaries_utf8_and_empty_pages() {
    let (page_count, text_object_count, output_bytes, markdown) =
        convert(&[&["第一页", "second line"], &[], &["最后一页"]]);
    assert_eq!(
        markdown,
        "<!-- page: 1 -->\n\n第一页\nsecond line\n\n<!-- page: 2 -->\n\n<!-- page: 3 -->\n\n最后一页\n"
    );
    assert_eq!(page_count, 3);
    assert_eq!(text_object_count, 3);
    assert_eq!(
        output_bytes,
        u64::try_from(markdown.len()).expect("Markdown length")
    );
}

#[test]
fn escapes_syntax_only_where_plain_punctuation_could_be_reinterpreted() {
    let (_, _, _, markdown) = convert(&[&[
        "# heading",
        "- item",
        "+ item",
        "1. ordered",
        "---",
        "normal # hash + plus - dash. Version 1.2!",
        "![alt] <tag> {value} a|b *em* _em_ `code` C:\\tmp",
        "! ordinary",
    ]]);
    let expected = [
        "<!-- page: 1 -->\n\n",
        "\\# heading\n",
        "\\- item\n",
        "\\+ item\n",
        "1\\. ordered\n",
        "\\---\n",
        "normal # hash + plus - dash. Version 1.2!\n",
        "\\!\\[alt\\] \\<tag\\> \\{value\\} a\\|b \\*em\\* \\_em\\_ \\`code\\` C:\\\\tmp\n",
        "! ordinary\n",
    ]
    .join("");
    assert_eq!(markdown, expected);
}

#[test]
fn produces_identical_bytes_for_identical_input() {
    assert_eq!(
        convert(&[&["same", "content"]]),
        convert(&[&["same", "content"]])
    );
}

#[test]
fn cancellation_before_extraction_creates_no_output() {
    let error =
        pdf_to_markdown(Ok(pdf_fixture(&[&["content"]])), &|| true).expect_err("must cancel");
    assert_eq!(error.code(), "CANCELLED");
    let error = pdf_to_markdown(Err(ControlledReadError::Pdf(PdfError::Cancelled)), &|| false)
        .expect_err("must cancel");
    assert_eq!(error.code(), "CANCELLED");
}

#[test]
fn cancellation_while_writing_removes_partial_output() {
    let long_line = "text ".repeat(4_000);
    let page = TextPage {
        text: long_line,
        width_points: 612,
        height_points: 792,
        text_object_count: 1,
    };
    let write_checks = Cell::new(0_usize);
    let error = write_document(&vec![page], u64::MAX, &|| {
        let next = write_checks.get() + 1;
        write_checks.set(next);
        next >= 4
    })
    .expect_err("must cancel during write");
    assert_eq!(error.code(), "CANCELLED");
    assert!(write_checks.get() >= 4);
}

#[test]
fn output_limit_uses_checked_accounting_and_removes_partial_output() {
    let error = pdf_to_markdown_with_limit(
        Ok(pdf_fixture(&[&["too much content"]])),
        24,
        &|| false,
    )
    .expect_err("must exceed output limit");
    assert_eq!(error.code(), "OUTPUT_SIZE_EXCEEDED");
}

#[test]
fn extraction_failure_leaves_no_output() {
    let error = pdf_to_markdown(Ok(b"%PDF-1.7\nbroken".to_vec()), &|| false)
        .expect_err("must reject PDF");
    assert_eq!(error.code(), "CONVERSION_FAILED");
}

#[test]
fn document_without_text_layer_is_rejected_without_output() {
    let error =
        pdf_to_markdown(Ok(pdf_fixture(&[&[], &[]])), &|| false).expect_err("must reject no text");
    assert_eq!(error.code(), "NO_TEXT_LAYER");
}

#[test]
fn markdown_paths_are_checked_before_work() {
    assert!(validate_paths(paths()).is_ok());
    let relative = MarkdownPaths {
        input_absolute: false,
        ..paths()
    };
    assert!(matches!(
        validate_paths(relative),
        Err(MarkdownError::InvalidInputPath)
    ));
    let large = MarkdownPaths {
        input_found: Ok(Some((true, MAX_INPUT_BYTES + 1))),
        ..paths()
    };
    assert!(matches!(
        validate_paths(large),
        Err(MarkdownError::InputTooLarge)
    ));
    let output = MarkdownPaths {
        output_parent: false,
        ..paths()
    };
    let error = validate_paths(output).expect_err("refused");
    assert_eq!(error.code(), "OUTPUT_PATH_NOT_ALLOWED");
}

#[test]
fn numbered_items_are_escaped_whatever_ends_the_number() {
    let (_, _, _, markdown) = convert(&[&["1) item", "12) item", "1.item", "1)item", ") item"]]);
    assert_eq!(
        markdown,
        "<!-- page: 1 -->\n\n1\\) item\n12\\) item\n1.item\n1)item\n) item\n"
    );
}

#[test]
fn fences_underlines_and_references_are_escaped() {
    let (_, _, _, markdown) = convert(&[&[
        "text",
        "===",
        "--",
        "a = b -- c",
        "~~~",
        "~~gone~~",
        "&amp; &#38; &#x26;",
        "Tom & Jerry; R&D &; &# ;",
    ]]);
    let expected = [
        "<!-- page: 1 -->\n\n",
        "text\n",
        "\\===\n",
        "\\--\n",
        "a = b -- c\n",
        "\\~\\~\\~\n",
        "\\~\\~gone\\~\\~\n",
        "\\&amp; \\&#38; \\&#x26;\n",
        "Tom & Jerry; R&D &; &# ;\n",
    ]
    .join("");
    assert_eq!(markdown, expected);
}
