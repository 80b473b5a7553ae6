use std::cell::Cell;
use std::collections::BTreeMap;
use std::io::Write;

use flate2::write::ZlibEncoder;
use flate2::Compression;

use minimal_pdf_converter::pdf::cmap::{
    parse_to_unicode_cmap, CmapBudget, FontMap, MAX_CMAP_ENTRIES, MAX_CMAP_MAPPING_BYTES,
    MAX_CMAP_RANGE_ENTRIES,
};
use minimal_pdf_converter::pdf::document::{parse_document, validate_indexed_references};
use minimal_pdf_converter::pdf::extract::{
    extract_pages_from_path_bounded_with_control, extract_text, extract_text_with_control,
    BoundedPageExtractionError, ControlledReadError, PathReader, FILE_READ_BUFFER_BYTES,
};
use minimal_pdf_converter::pdf::filter::{
    decode_ascii_hex, decode_flate, decode_flate_with_control, DECODE_BUFFER_BYTES,
};
use minimal_pdf_converter::pdf::font_text::decode_font_text;
use minimal_pdf_converter::pdf::lexer::Tokenizer;
use minimal_pdf_converter::pdf::number::PdfNumber;
use minimal_pdf_converter::pdf::object::{PdfObject, XrefEntry, MAX_STREAM_BYTES};
use minimal_pdf_converter::pdf::pages::page_size;
use minimal_pdf_converter::pdf::selection::PageSelection;
use minimal_pdf_converter::pdf::value::{parse_value, PdfRef, PdfValue, MAX_VALUE_DEPTH};
use minimal_pdf_converter::pdf::xref::{verify_xref_structure, XrefLocation, MAX_XREF_REVISIONS};
use minimal_pdf_converter::pdf::PdfError;
use minimal_pdf_converter::table::Table;

/// Reads `bytes` the way a file is read.
fn read_with_control(
    bytes: &[u8],
    max_bytes: Option<u64>,
    should_stop: &impl Fn() -> bool,
) -> Result<Vec<u8>, ControlledReadError> {
    let mut reader = PathReader::open(should_stop(), Ok(bytes.len() as u64), max_bytes)?;
    let mut at = 0;
    loop {
        let end = (at + FILE_READ_BUFFER_BYTES).min(bytes.len());
        if !reader.accept(should_stop(), Ok(&bytes[at..end]))? {
            return Ok(reader.finish());
        }
        at = end;
    }
}

fn pdf_with_stream(stream: &[u8], filter: Option<&str>, pages: usize) -> Vec<u8> {
    let mut output = b"%PDF-1.7\n".to_vec();
    let page_count = pages.max(1);
    output.extend_from_slice(b"1 0 obj << /Type /Catalog /Pages 2 0 R >> endobj\n");
    output.extend_from_slice(
        format!("2 0 obj << /Type /Pages /Kids [3 0 R] /Count {page_count} >> endobj\n")
            .as_bytes(),
    );
    output
        .extend_from_slice(b"3 0 obj << /Type /Page /Parent 2 0 R /Contents 4 0 R >> endobj\n");
    let filter_entry = filter
        .map(|value| format!(" /Filter /{value}"))
        .unwrap_or_default();
    output.extend_from_slice(
        format!(
            "4 0 obj << /Length {}{} >>\nstream\n",
            stream.len(),
            filter_entry
        )
        .as_bytes(),
    );
    output.extend_from_slice(stream);
    output.extend_from_slice(b"\nendstream\nendobj\ntrailer << /Root 1 0 R >>\n%%EOF\n");
    output
}

#[test]
fn bounded_pages_only_extraction_rejects_total_text_over_budget() {
    let bytes = pdf_with_stream(b"BT (bounded text) Tj ET", None, 1);
    let input = read_with_control(&bytes, Some(bytes.len() as u64), &|| false);
    let result = extract_pages_from_path_bounded_with_control(
        input,
        &PageSelection::All,
        3,
        || false,
    );
    assert!(matches!(
        result,
        Err(BoundedPageExtractionError::TextLimitExceeded)
    ));
}

#[test]
fn path_reader_checks_cancellation_between_chunks() {
    let input = vec![0_u8; FILE_READ_BUFFER_BYTES * 2];
    let checks = Cell::new(0_usize);
    let result = read_with_control(&input, None, &|| {
        checks.set(checks.get() + 1);
        checks.get() >= 3
    });
    assert!(matches!(
        result,
        Err(ControlledReadError::Pdf(PdfError::Cancelled))
    ));
}

fn pdf_with_extra_object(object: &[u8]) -> Vec<u8> {
    let bytes = pdf_with_stream(b"BT (valid) Tj ET", None, 1);
    let trailer = b"trailer << /Root 1 0 R >>\n%%EOF\n";
    let mut output = bytes[..bytes.len() - trailer.len()].to_vec();
    output.extend_from_slice(object);
    output.extend_from_slice(trailer);
    output
}

fn form_stream(content: &[u8], resources: &str) -> Vec<u8> {
    let mut object = format!(
        "<< /Type /XObject /Subtype /Form /BBox [0 0 612 792] /Resources {resources} /Length {} >>\nstream\n",
        content.len()
    )
    .into_bytes();
    object.extend_from_slice(content);
    object.extend_from_slice(b"\nendstream");
    object
}

fn pdf_with_form_objects(
    content: &[u8],
    resources: &str,
    extra_objects: &[(u32, Vec<u8>)],
) -> Vec<u8> {
    let mut objects = BTreeMap::from([
        (1, b"<< /Type /Catalog /Pages 2 0 R >>".to_vec()),
        (2, b"<< /Type /Pages /Kids [3 0 R] /Count 1 >>".to_vec()),
        (
            3,
            format!("<< /Type /Page /Parent 2 0 R /Resources {resources} /Contents 4 0 R >>")
                .into_bytes(),
        ),
        (4, {
            let mut stream = format!("<< /Length {} >>\nstream\n", content.len()).into_bytes();
            stream.extend_from_slice(content);
            stream.extend_from_slice(b"\nendstream");
            stream
        }),
    ]);
    objects.extend(extra_objects.iter().cloned());
    let mut pdf = b"%PDF-1.7\n".to_vec();
    let mut offsets = Vec::new();
    for number in 1..=objects.len() as u32 {
        let object = objects.get(&number).expect("sequential fixture IDs");
        offsets.push(pdf.len());
        pdf.extend_from_slice(format!("{number} 0 obj\n").as_bytes());
        pdf.extend_from_slice(object);
        pdf.extend_from_slice(b"\nendobj\n");
    }
    let xref = pdf.len();
    pdf.extend_from_slice(
        format!("xref\n0 {}\n0000000000 65535 f \n", offsets.len() + 1).as_bytes(),
    );
    for offset in offsets {
        pdf.extend_from_slice(format!("{offset:010} 00000 n \n").as_bytes());
    }
    pdf.extend_from_slice(
        format!(
            "trailer << /Root 1 0 R /Size {} >>\nstartxref\n{xref}\n%%EOF\n",
            objects.len() + 1
        )
        .as_bytes(),
    );
    pdf
}

#[test]
fn extracts_form_text_between_page_text_fragments() {
    let pdf = pdf_with_form_objects(
        b"BT (before) Tj ET /F0 Do BT (after) Tj ET",
        "<< /XObject << /F0 5 0 R >> >>",
        &[(5, form_stream(b"BT (inside) Tj ET", "<< >>"))],
    );
    let result = extract_text(&pdf, &PageSelection::All).expect("form text");
    assert_eq!(result.text, "before\ninside\nafter");
    assert_eq!(result.text_object_count, 3);
}

#[test]
fn extracts_chinese_using_form_local_to_unicode_font() {
    let cmap = b"1 begincodespacerange <0000> <FFFF> endcodespacerange 2 beginbfchar <0001> <4E2D> <0002> <6587> endbfchar";
    let pdf = pdf_with_form_objects(
        b"/F0 Do",
        "<< /XObject << /F0 5 0 R >> >>",
        &[
            (
                5,
                form_stream(
                    b"BT /T 12 Tf <00010002> Tj ET",
                    "<< /Font << /T 6 0 R >> >>",
                ),
            ),
            (
                6,
                b"<< /Type /Font /Subtype /Type0 /Encoding /Identity-H /ToUnicode 7 0 R >>"
                    .to_vec(),
            ),
            (7, {
                let mut stream = format!("<< /Length {} >>\nstream\n", cmap.len()).into_bytes();
                stream.extend_from_slice(cmap);
                stream.extend_from_slice(b"\nendstream");
                stream
            }),
        ],
    );
    assert_eq!(
        extract_text(&pdf, &PageSelection::All)
            .expect("form-local CMap")
            .text,
        "中文"
    );
}

#[test]
fn cmap_limit_error_is_not_silently_downgraded_to_fallback_text() {
    let cmap = b"1 beginbfrange <00000000> <FFFFFFFF> <0041> endbfrange";
    let pdf = pdf_with_form_objects(
        b"/F0 Do",
        "<< /XObject << /F0 5 0 R >> >>",
        &[
            (
                5,
                form_stream(
                    b"BT /T 12 Tf <00000000> Tj ET",
                    "<< /Font << /T 6 0 R >> >>",
                ),
            ),
            (
                6,
                b"<< /Type /Font /Subtype /Type0 /Encoding /Identity-H /ToUnicode 7 0 R >>"
                    .to_vec(),
            ),
            (7, {
                let mut stream = format!("<< /Length {} >>\nstream\n", cmap.len()).into_bytes();
                stream.extend_from_slice(cmap);
                stream.extend_from_slice(b"\nendstream");
                stream
            }),
        ],
    );
    assert!(matches!(
        extract_text(&pdf, &PageSelection::All),
        Err(PdfError::CMapLimitExceeded)
    ));
}

#[test]
fn nested_form_can_be_reused_without_false_cycle_detection() {
    let pdf = pdf_with_form_objects(
        b"/Outer Do /Outer Do",
        "<< /XObject << /Outer 5 0 R >> >>",
        &[
            (
                5,
                form_stream(b"/Inner Do", "<< /XObject << /Inner 6 0 R >> >>"),
            ),
            (6, form_stream(b"BT (nested) Tj ET", "<< >>")),
        ],
    );
    let result = extract_text(&pdf, &PageSelection::All).expect("reused form");
    assert_eq!(result.text, "nested\nnested");
    assert_eq!(result.text_object_count, 2);
}

#[test]
fn rejects_cyclic_form_xobjects() {
    let pdf = pdf_with_form_objects(
        b"/Loop Do",
        "<< /XObject << /Loop 5 0 R >> >>",
        &[(
            5,
            form_stream(b"/Loop Do", "<< /XObject << /Loop 5 0 R >> >>"),
        )],
    );
    assert!(matches!(
        extract_text(&pdf, &PageSelection::All),
        Err(PdfError::CorruptedPdf)
    ));
}

#[test]
fn rejects_form_chain_over_depth_limit() {
    let mut forms = Vec::new();
    for number in 5..=(5 + MAX_VALUE_DEPTH as u32) {
        let next = number + 1;
        let content = if next <= 5 + MAX_VALUE_DEPTH as u32 {
            b"/Next Do".as_slice()
        } else {
            b"BT (deep) Tj ET".as_slice()
        };
        forms.push((
            number,
            form_stream(content, &format!("<< /XObject << /Next {next} 0 R >> >>")),
        ));
    }
    let pdf = pdf_with_form_objects(b"/Next Do", "<< /XObject << /Next 5 0 R >> >>", &forms);
    assert!(matches!(
        extract_text(&pdf, &PageSelection::All),
        Err(PdfError::CorruptedPdf)
    ));
}

#[test]
fn cancellation_is_checked_inside_form_text_streams() {
    let pdf = pdf_with_form_objects(
        b"/F0 Do",
        "<< /XObject << /F0 5 0 R >> >>",
        &[(5, form_stream(b"BT (inside) Tj ET", "<< >>"))],
    );
    let checks = Cell::new(0usize);
    let result = extract_text_with_control(&pdf, &PageSelection::All, || {
        checks.set(checks.get() + 1);
        checks.get() >= 3
    });
    assert!(matches!(result, Err(PdfError::Cancelled)));
}

#[test]
fn ignores_non_form_xobjects_without_hiding_page_text() {
    let pdf = pdf_with_form_objects(
        b"/Im0 Do BT (visible) Tj ET",
        "<< /XObject << /Im0 5 0 R >> >>",
        &[(5, b"<< /Type /XObject /Subtype /Image >>".to_vec())],
    );
    assert_eq!(
        extract_text(&pdf, &PageSelection::All)
            .expect("text beside image")
            .text,
        "visible"
    );
}

fn pdf_with_indirect_length(stream: &[u8], declared_length: usize) -> Vec<u8> {
    let mut output = b"%PDF-1.7\n".to_vec();
    let mut offsets = Vec::new();
    offsets.push(output.len());
    output.extend_from_slice(b"1 0 obj << /Type /Catalog /Pages 2 0 R >> endobj\n");
    offsets.push(output.len());
    output.extend_from_slice(b"2 0 obj << /Type /Pages /Kids [3 0 R] /Count 1 >> endobj\n");
    offsets.push(output.len());
    output
        .extend_from_slice(b"3 0 obj << /Type /Page /Parent 2 0 R /Contents 4 0 R >> endobj\n");
    offsets.push(output.len());
    output.extend_from_slice(b"4 0 obj << /Length 5 0 R >>\nstream\n");
    output.extend_from_slice(stream);
    output.extend_from_slice(b"\nendstream\nendobj\n");
    offsets.push(output.len());
    output.extend_from_slice(format!("5 0 obj\n{declared_length}\nendobj\n").as_bytes());
    let xref_offset = output.len();
    output.extend_from_slice(b"xref\n0 6\n0000000000 65535 f \n");
    for offset in offsets {
        output.extend_from_slice(format!("{offset:010} 00000 n \n").as_bytes());
    }
    output.extend_from_slice(
        format!("trailer << /Root 1 0 R /Size 6 >>\nstartxref\n{xref_offset}\n%%EOF\n")
            .as_bytes(),
    );
    output
}

fn modern_pdf_with_xref(
    content: &[u8],
    extra_xref_fields: &str,
    change: impl FnOnce(&mut [[u8; 7]; 8]),
) -> Vec<u8> {
    let catalog = b"<< /Type /Catalog /Pages 2 0 R >>";
    let pages = b"<< /Type /Pages /Kids [3 0 R] /Count 1 >>";
    let page = b"<< /Type /Page /Parent 2 0 R /Contents 4 0 R /MediaBox [0 0 612 792] >>";
    let header = format!(
        "1 0 2 {} 3 {} ",
        catalog.len() + 1,
        catalog.len() + pages.len() + 2
    );
    let mut encoder = ZlibEncoder::new(Vec::new(), Compression::default());
    encoder.write_all(header.as_bytes()).expect("object header");
    encoder.write_all(catalog).expect("catalog");
    encoder.write_all(b" ").expect("separator");
    encoder.write_all(pages).expect("pages");
    encoder.write_all(b" ").expect("separator");
    encoder.write_all(page).expect("page");
    let compressed_objects = encoder.finish().expect("object stream");

    let mut bytes = b"%PDF-1.7\n".to_vec();
    let mut offsets = [0usize; 8];
    offsets[4] = bytes.len();
    bytes.extend_from_slice(b"4 0 obj << /Length 7 0 R >>\nstream\n");
    bytes.extend_from_slice(content);
    bytes.extend_from_slice(b"\nendstream\nendobj\n");
    offsets[5] = bytes.len();
    bytes.extend_from_slice(
        format!(
            "5 0 obj << /Type /ObjStm /N 3 /First {} /Filter /FlateDecode /Length {} >>\nstream\n",
            header.len(),
            compressed_objects.len()
        )
        .as_bytes(),
    );
    bytes.extend_from_slice(&compressed_objects);
    bytes.extend_from_slice(b"\nendstream\nendobj\n");
    offsets[7] = bytes.len();
    bytes.extend_from_slice(format!("7 0 obj {} endobj\n", content.len()).as_bytes());
    offsets[6] = bytes.len();

    let mut rows = [[0u8; 7]; 8];
    rows[0][5..].copy_from_slice(&u16::MAX.to_be_bytes());
    for (index, row) in rows.iter_mut().enumerate().take(4).skip(1) {
        row[0] = 2;
        row[1..5].copy_from_slice(&5u32.to_be_bytes());
        row[5..].copy_from_slice(
            &u16::try_from(index - 1)
                .expect("fixture index")
                .to_be_bytes(),
        );
    }
    for index in [4, 5, 6, 7] {
        rows[index][0] = 1;
        rows[index][1..5].copy_from_slice(
            &u32::try_from(offsets[index])
                .expect("small fixture offset")
                .to_be_bytes(),
        );
    }
    change(&mut rows);
    let raw_xref = rows.into_iter().flatten().collect::<Vec<_>>();
    let mut encoder = ZlibEncoder::new(Vec::new(), Compression::default());
    encoder.write_all(&raw_xref).expect("xref data");
    let compressed_xref = encoder.finish().expect("xref stream");
    bytes.extend_from_slice(
        format!(
            "6 0 obj << /Type /XRef /Size 8 /W [1 4 2] /Root 1 0 R{extra_xref_fields} /Filter /FlateDecode /Length {} >>\nstream\n",
            compressed_xref.len()
        )
        .as_bytes(),
    );
    bytes.extend_from_slice(&compressed_xref);
    bytes.extend_from_slice(
        format!("\nendstream\nendobj\nstartxref\n{}\n%%EOF\n", offsets[6]).as_bytes(),
    );
    bytes
}

fn append_modern_revision(
    mut bytes: Vec<u8>,
    content: &[u8],
    xref_number: u32,
    free_content: bool,
    previous_override: Option<usize>,
) -> Vec<u8> {
    let previous = match verify_xref_structure(&bytes).expect("previous xref") {
        XrefLocation::Stream(offset) | XrefLocation::Table(offset) => offset,
        XrefLocation::Missing => panic!("fixture requires an xref"),
    };
    let content_offset = bytes.len();
    if !free_content {
        assert_eq!(content.len(), b"BT (indexed) Tj ET".len());
        bytes.extend_from_slice(b"4 0 obj << /Length 7 0 R >>\nstream\n");
        bytes.extend_from_slice(content);
        bytes.extend_from_slice(b"\nendstream\nendobj\n");
    }
    let xref_offset = bytes.len();
    let mut rows = [[0u8; 7]; 2];
    if free_content {
        rows[0][5..].copy_from_slice(&1u16.to_be_bytes());
    } else {
        rows[0][0] = 1;
        rows[0][1..5].copy_from_slice(
            &u32::try_from(content_offset)
                .expect("fixture content offset")
                .to_be_bytes(),
        );
    }
    rows[1][0] = 1;
    rows[1][1..5].copy_from_slice(
        &u32::try_from(xref_offset)
            .expect("fixture xref offset")
            .to_be_bytes(),
    );
    let mut encoder = ZlibEncoder::new(Vec::new(), Compression::default());
    encoder
        .write_all(&rows.into_iter().flatten().collect::<Vec<_>>())
        .expect("xref rows");
    let stream = encoder.finish().expect("compress xref");
    bytes.extend_from_slice(
        format!(
            "{xref_number} 0 obj << /Type /XRef /Root 1 0 R /Size {} /W [1 4 2] /Index [4 1 {xref_number} 1] /Prev {} /Filter /FlateDecode /Length {} >>\nstream\n",
            xref_number + 1,
            previous_override.unwrap_or(previous),
            stream.len()
        )
        .as_bytes(),
    );
    bytes.extend_from_slice(&stream);
    bytes.extend_from_slice(
        format!("\nendstream\nendobj\nstartxref\n{xref_offset}\n%%EOF\n").as_bytes(),
    );
    bytes
}

fn append_traditional_revision(
    mut bytes: Vec<u8>,
    content: Option<&[u8]>,
    extra_trailer: &str,
    previous_override: Option<usize>,
) -> Vec<u8> {
    let previous = match verify_xref_structure(&bytes).expect("previous xref") {
        XrefLocation::Table(offset) | XrefLocation::Stream(offset) => offset,
        XrefLocation::Missing => panic!("fixture requires an xref"),
    };
    let entry = if let Some(content) = content {
        let object_offset = bytes.len();
        bytes.extend_from_slice(b"4 0 obj << /Length 5 0 R >>\nstream\n");
        bytes.extend_from_slice(content);
        bytes.extend_from_slice(b"\nendstream\nendobj\n");
        format!("{object_offset:010} 00000 n")
    } else {
        "0000000000 00001 f".to_owned()
    };
    let offset = bytes.len();
    bytes.extend_from_slice(
        format!(
            "xref\n4 1\n{entry} \ntrailer << /Size 6 /Root 1 0 R /Prev {}{extra_trailer} >>\nstartxref\n{offset}\n%%EOF\n",
            previous_override.unwrap_or(previous)
        )
        .as_bytes(),
    );
    bytes
}

#[test]
fn extracts_latest_content_across_traditional_xref_revisions() {
    let original = pdf_with_indirect_length(b"BT (before) Tj ET", 17);
    let first = append_traditional_revision(original, Some(b"BT (middle) Tj ET"), "", None);
    let latest = append_traditional_revision(first, Some(b"BT (newest) Tj ET"), "", None);
    let result =
        extract_text(&latest, &PageSelection::All).expect("latest traditional revision");
    assert_eq!(result.text, "newest");
    assert_eq!(result.page_count, 1);
}

#[test]
fn traditional_xref_free_entry_masks_older_content() {
    let original = pdf_with_indirect_length(b"BT (before) Tj ET", 17);
    let updated = append_traditional_revision(original, Some(b"BT (middle) Tj ET"), "", None);
    let deleted = append_traditional_revision(updated, None, "", None);
    assert!(matches!(
        extract_text(&deleted, &PageSelection::All),
        Err(PdfError::CorruptedPdf)
    ));
}

#[test]
fn traditional_xref_ignores_unindexed_object_redefinition() {
    let original = pdf_with_indirect_length(b"BT (before) Tj ET", 17);
    let mut updated =
        append_traditional_revision(original, Some(b"BT (newest) Tj ET"), "", None);
    updated.extend_from_slice(b"4 0 obj << /Length 0 >> stream\n\nendstream endobj\n");
    let result = extract_text(&updated, &PageSelection::All).expect("indexed revision only");
    assert_eq!(result.text, "newest");
}

#[test]
fn traditional_xref_rejects_wrong_generation_in_latest_entry() {
    let original = pdf_with_indirect_length(b"BT (before) Tj ET", 17);
    let mut updated =
        append_traditional_revision(original, Some(b"BT (newest) Tj ET"), "", None);
    let offset = match verify_xref_structure(&updated).expect("latest table") {
        XrefLocation::Table(offset) => offset,
        _ => panic!("expected traditional table"),
    };
    let row = offset + b"xref\n4 1\n".len();
    updated[row + 11..row + 16].copy_from_slice(b"00001");
    assert!(matches!(
        extract_text(&updated, &PageSelection::All),
        Err(PdfError::CorruptedPdf)
    ));
}

#[test]
fn traditional_xref_rejects_duplicate_entries_in_one_revision() {
    let original = pdf_with_indirect_length(b"BT (before) Tj ET", 17);
    let mut updated =
        append_traditional_revision(original, Some(b"BT (newest) Tj ET"), "", None);
    let marker = b"trailer << /Size 6";
    let at = updated
        .windows(marker.len())
        .rposition(|part| part == marker)
        .expect("latest trailer");
    updated.splice(at..at, b"4 1\n0000000000 00001 f \n".iter().copied());
    assert!(matches!(
        extract_text(&updated, &PageSelection::All),
        Err(PdfError::CorruptedPdf)
    ));
}

#[test]
fn traditional_xref_rejects_invalid_previous_offset() {
    let original = pdf_with_indirect_length(b"BT (before) Tj ET", 17);
    let updated =
        append_traditional_revision(original, Some(b"BT (newest) Tj ET"), "", Some(0));
    assert!(matches!(
        extract_text(&updated, &PageSelection::All),
        Err(PdfError::CorruptedPdf)
    ));
}

#[test]
fn traditional_xref_requires_a_root_in_latest_trailer() {
    let original = pdf_with_indirect_length(b"BT (before) Tj ET", 17);
    let mut updated =
        append_traditional_revision(original, Some(b"BT (newest) Tj ET"), "", None);
    let marker = b"/Root 1 0 R";
    let at = updated
        .windows(marker.len())
        .rposition(|part| part == marker)
        .expect("latest root");
    updated[at + 1..at + 5].copy_from_slice(b"Nope");
    assert!(matches!(
        extract_text(&updated, &PageSelection::All),
        Err(PdfError::CorruptedPdf)
    ));
}

#[test]
fn traditional_xref_rejects_hybrid_and_mixed_revisions() {
    let original = pdf_with_indirect_length(b"BT (before) Tj ET", 17);
    let hybrid = append_traditional_revision(
        original.clone(),
        Some(b"BT (newest) Tj ET"),
        " /XRefStm 9",
        None,
    );
    assert!(matches!(
        extract_text(&hybrid, &PageSelection::All),
        Err(PdfError::UnsupportedStructure)
    ));
    let previous_stream = modern_pdf_with_xref(b"BT (indexed) Tj ET", "", |_| {});
    let mixed = append_traditional_revision(previous_stream, None, "", None);
    assert!(matches!(
        extract_text(&mixed, &PageSelection::All),
        Err(PdfError::UnsupportedStructure)
    ));
}

#[test]
fn traditional_xref_rejects_chain_over_revision_limit() {
    let mut bytes = pdf_with_indirect_length(b"BT (before) Tj ET", 17);
    for _ in 0..MAX_XREF_REVISIONS {
        bytes = append_traditional_revision(bytes, Some(b"BT (newest) Tj ET"), "", None);
    }
    assert!(matches!(
        extract_text(&bytes, &PageSelection::All),
        Err(PdfError::UnsupportedStructure)
    ));
}

#[test]
fn extracts_compressed_page_objects_from_xref_stream() {
    let bytes = modern_pdf_with_xref(b"BT (indexed) Tj ET", "", |_| {});
    let result = extract_text(&bytes, &PageSelection::All).expect("extract modern PDF");
    assert_eq!(result.text, "indexed");
    assert_eq!(
        (result.pages[0].width_points, result.pages[0].height_points),
        (612, 792)
    );
}

#[test]
fn ignores_unindexed_object_headers_in_page_content() {
    let bytes = modern_pdf_with_xref(
        b"BT (1 0 obj << /Type /Catalog >> endobj) Tj ET",
        "",
        |_| {},
    );
    let result = extract_text(&bytes, &PageSelection::All).expect("indexed page");
    assert_eq!(result.text, "1 0 obj << /Type /Catalog >> endobj");
}

#[test]
fn rejects_mismatched_compressed_object_index() {
    let bytes = modern_pdf_with_xref(b"BT (indexed) Tj ET", "", |rows| {
        rows[3][6] = 1;
    });
    assert!(matches!(
        extract_text(&bytes, &PageSelection::All),
        Err(PdfError::CorruptedPdf)
    ));
}

#[test]
fn rejects_mismatched_direct_object_offset() {
    let bytes = modern_pdf_with_xref(b"BT (indexed) Tj ET", "", |rows| {
        rows[4][1..5].copy_from_slice(&1u32.to_be_bytes());
    });
    assert!(matches!(
        extract_text(&bytes, &PageSelection::All),
        Err(PdfError::CorruptedPdf)
    ));
}

#[test]
fn rejects_stale_generation_references_in_indexed_objects() {
    let mut objects = Table::new();
    objects.insert(
        1,
        PdfObject {
            value: PdfValue::Ref(PdfRef {
                object: 4,
                generation: 1,
            }),
            stream: None,
        },
    );
    let mut entries = Table::new();
    entries.insert(
        4,
        XrefEntry::Direct {
            offset: 10,
            generation: 0,
        },
    );
    assert!(matches!(
        validate_indexed_references(&objects, &entries),
        Err(PdfError::CorruptedPdf)
    ));
}

#[test]
fn rejects_prev_pointer_to_non_xref_object() {
    let bytes = modern_pdf_with_xref(b"BT (indexed) Tj ET", " /Prev 9", |_| {});
    assert!(matches!(
        extract_text(&bytes, &PageSelection::All),
        Err(PdfError::UnsupportedStructure)
    ));
}

#[test]
fn extracts_latest_content_across_multiple_xref_stream_revisions() {
    let original = modern_pdf_with_xref(b"BT (indexed) Tj ET", "", |_| {});
    let first = append_modern_revision(original, b"BT (revised) Tj ET", 8, false, None);
    let latest = append_modern_revision(first, b"BT (current) Tj ET", 9, false, None);
    let result = extract_text(&latest, &PageSelection::All).expect("latest revision");
    assert_eq!(result.text, "current");
    assert_eq!(result.page_count, 1);
}

#[test]
fn free_entry_in_new_revision_does_not_resurrect_old_content() {
    let original = modern_pdf_with_xref(b"BT (indexed) Tj ET", "", |_| {});
    let deleted = append_modern_revision(original, b"", 8, true, None);
    assert!(matches!(
        extract_text(&deleted, &PageSelection::All),
        Err(PdfError::CorruptedPdf)
    ));
}

#[test]
fn rejects_invalid_previous_xref_offset() {
    let original = modern_pdf_with_xref(b"BT (indexed) Tj ET", "", |_| {});
    let bytes = append_modern_revision(original, b"BT (updated) Tj ET", 8, false, Some(0));
    assert!(matches!(
        extract_text(&bytes, &PageSelection::All),
        Err(PdfError::CorruptedPdf)
    ));
}

#[test]
fn rejects_latest_xref_stream_without_a_root() {
    let original = modern_pdf_with_xref(b"BT (indexed) Tj ET", "", |_| {});
    let mut bytes = append_modern_revision(original, b"BT (updated) Tj ET", 8, false, None);
    let marker = b"/Root 1 0 R";
    let position = bytes
        .windows(marker.len())
        .rposition(|part| part == marker)
        .expect("newest root");
    bytes[position + 1..position + 5].copy_from_slice(b"Nope");
    assert!(matches!(
        extract_text(&bytes, &PageSelection::All),
        Err(PdfError::CorruptedPdf)
    ));
}

#[test]
fn rejects_xref_stream_revision_pointing_to_a_traditional_table() {
    let mut original = modern_pdf_with_xref(b"BT (indexed) Tj ET", "", |_| {});
    let table_offset = original.len();
    original.extend_from_slice(
        format!(
            "xref\n0 1\n0000000000 65535 f \ntrailer << /Size 8 /Root 1 0 R >>\nstartxref\n{table_offset}\n%%EOF\n"
        )
        .as_bytes(),
    );
    let bytes = append_modern_revision(original, b"BT (updated) Tj ET", 8, false, None);
    assert!(matches!(
        extract_text(&bytes, &PageSelection::All),
        Err(PdfError::UnsupportedStructure)
    ));
}

#[test]
fn rejects_xref_stream_chain_over_revision_limit() {
    let mut bytes = modern_pdf_with_xref(b"BT (indexed) Tj ET", "", |_| {});
    for number in 8..(8 + MAX_XREF_REVISIONS as u32) {
        bytes = append_modern_revision(bytes, b"BT (updated) Tj ET", number, false, None);
    }
    assert!(matches!(
        extract_text(&bytes, &PageSelection::All),
        Err(PdfError::UnsupportedStructure)
    ));
}

#[test]
fn rejects_unknown_xref_entry_type() {
    let bytes = modern_pdf_with_xref(b"BT (indexed) Tj ET", "", |rows| {
        rows[3][0] = 3;
    });
    assert!(matches!(
        extract_text(&bytes, &PageSelection::All),
        Err(PdfError::UnsupportedStructure)
    ));
}

#[test]
fn rejects_xref_widths_outside_bounded_reader() {
    let mut bytes = modern_pdf_with_xref(b"BT (indexed) Tj ET", "", |_| {});
    let marker = b"/W [1 4 2]";
    let at = bytes
        .windows(marker.len())
        .position(|part| part == marker)
        .expect("xref widths");
    bytes[at + 4] = b'9';
    assert!(matches!(
        extract_text(&bytes, &PageSelection::All),
        Err(PdfError::CorruptedPdf)
    ));
}

#[test]
fn rejects_excessively_nested_pdf_values() {
    let mut bytes = b"%PDF-1.7\n1 0 obj ".to_vec();
    bytes.extend(std::iter::repeat_n(b'[', MAX_VALUE_DEPTH + 1));
    bytes.extend_from_slice(b"null");
    bytes.extend(std::iter::repeat_n(b']', MAX_VALUE_DEPTH + 1));
    bytes.extend_from_slice(b" endobj\n%%EOF\n");
    assert!(matches!(
        extract_text(&bytes, &PageSelection::All),
        Err(PdfError::CorruptedPdf)
    ));
}

#[test]
fn rejects_out_of_range_object_numbers_without_aliasing_a_real_object() {
    let bytes = b"%PDF-1.7\n4294967297 0 obj << /Type /Catalog >> endobj\n%%EOF\n";
    assert!(matches!(
        extract_text(bytes, &PageSelection::All),
        Err(PdfError::CorruptedPdf)
    ));
    let mut reference = Tokenizer::new(b"4294967297 0 R");
    assert!(matches!(
        parse_value(&mut reference),
        Ok(PdfValue::Number(number)) if number == PdfNumber::whole(4_294_967_297)
    ));
}

#[test]
fn rejects_page_tree_cycles_and_excessive_depth() {
    let cyclic = b"%PDF-1.7\n1 0 obj << /Type /Catalog /Pages 2 0 R >> endobj\n2 0 obj << /Type /Pages /Kids [2 0 R] >> endobj\n%%EOF\n";
    assert!(matches!(
        extract_text(cyclic, &PageSelection::All),
        Err(PdfError::CorruptedPdf)
    ));

    let mut deep = b"%PDF-1.7\n1 0 obj << /Type /Catalog /Pages 2 0 R >> endobj\n".to_vec();
    for number in 2..=70 {
        deep.extend_from_slice(
            format!(
                "{number} 0 obj << /Type /Pages /Kids [{} 0 R] >> endobj\n",
                number + 1
            )
            .as_bytes(),
        );
    }
    deep.extend_from_slice(b"71 0 obj << /Type /Page >> endobj\n%%EOF\n");
    assert!(matches!(
        extract_text(&deep, &PageSelection::All),
        Err(PdfError::CorruptedPdf)
    ));
}

#[test]
fn rejects_cyclic_and_deep_content_references() {
    let mut cyclic = pdf_with_extra_object(b"5 0 obj 6 0 R endobj\n6 0 obj 5 0 R endobj\n");
    let marker = b"/Contents 4 0 R";
    let position = cyclic
        .windows(marker.len())
        .position(|part| part == marker)
        .expect("page contents");
    cyclic[position + b"/Contents ".len()] = b'5';
    assert!(matches!(
        extract_text(&cyclic, &PageSelection::All),
        Err(PdfError::CorruptedPdf)
    ));

    let mut deep = pdf_with_stream(b"BT (valid) Tj ET", None, 1);
    let position = deep
        .windows(marker.len())
        .position(|part| part == marker)
        .expect("page contents");
    deep[position + b"/Contents ".len()] = b'5';
    let trailer = b"trailer << /Root 1 0 R >>\n%%EOF\n";
    deep.truncate(deep.len() - trailer.len());
    for number in 5..=70 {
        deep.extend_from_slice(
            format!("{number} 0 obj {} 0 R endobj\n", number + 1).as_bytes(),
        );
    }
    deep.extend_from_slice(b"71 0 obj 4 0 R endobj\n");
    deep.extend_from_slice(trailer);
    assert!(matches!(
        extract_text(&deep, &PageSelection::All),
        Err(PdfError::CorruptedPdf)
    ));
}

#[test]
fn reads_indirect_stream_length_from_matching_xref_entry() {
    let stream = b"BT (before endstream after) Tj ET";
    let bytes = pdf_with_indirect_length(stream, stream.len());
    let result = extract_text(&bytes, &PageSelection::All).expect("extract indirect stream");
    assert_eq!(result.text, "before endstream after");
}

#[test]
fn rejects_indirect_length_without_a_verifiable_xref() {
    let bytes = b"%PDF-1.7\n1 0 obj << /Length 2 0 R >>\nstream\n(endstream)\nendstream\nendobj\n2 0 obj 11 endobj\n%%EOF\n";
    assert!(matches!(
        extract_text(bytes, &PageSelection::All),
        Err(PdfError::UnsupportedStreamLength)
    ));
}

#[test]
fn rejects_indirect_length_that_extends_beyond_stream() {
    let bytes = pdf_with_indirect_length(b"BT (short) Tj ET", 100_000);
    assert!(matches!(
        extract_text(&bytes, &PageSelection::All),
        Err(PdfError::CorruptedPdf)
    ));
}

#[test]
fn rejects_indirect_length_when_xref_target_has_wrong_object_number() {
    let mut bytes = pdf_with_indirect_length(b"BT (text) Tj ET", 15);
    let header = b"5 0 obj\n15\nendobj";
    let offset = bytes
        .windows(header.len())
        .position(|window| window == header)
        .expect("length object header");
    bytes[offset] = b'6';
    assert!(matches!(
        extract_text(&bytes, &PageSelection::All),
        Err(PdfError::CorruptedPdf)
    ));
}

#[test]
fn rejects_streams_with_missing_or_excessive_length() {
    let missing =
        b"%PDF-1.7\n1 0 obj << >>\nstream\nBT (test) Tj ET\nendstream\nendobj\n%%EOF\n";
    assert!(matches!(
        extract_text(missing, &PageSelection::All),
        Err(PdfError::CorruptedPdf)
    ));
    let excessive = format!(
        "%PDF-1.7\n1 0 obj << /Length {} >>\nstream\nendstream\nendobj\n%%EOF\n",
        MAX_STREAM_BYTES + 1
    );
    assert!(matches!(
        extract_text(excessive.as_bytes(), &PageSelection::All),
        Err(PdfError::StreamLimitExceeded)
    ));
}

#[test]
fn flate_decode_enforces_limit_without_full_expansion() {
    let mut encoder = ZlibEncoder::new(Vec::new(), Compression::default());
    encoder.write_all(b"five!!").expect("compress fixture");
    let encoded = encoder.finish().expect("finish fixture");
    assert!(matches!(
        decode_flate(&encoded, 5),
        Err(PdfError::StreamLimitExceeded)
    ));
    assert_eq!(decode_flate(&encoded, 6).expect("exact limit"), b"five!!");
}

#[test]
fn flate_decode_checks_cancellation_between_output_chunks() {
    let expanded = vec![0_u8; DECODE_BUFFER_BYTES * 4];
    let mut encoder = ZlibEncoder::new(Vec::new(), Compression::default());
    encoder.write_all(&expanded).expect("compress fixture");
    let encoded = encoder.finish().expect("finish fixture");
    let checks = Cell::new(0_usize);
    let result = decode_flate_with_control(&encoded, expanded.len(), &|| {
        checks.set(checks.get() + 1);
        checks.get() >= 3
    });
    assert!(matches!(result, Err(PdfError::Cancelled)));
    assert!(checks.get() >= 3);
}

#[test]
fn ascii_hex_decode_enforces_limit_including_odd_nibble() {
    assert_eq!(decode_ascii_hex(b"4142>", 2).expect("exact limit"), b"AB");
    assert!(matches!(
        decode_ascii_hex(b"414243>", 2),
        Err(PdfError::StreamLimitExceeded)
    ));
    assert!(matches!(
        decode_ascii_hex(b"41424>", 2),
        Err(PdfError::StreamLimitExceeded)
    ));
}

#[test]
fn rejects_direct_object_stream_even_with_a_valid_page() {
    let bytes = pdf_with_extra_object(
        b"5 0 obj << /Type /ObjStm /N 0 /First 0 /Length 0 >>\nstream\n\nendstream\nendobj\n",
    );
    assert!(matches!(
        extract_text(&bytes, &PageSelection::All),
        Err(PdfError::UnsupportedStructure)
    ));
}

#[test]
fn rejects_direct_xref_stream_even_with_a_valid_page() {
    let bytes = pdf_with_extra_object(
        b"5 0 obj << /Type /XRef /Size 6 /W [1 1 1] /Length 0 >>\nstream\n\nendstream\nendobj\n",
    );
    assert!(matches!(
        extract_text(&bytes, &PageSelection::All),
        Err(PdfError::UnsupportedStructure)
    ));
}

#[test]
fn rejects_hybrid_xref_marker_in_trailer() {
    let bytes = b"%PDF-1.5\n1 0 obj << /Type /Catalog >> endobj\ntrailer << /Root 1 0 R /XRefStm 42 >>\n%%EOF\n";
    assert!(matches!(
        extract_text(bytes, &PageSelection::All),
        Err(PdfError::UnsupportedStructure)
    ));
}

#[test]
fn rejects_prev_marker_without_a_verifiable_xref_table() {
    let bytes = b"%PDF-1.5\n1 0 obj << /Type /Catalog >> endobj\ntrailer << /Root 1 0 R /Prev 9 >>\n%%EOF\n";
    assert!(matches!(
        extract_text(bytes, &PageSelection::All),
        Err(PdfError::UnsupportedStructure)
    ));
}

#[test]
fn rejects_startxref_pointing_to_an_indirect_object() {
    let bytes = b"%PDF-1.5\n1 0 obj << /Type /Catalog >> endobj\nstartxref\n9\n%%EOF\n";
    assert!(matches!(
        extract_text(bytes, &PageSelection::All),
        Err(PdfError::UnsupportedStructure)
    ));
}

#[test]
fn still_extracts_text_with_a_traditional_xref_table() {
    let mut bytes = pdf_with_stream(b"BT (classic) Tj ET", None, 1);
    let trailer = b"trailer << /Root 1 0 R >>\n%%EOF\n";
    bytes.truncate(bytes.len() - trailer.len());
    let xref_offset = bytes.len();
    bytes.extend_from_slice(
        format!("xref\n0 1\n0000000000 65535 f \ntrailer << /Root 1 0 R >>\nstartxref\n{xref_offset}\n%%EOF\n")
            .as_bytes(),
    );
    let result = extract_text(&bytes, &PageSelection::All).expect("extract classic PDF");
    assert_eq!(result.text, "classic");
}

#[test]
fn ignores_object_stream_markers_inside_page_text() {
    let bytes = pdf_with_stream(b"BT (5 0 obj /Type /ObjStm endobj) Tj ET", None, 1);
    let result = extract_text(&bytes, &PageSelection::All).expect("extract page text");
    assert_eq!(result.text, "5 0 obj /Type /ObjStm endobj");
}

#[test]
fn extracts_text_and_line_breaks() {
    let bytes = pdf_with_stream(
        b"BT /F1 12 Tf 72 720 Td (Hello) Tj T* (world) Tj ET",
        None,
        1,
    );
    let result = extract_text(&bytes, &PageSelection::All).expect("extract text");
    assert_eq!(result.text, "Hello\nworld");
    assert_eq!(result.page_count, 1);
    assert_eq!(result.text_object_count, 2);
}

#[test]
fn preserves_every_line_after_repeated_relative_text_moves() {
    let bytes = pdf_with_stream(
        b"BT 54 748 Td (first) Tj 0 -13 Td (second) Tj 0 -13 Td (third) Tj ET",
        None,
        1,
    );
    let result = extract_text(&bytes, &PageSelection::All).expect("extract text");
    assert_eq!(result.pages[0].text, "first\nsecond\nthird");
}

#[test]
fn separates_text_objects_on_different_baselines_but_joins_same_line_fragments() {
    let bytes = pdf_with_stream(
        b"BT 54 748 Td (first) Tj ET BT 54 735 Td (second) Tj ET BT 54 735 Td ( and) Tj ET BT 54 722 Td (third) Tj ET",
        None,
        1,
    );
    let result = extract_text(&bytes, &PageSelection::All).expect("extract text");
    assert_eq!(result.pages[0].text, "first\nsecond and\nthird");

    let bytes = pdf_with_stream(
        b"BT 1 0 0 1 54 748 Tm (first) Tj ET BT 1 0 0 1 54 735 Tm (second) Tj ET",
        None,
        1,
    );
    let result = extract_text(&bytes, &PageSelection::All).expect("extract Tm text");
    assert_eq!(result.pages[0].text, "first\nsecond");

    let bytes = pdf_with_stream(
        b"BT 1 0 0 1 54 748 Tm (first) Tj ET BT 1 0 0 1 54 735 Tm ET BT 1 0 0 1 54 748 Tm (same) Tj ET",
        None,
        1,
    );
    let result = extract_text(&bytes, &PageSelection::All).expect("ignore empty text object");
    assert_eq!(result.pages[0].text, "firstsame");
}

#[test]
fn extracts_flate_streams() {
    let mut compressed = ZlibEncoder::new(Vec::new(), Compression::default());
    compressed
        .write_all(b"BT (compressed) Tj ET")
        .expect("compress fixture");
    let compressed = compressed.finish().expect("finish fixture");
    let bytes = pdf_with_stream(&compressed, Some("FlateDecode"), 1);
    let result = extract_text(&bytes, &PageSelection::All).expect("extract text");
    assert_eq!(result.text, "compressed");
}

#[test]
fn extracts_text_arrays() {
    let bytes = pdf_with_stream(b"BT [(Hello ) 120 (world)] TJ ET", None, 1);
    let result = extract_text(&bytes, &PageSelection::All).expect("extract text");
    assert_eq!(result.text, "Hello world");
}

#[test]
fn does_not_insert_spaces_between_tj_fragments() {
    let bytes = pdf_with_stream(b"BT [(H) (e) (l) (l) (o)] TJ ET", None, 1);
    let result = extract_text(&bytes, &PageSelection::All).expect("extract text");
    assert_eq!(result.text, "Hello");
}

#[test]
fn keeps_adjacent_cjk_text_showing_operations_together() {
    let bytes = pdf_with_stream(b"BT <FEFF4F60> Tj <FEFF597D> Tj ET", None, 1);
    let result = extract_text(&bytes, &PageSelection::All).expect("extract text");
    assert_eq!(result.text, "你好");
}

#[test]
fn keeps_positioned_word_fragments_together_and_preserves_explicit_spaces() {
    let bytes = pdf_with_stream(
        b"BT 56.8 758.1 Td (Dumm) Tj 50.1 0 Td (y) Tj 9 0 Td ( ) Tj 4.4 0 Td (PDF) Tj 32.2 0 Td ( fi) Tj 14.3 0 Td (le) Tj ET",
        None,
        1,
    );
    let result = extract_text(&bytes, &PageSelection::All).expect("extract text");
    assert_eq!(result.text, "Dummy PDF file");
}

#[test]
fn rejects_unterminated_ascii_hex_streams() {
    let bytes = pdf_with_stream(b"4254202848692920546A204554", Some("ASCIIHexDecode"), 1);
    assert!(matches!(
        extract_text(&bytes, &PageSelection::All),
        Err(PdfError::CorruptedPdf)
    ));
}

#[test]
fn decodes_utf16be_strings() {
    let bytes = pdf_with_stream(b"BT <FEFF4F60597D> Tj ET", None, 1);
    let result = extract_text(&bytes, &PageSelection::All).expect("extract text");
    assert_eq!(result.text, "你好");
}

#[test]
fn rejects_invalid_page_ranges() {
    assert!(matches!(
        PageSelection::parse(Some("All")),
        Ok(PageSelection::All)
    ));
    assert!(matches!(
        PageSelection::parse(Some("all")),
        Ok(PageSelection::All)
    ));
    assert!(PageSelection::parse(Some("1-3,8")).is_ok());
    assert!(PageSelection::parse(Some("3-1")).is_err());
    assert!(PageSelection::parse(Some("0,2")).is_err());
    assert!(PageSelection::parse(Some("1-10001")).is_err());
}

#[test]
fn rejects_pages_outside_document() {
    let bytes = pdf_with_stream(b"BT (one page) Tj ET", None, 1);
    let selection = PageSelection::parse(Some("2")).expect("parse selection");
    assert!(matches!(
        extract_text(&bytes, &selection),
        Err(PdfError::InvalidPageRange)
    ));
}

#[test]
fn reports_missing_text_layer() {
    let bytes = pdf_with_stream(b"q 0 0 10 10 re f Q", None, 1);
    assert!(matches!(
        extract_text(&bytes, &PageSelection::All),
        Err(PdfError::NoTextLayer)
    ));
}

#[test]
fn inherits_page_size_from_parent_node() {
    let mut page = Table::new();
    page.insert(b"Type".to_vec(), PdfValue::Name("Page".to_owned()));
    page.insert(
        b"Parent".to_vec(),
        PdfValue::Ref(PdfRef {
            object: 2,
            generation: 0,
        }),
    );
    let mut parent = Table::new();
    parent.insert(
        b"MediaBox".to_vec(),
        PdfValue::Array(vec![
            PdfValue::Number(PdfNumber::whole(0)),
            PdfValue::Number(PdfNumber::whole(0)),
            PdfValue::Number(PdfNumber::whole(600)),
            PdfValue::Number(PdfNumber::whole(800)),
        ]),
    );
    let mut objects = Table::new();
    objects.insert(
        1,
        PdfObject {
            value: PdfValue::Dict(page),
            stream: None,
        },
    );
    objects.insert(
        2,
        PdfObject {
            value: PdfValue::Dict(parent),
            stream: None,
        },
    );
    assert_eq!(
        page_size(
            &objects,
            PdfRef {
                object: 1,
                generation: 0
            }
        ),
        (600, 800)
    );
}

#[test]
fn decodes_to_unicode_cmap_for_custom_font_codes() {
    let cmap = br#"
        1 begincodespacerange <00> <FF> endcodespacerange
        2 beginbfchar
        <01> <4F60>
        <02> <597D>
        endbfchar
    "#;
    let map = parse_to_unicode_cmap(cmap, &|| false)
        .expect("parse CMap")
        .expect("non-empty CMap");
    assert_eq!(decode_font_text(&[1, 2], &map), "你好");
}

#[test]
fn cmap_rejects_huge_bfrange_before_expansion() {
    let cmap = b"1 beginbfrange <00000000> <FFFFFFFF> <0041> endbfrange";
    assert!(matches!(
        parse_to_unicode_cmap(cmap, &|| false),
        Err(PdfError::CMapLimitExceeded)
    ));
}

#[test]
fn cmap_accepts_exact_range_limit_and_rejects_one_more() {
    let last_allowed = MAX_CMAP_RANGE_ENTRIES - 1;
    let allowed = format!("1 beginbfrange <0000> <{last_allowed:04X}> <0041> endbfrange");
    let map = parse_to_unicode_cmap(allowed.as_bytes(), &|| false)
        .expect("range at limit")
        .expect("non-empty range");
    assert_eq!(map.values.len(), MAX_CMAP_RANGE_ENTRIES);

    let first_rejected = MAX_CMAP_RANGE_ENTRIES;
    let rejected = format!("1 beginbfrange <0000> <{first_rejected:04X}> <0041> endbfrange");
    assert!(matches!(
        parse_to_unicode_cmap(rejected.as_bytes(), &|| false),
        Err(PdfError::CMapLimitExceeded)
    ));
}

#[test]
fn cmap_rejects_total_entries_across_individually_allowed_ranges() {
    let mut cmap = String::from("beginbfrange\n");
    let range_count = MAX_CMAP_ENTRIES / MAX_CMAP_RANGE_ENTRIES;
    for range in 0..range_count {
        let start = range * MAX_CMAP_RANGE_ENTRIES;
        let end = start + MAX_CMAP_RANGE_ENTRIES - 1;
        cmap.push_str(&format!("<{start:08X}> <{end:08X}> <0041>\n"));
    }
    cmap.push_str("<00010000> <00010000> <0041>\nendbfrange");
    assert!(matches!(
        parse_to_unicode_cmap(cmap.as_bytes(), &|| false),
        Err(PdfError::CMapLimitExceeded)
    ));
}

#[test]
fn cmap_mapping_byte_budget_accepts_exact_limit_and_rejects_overflow() {
    let mut map = FontMap::default();
    let mut budget = CmapBudget {
        mapping_bytes: MAX_CMAP_MAPPING_BYTES - 2,
        ..CmapBudget::default()
    };
    budget
        .insert(&mut map, vec![1], "A".to_owned())
        .expect("exact mapping byte limit");
    assert!(matches!(
        budget.insert(&mut map, vec![2], "B".to_owned()),
        Err(PdfError::CMapLimitExceeded)
    ));
}

#[test]
fn cmap_parser_propagates_cancellation_during_range_expansion() {
    let last_allowed = MAX_CMAP_RANGE_ENTRIES - 1;
    let cmap = format!("1 beginbfrange <0000> <{last_allowed:04X}> <0041> endbfrange");
    let checks = Cell::new(0_usize);
    let result = parse_to_unicode_cmap(cmap.as_bytes(), &|| {
        checks.set(checks.get() + 1);
        checks.get() >= 8
    });
    assert!(matches!(result, Err(PdfError::Cancelled)));
    assert!(checks.get() >= 8);
}

#[test]
fn a_mapping_over_the_budget_changes_nothing() {
    let mut map = FontMap::default();
    let mut budget = CmapBudget {
        mapping_bytes: MAX_CMAP_MAPPING_BYTES - 2,
        ..CmapBudget::default()
    };
    budget
        .insert(&mut map, vec![1], "A".to_owned())
        .expect("exact mapping byte limit");
    let before = budget;
    assert!(budget.insert(&mut map, vec![2], "B".to_owned()).is_err());
    assert_eq!(budget, before);
    assert_eq!(map.values.len(), 1);
    assert_eq!(map.values.get(&vec![1]).map(String::as_str), Some("A"));
    assert!(map.values.get(&vec![2]).is_none());
}

#[test]
fn heights_are_compared_as_binary_numbers() {
    let bytes = pdf_with_stream(
        b"BT 1 0 0 1 54 3.9 Tm (a) Tj 1 0 0 1 54 4.4 Tm (b) Tj ET",
        None,
        1,
    );
    let result = extract_text(&bytes, &PageSelection::All).expect("extract text");
    assert_eq!(result.pages[0].text, "a\nb");
    let bytes = pdf_with_stream(
        b"BT 1 0 0 1 54 3.5 Tm (a) Tj 1 0 0 1 54 4 Tm (b) Tj ET",
        None,
        1,
    );
    let result = extract_text(&bytes, &PageSelection::All).expect("extract text");
    assert_eq!(result.pages[0].text, "ab");
}

#[test]
fn a_reading_that_is_always_stopped_is_cancelled() {
    let bytes = pdf_with_stream(b"BT (text) Tj ET", None, 1);
    for input in [&b""[..], &bytes] {
        assert!(matches!(
            extract_text_with_control(input, &PageSelection::All, || true),
            Err(PdfError::Cancelled)
        ));
        assert!(matches!(
            parse_document(input, &|| true),
            Err(PdfError::Cancelled)
        ));
    }
    assert!(matches!(
        extract_pages_from_path_bounded_with_control(
            Ok(bytes),
            &PageSelection::All,
            100,
            || true
        ),
        Err(BoundedPageExtractionError::Pdf(PdfError::Cancelled))
    ));
    assert!(matches!(
        parse_to_unicode_cmap(b"", &|| true),
        Err(PdfError::Cancelled)
    ));
}

#[test]
fn the_order_of_page_parts_does_not_matter() {
    let pages = |text: &str| PageSelection::parse(Some(text)).expect("pages");
    let expected = pages("1-3,8");
    for text in ["8,1-3", "3,2,1,8", "1-2,2-3,8,8", "1-3,1-3,8"] {
        assert_eq!(pages(text), expected);
    }
    assert_ne!(pages("1-3"), expected);
}
