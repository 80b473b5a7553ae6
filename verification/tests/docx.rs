use minimal_pdf_converter::docx::{
    document_xml, escape_xml, extract_pages_from_path, extract_text_from_path,
    parse_document_pages, parse_document_text, write_text_docx, DocxError,
};
use minimal_pdf_converter::pdf::extract::extract_text;
use minimal_pdf_converter::pdf::selection::PageSelection;
use minimal_pdf_converter::pdf_writer::{write_pages_pdf, write_text_pages_pdf};
use minimal_pdf_converter::zip_store::{crc32, read_zip_entry, ZipError, ZipPackage};

const WORD: &str = "http://schemas.openxmlformats.org/wordprocessingml/2006/main";

fn document(body: &str) -> Vec<u8> {
    format!("<w:document xmlns:w=\"{WORD}\"><w:body>{body}</w:body></w:document>").into_bytes()
}

#[test]
fn writes_and_reads_a_minimal_docx() {
    let file =
        write_text_docx(&vec!["Hello\nworld".to_owned(), "第二页".to_owned()]).expect("write");
    let text = extract_text_from_path(Ok(file)).expect("read");
    assert!(text.contains("Hello"));
    assert!(text.contains("world"));
    assert!(text.contains("第二页"));
}

#[test]
fn pdf_to_docx_keeps_every_line_and_source_page_boundary() {
    let source_pages = ["first\nsecond\nthird".to_owned(), "next\nlast".to_owned()];
    let pdf = write_pages_pdf(&source_pages).expect("create two-page PDF");
    let extracted = extract_text(&pdf, &PageSelection::All).expect("extract source PDF text");
    assert_eq!(extracted.page_count, 2);
    let pages = extracted
        .pages
        .into_iter()
        .map(|page| page.text)
        .collect::<Vec<_>>();
    assert_eq!(pages, source_pages);
    let docx = write_text_docx(&pages).expect("write DOCX");
    assert_eq!(
        extract_pages_from_path(Ok(docx)).expect("read DOCX"),
        source_pages
    );
}

#[test]
fn rejects_legacy_doc_bytes() {
    assert!(matches!(
        extract_text_from_path(Ok(b"\xd0\xcf\x11\xe0".to_vec())),
        Err(DocxError::LegacyDocUnsupported)
    ));
}

#[test]
fn parses_text_without_treating_table_tags_as_text() {
    let xml = br#"<w:document xmlns:w="http://schemas.openxmlformats.org/wordprocessingml/2006/main"><w:body><w:tbl><w:tr><w:tc><w:p><w:r><w:t>Cell</w:t></w:r></w:p></w:tc></w:tr></w:tbl></w:body></w:document>"#;
    assert_eq!(parse_document_text(xml).expect("parse XML"), "Cell");
}

#[test]
fn decodes_numeric_xml_entities() {
    let xml = br#"<w:document xmlns:w="http://schemas.openxmlformats.org/wordprocessingml/2006/main"><w:body><w:p><w:r><w:t>A&#x4F60;&#22909;</w:t></w:r></w:p></w:body></w:document>"#;
    assert_eq!(parse_document_text(xml).expect("parse XML"), "A你好");
}

#[test]
fn preserves_tab_and_carriage_return_runs() {
    let xml = br#"<w:document xmlns:w="http://schemas.openxmlformats.org/wordprocessingml/2006/main"><w:body><w:p><w:r><w:t>A</w:t><w:tab/><w:t>B</w:t><w:cr/><w:t>C</w:t></w:r></w:p></w:body></w:document>"#;
    assert_eq!(parse_document_text(xml).expect("parse XML"), "A\tB\nC");
}

#[test]
fn preserves_explicit_page_breaks_and_table_cell_order() {
    let xml = br#"<d:document xmlns:d="http://schemas.openxmlformats.org/wordprocessingml/2006/main"><d:body><d:p><d:r><d:t>First</d:t><d:br d:type='page'/><d:t>Second</d:t></d:r></d:p><d:p><d:pPr><d:pageBreakBefore d:val='1'/></d:pPr><d:r><d:t>Third</d:t></d:r></d:p><d:tbl><d:tr><d:tc><d:p><d:r><d:t>A</d:t></d:r></d:p></d:tc><d:tc><d:p><d:r><d:t>B</d:t></d:r></d:p></d:tc></d:tr></d:tbl></d:body></d:document>"#;
    assert_eq!(
        parse_document_pages(xml).expect("document pages"),
        ["First", "Second", "Third\nA\tB"]
    );
}

#[test]
fn rejects_visual_content_instead_of_silently_dropping_it() {
    let xml = br#"<w:document xmlns:w="http://schemas.openxmlformats.org/wordprocessingml/2006/main"><w:body><w:p><w:r><w:t>Caption</w:t><w:drawing/></w:r></w:p></w:body></w:document>"#;
    assert!(matches!(
        parse_document_pages(xml),
        Err(DocxError::UnsupportedVisualContent)
    ));
}

#[test]
fn rejects_referenced_header_instead_of_silently_dropping_its_text() {
    let xml = br#"<w:document xmlns:w="http://schemas.openxmlformats.org/wordprocessingml/2006/main"><w:body><w:p><w:r><w:t>Body</w:t></w:r></w:p><w:sectPr><w:headerReference w:type="default" r:id="rId5" xmlns:r="http://schemas.openxmlformats.org/officeDocument/2006/relationships"/></w:sectPr></w:body></w:document>"#;
    assert!(matches!(
        parse_document_pages(xml),
        Err(DocxError::UnsupportedVisualContent)
    ));
}

#[test]
fn rejects_doctype_and_malformed_xml() {
    let prefix = b"<!DOCTYPE document [<!ENTITY ext SYSTEM 'file:///private/text'>]>";
    let mut xml = prefix.to_vec();
    xml.extend_from_slice(br#"<w:document xmlns:w="http://schemas.openxmlformats.org/wordprocessingml/2006/main"><w:body><w:p><w:t>&ext;</w:t></w:p></w:body></w:document>"#);
    assert!(matches!(
        parse_document_pages(&xml),
        Err(DocxError::InvalidDocument)
    ));
    assert!(matches!(
        parse_document_pages(br#"<w:document xmlns:w="http://schemas.openxmlformats.org/wordprocessingml/2006/main"><w:body><w:t>missing close"#),
        Err(DocxError::InvalidDocument)
    ));
}

#[test]
fn rejects_zip_entries_with_a_mismatched_crc() {
    let mut package = ZipPackage::new();
    package
        .add_stored("word/document.xml", b"<w:document/>")
        .expect("fixture entry");
    let mut bytes = package.finish();
    let marker = b"<w:document/>";
    let position = bytes
        .windows(marker.len())
        .position(|window| window == marker)
        .expect("stored document payload");
    bytes[position + 3] ^= 1;
    assert!(matches!(
        read_zip_entry(&bytes, "word/document.xml"),
        Err(ZipError::Invalid)
    ));
    assert!(matches!(
        extract_text_from_path(Ok(bytes)),
        Err(DocxError::InvalidPackage)
    ));
}

#[test]
fn keeps_docx_page_breaks_in_generated_pdf() {
    let document = br#"<w:document xmlns:w="http://schemas.openxmlformats.org/wordprocessingml/2006/main"><w:body><w:p><w:r><w:t>First</w:t><w:br w:type="page"/><w:t>Second</w:t></w:r></w:p></w:body></w:document>"#;
    let mut package = ZipPackage::new();
    package
        .add_stored("word/document.xml", document)
        .expect("fixture entry");
    let pages = extract_pages_from_path(Ok(package.finish())).expect("read pages");
    let pdf = write_text_pages_pdf(&pages).expect("write PDF");
    let result = extract_text(&pdf, &PageSelection::All).expect("read generated PDF");
    assert_eq!(result.page_count, 2);
    assert_eq!(result.pages[0].text, "First");
    assert_eq!(result.pages[1].text, "Second");
}

#[test]
fn crc_matches_the_published_value() {
    assert_eq!(crc32(b"123456789"), 0xcbf4_3926);
    assert_eq!(crc32(b""), 0);
}

#[test]
fn escapes_the_five_reserved_characters() {
    assert_eq!(
        escape_xml("<a href=\"x\">'&'</a>"),
        "&lt;a href=&quot;x&quot;&gt;&apos;&amp;&apos;&lt;/a&gt;"
    );
}

#[test]
fn document_part_has_a_paragraph_per_line_and_breaks_between_pages() {
    let xml = document_xml(&vec!["a\nb".to_owned(), String::new()]);
    assert_eq!(
        xml,
        "<?xml version=\"1.0\" encoding=\"UTF-8\" standalone=\"yes\"?>\n\
         <w:document xmlns:w=\"http://schemas.openxmlformats.org/wordprocessingml/2006/main\">\n\
         <w:body><w:p><w:r><w:t xml:space=\"preserve\">a</w:t></w:r></w:p>\
         <w:p><w:r><w:t xml:space=\"preserve\">b</w:t></w:r></w:p>\
         <w:p><w:r><w:br w:type=\"page\"/></w:r></w:p><w:p/></w:body></w:document>"
    );
}

#[test]
fn stored_entries_are_read_back_by_name() {
    let mut package = ZipPackage::new();
    package.add_stored("one", b"first").expect("one");
    package.add_stored("two", b"second").expect("two");
    let bytes = package.finish();
    assert_eq!(read_zip_entry(&bytes, "one").expect("one"), b"first");
    assert_eq!(read_zip_entry(&bytes, "two").expect("two"), b"second");
    assert!(matches!(
        read_zip_entry(&bytes, "three"),
        Err(ZipError::Missing)
    ));
    assert!(matches!(
        read_zip_entry(b"PK", "one"),
        Err(ZipError::Invalid)
    ));
}

#[test]
fn packages_without_a_main_part_are_invalid_documents() {
    let mut package = ZipPackage::new();
    package.add_stored("other.xml", b"<a/>").expect("entry");
    assert!(matches!(
        extract_pages_from_path(Ok(package.finish())),
        Err(DocxError::InvalidDocument)
    ));
    assert!(matches!(
        extract_pages_from_path(Err("no such file".to_owned())),
        Err(DocxError::Io(message)) if message == "no such file"
    ));
}

#[test]
fn damaged_compressed_entries_are_reported() {
    let mut package = ZipPackage::new();
    package
        .add_stored("word/document.xml", &[0xff; 12])
        .expect("entry");
    let mut bytes = package.finish();
    let directory = bytes
        .windows(4)
        .position(|window| window == b"PK\x01\x02")
        .expect("directory");
    bytes[directory + 10] = 8;
    assert!(matches!(
        extract_pages_from_path(Ok(bytes)),
        Err(DocxError::Decompression)
    ));
}

#[test]
fn ordinary_archives_are_read_through_their_directory() {
    let mut writer = zip::ZipWriter::new(std::io::Cursor::new(Vec::new()));
    writer
        .start_file(
            "word/document.xml",
            zip::write::SimpleFileOptions::default()
                .compression_method(zip::CompressionMethod::Deflated),
        )
        .expect("start");
    std::io::Write::write_all(
        &mut writer,
        &document("<w:p><w:r><w:t>packed</w:t></w:r></w:p>"),
    )
    .expect("write");
    let bytes = writer.finish().expect("finish").into_inner();
    assert_eq!(
        extract_pages_from_path(Ok(bytes)).expect("pages"),
        ["packed"]
    );
}

#[test]
fn written_text_with_markup_characters_is_read_back() {
    let pages = vec!["a < b && c > \"d\" 'e'".to_owned(), "x\ty".to_owned()];
    let file = write_text_docx(&pages).expect("write");
    assert_eq!(extract_pages_from_path(Ok(file)).expect("read"), pages);
}

#[test]
fn documents_without_text_or_a_body_are_invalid() {
    assert!(matches!(
        parse_document_pages(&document("<w:p/>")),
        Err(DocxError::InvalidDocument)
    ));
    assert!(matches!(
        parse_document_pages(b"<a>text</a>"),
        Err(DocxError::InvalidDocument)
    ));
    assert!(matches!(
        parse_document_pages(&[0xff, 0xfe]),
        Err(DocxError::InvalidDocument)
    ));
}

#[test]
fn docx_errors_have_messages() {
    assert_eq!(
        DocxError::LegacyDocUnsupported.message(),
        "Legacy binary DOC files are not supported"
    );
    assert_eq!(
        DocxError::Io("gone".to_owned()).message(),
        "DOCX read/write failed: gone"
    );
}

#[test]
fn packages_of_many_entries_are_read_back() {
    let mut package = ZipPackage::new();
    for index in 0..100u32 {
        package
            .add_stored(&format!("part{index}"), &index.to_le_bytes().repeat(80))
            .expect("entry");
    }
    let bytes = package.finish();
    for index in 0..100u32 {
        assert_eq!(
            read_zip_entry(&bytes, &format!("part{index}")).expect("entry"),
            index.to_le_bytes().repeat(80)
        );
    }
    assert!(matches!(
        read_zip_entry(&bytes, "part100"),
        Err(ZipError::Missing)
    ));
    assert!(matches!(
        extract_pages_from_path(Ok(bytes)),
        Err(DocxError::InvalidDocument)
    ));
}
