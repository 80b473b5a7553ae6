use std::io::{Cursor, Write};

use minimal_pdf_converter::docx_layout::{inspect_docx, inspect_part, inspect_xml, ProbeError};
use minimal_pdf_converter::self_check::{
    build_self_check, diagnostic_component, engine_probe_components, probe_document, probe_image,
    probe_text, sha256_hex, to_hexadecimal, Findings,
};
use minimal_pdf_converter::utf8_check::Utf8Check;

const DOCUMENT: &str = "<w:document xmlns:w=\"http://schemas.openxmlformats.org/wordprocessingml/2006/main\"><w:body><w:p><w:r><w:t>One</w:t><w:br w:type=\"page\"/></w:r></w:p><w:p><w:pPr><w:numPr/></w:pPr><w:r><w:t>Two</w:t></w:r></w:p><w:sectPr/></w:body></w:document>";

fn package(name: &str, content: &[u8]) -> Vec<u8> {
    let mut writer = zip::ZipWriter::new(Cursor::new(Vec::new()));
    writer
        .start_file(name, zip::write::SimpleFileOptions::default())
        .expect("start");
    writer.write_all(content).expect("write");
    writer.finish().expect("finish").into_inner()
}

#[test]
fn embedded_engine_self_check_is_healthy() {
    assert_eq!(engine_probe_components(), (true, true, true));
}

#[test]
fn probes_tell_broken_files() {
    assert!(!probe_text(b"%PDF-1.7\nbroken"));
    assert!(!probe_document(b"PK".to_vec()));
    assert!(!probe_image(b"%PDF-1.7\nbroken".to_vec()));
}

#[test]
fn one_failed_check_makes_the_program_repairable() {
    let good = Findings {
        manifest: true,
        filesystem: true,
        engine: true,
        office: true,
    };
    let check = build_self_check(good);
    assert_eq!(check.status, "ready");
    assert!(check.checks.iter().all(|item| item.status == "passed"));
    let check = build_self_check(Findings {
        office: false,
        ..good
    });
    assert_eq!(check.status, "repairable");
    let failed: Vec<&str> = check
        .checks
        .iter()
        .filter(|item| item.status == "failed")
        .map(|item| item.id)
        .collect();
    assert_eq!(failed, ["office_runtime"]);
}

#[test]
fn digests_are_those_of_sha256() {
    assert_eq!(
        sha256_hex(b"abc"),
        "ba7816bf8f01cfea414140de5dae2223b00361a396177a9cb410ff61f20015ad"
    );
    assert_eq!(to_hexadecimal(&[0, 15, 255]), "000fff");
    let component = diagnostic_component("app", Some(b"abc".to_vec()));
    assert_eq!(component.status, "passed");
    assert!(component.sha256.is_some());
    assert_eq!(diagnostic_component("app", None).status, "unavailable");
}

#[test]
fn layout_of_a_document_is_counted() {
    let probe = inspect_docx(&package("word/document.xml", DOCUMENT.as_bytes())).expect("layout");
    assert_eq!(probe.tally.paragraphs, 2);
    assert_eq!(probe.tally.explicit_page_breaks, 1);
    assert_eq!(probe.tally.section_properties, 1);
    assert_eq!(probe.tally.numbered_paragraphs, 1);
    assert_eq!(probe.tally.text_boxes, 0);
    assert!(probe.visible_text_in_xml_order.contains("One"));
    assert!(probe.visible_text_in_xml_order.contains("Two"));
}

#[test]
fn layouts_that_cannot_be_read_are_reported() {
    assert!(matches!(inspect_docx(b"nothing"), Err(ProbeError::Zip(_))));
    assert!(matches!(
        inspect_docx(&package("other.xml", b"<a/>")),
        Err(ProbeError::Zip(_))
    ));
    assert!(matches!(
        inspect_xml(b"<w:document>"),
        Err(ProbeError::InvalidDocument)
    ));
    assert!(matches!(
        inspect_part(Ok((u64::MAX, Vec::new()))),
        Err(ProbeError::TooLarge)
    ));
}

#[test]
fn utf8_is_checked_across_chunks() {
    let bytes = "a你好😀".as_bytes();
    for chunk in 1..=bytes.len() {
        let mut check = Utf8Check::new();
        assert!(bytes.chunks(chunk).all(|piece| check.accept(piece)));
        assert!(check.finish());
    }
    let mut check = Utf8Check::new();
    assert!(check.accept(&bytes[..2]));
    assert!(!check.finish());
    let mut check = Utf8Check::new();
    assert!(!check.accept(&[0xff]));
}
