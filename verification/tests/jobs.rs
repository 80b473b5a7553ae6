use std::cell::RefCell;
use std::collections::BTreeMap;

use minimal_pdf_converter::docx::{extract_pages_from_path, write_text_docx};
use minimal_pdf_converter::image::document::ImageBook;
use minimal_pdf_converter::image::picture::{image_kind, read_image};
use minimal_pdf_converter::jobs::event::{
    queued_event, stop_reason, StopReason, WorkerEvent, WorkerState, JOB_TIMEOUT_SECONDS,
};
use minimal_pdf_converter::jobs::finalize::{FinalInput, FinalStage, Finalizer};
use minimal_pdf_converter::jobs::kind::{
    output_extension, supports_extension, ConversionKind, JobLane, JobLaneCounts, Platform,
};
use minimal_pdf_converter::jobs::plan::{
    conversion_message, image_pdf_failure, is_merged, merged_message, output_stem, pdf_failure,
    plan_conversion, render_failure, render_settings, rendering_message, Counts, Engine,
};
use minimal_pdf_converter::jobs::request::{
    input_limit, inspect_input_file, is_all_pages, is_forbidden_output_dir, open_path,
    valid_pages, validate_output_dir, validate_request, AppError, ChosenFile, ConversionOptions,
    EngineLimits, InputFile, OpenTarget, OutputDir, MAX_INPUT_BYTES,
};
use minimal_pdf_converter::jobs::run::{FinalizationFailure, JobInput, JobRun, Stage};
use minimal_pdf_converter::jobs::staged::{
    admit_staged, header_length, judge_bytes, judge_office, Scrutiny, StagedBytes, StagedMetadata,
    TextOutputCheck,
};
use minimal_pdf_converter::pdf::extract::extract_text;
use minimal_pdf_converter::pdf::selection::PageSelection;
use minimal_pdf_converter::pdf::PdfError;
use minimal_pdf_converter::pdf_writer::{write_text_pages_pdf, write_text_pdf};
use minimal_pdf_converter::render::encode::write_image;
use minimal_pdf_converter::render::{ImageFormat, RenderError};

const LIMITS: EngineLimits = EngineLimits {
    html: 10_000_000,
    markdown: 10_000_000,
};

fn no_options() -> ConversionOptions {
    ConversionOptions {
        image_format: None,
        dpi: None,
        pages: None,
        jpg_quality: None,
        merge_images: false,
    }
}

fn output_dir(canonical: &str) -> OutputDir {
    OutputDir {
        named: true,
        absolute: true,
        directory: true,
        canonical: Some(canonical.to_owned()),
    }
}

fn input_file(extension: &str, size: u64) -> InputFile {
    InputFile {
        absolute: true,
        regular: true,
        size,
        extension: extension.to_owned(),
        output: output_dir("/tmp/out"),
    }
}

fn extension_of(path: &str) -> &str {
    path.rsplit_once('.').map_or("", |(_, extension)| extension)
}

/// Files that are kept in memory: outputs, and staged files that move there.
struct Disk {
    outputs: RefCell<BTreeMap<String, Vec<u8>>>,
    staged: RefCell<Vec<Option<Vec<u8>>>>,
}

impl Disk {
    fn new(staged: &[&[u8]]) -> Self {
        Self {
            outputs: RefCell::new(BTreeMap::new()),
            staged: RefCell::new(staged.iter().map(|bytes| Some(bytes.to_vec())).collect()),
        }
    }

    fn output(&self, name: &str) -> Option<Vec<u8>> {
        self.outputs.borrow().get(name).cloned()
    }

    fn is_staged(&self, index: usize) -> bool {
        self.staged.borrow()[index].is_some()
    }
}

fn piece(bytes: &[u8], from: usize, length: usize) -> Result<Vec<u8>, String> {
    bytes
        .get(from..from + length)
        .map(<[u8]>::to_vec)
        .ok_or_else(|| "failed to fill whole buffer".to_owned())
}

fn validate_staged(
    bytes: &[u8],
    extension: &str,
    office: Result<(), String>,
    mut stop: impl FnMut() -> Option<StopReason>,
) -> Result<(), FinalizationFailure> {
    let metadata = StagedMetadata {
        regular: true,
        length: bytes.len() as u64,
    };
    match admit_staged(extension, Ok(metadata), Ok(()))? {
        Scrutiny::Text => {
            let mut check = TextOutputCheck::new();
            let mut at = 0;
            loop {
                let end = (at + 8192).min(bytes.len());
                if let Some(outcome) = check.accept(stop(), Ok(&bytes[at..end])) {
                    return outcome;
                }
                at = end;
            }
        }
        Scrutiny::Bytes => {
            let length = header_length(extension).unwrap_or(0);
            let file = StagedBytes {
                header: piece(bytes, 0, length),
                gif_header: piece(bytes, 0, 6),
                trailer: piece(bytes, bytes.len().saturating_sub(2), 2),
            };
            judge_bytes(extension, &file, stop())
        }
        scrutiny => judge_office(scrutiny, office, stop()),
    }
}

/// Puts the staged files of a disk in place.
fn finalize_outputs(
    disk: &Disk,
    stem: &str,
    extension: &str,
    mut stop: impl FnMut() -> Option<StopReason>,
) -> Result<Vec<String>, FinalizationFailure> {
    let count = disk.staged.borrow().len();
    let mut finalizer = Finalizer::new(stem.to_owned(), extension.to_owned(), count);
    loop {
        let input = match finalizer.stage() {
            FinalStage::PollingFirst
            | FinalStage::PollingAgain
            | FinalStage::PollingBefore(..)
            | FinalStage::PollingAfter(..) => FinalInput::Stop(stop()),
            FinalStage::Checking(page) => {
                let bytes = disk.staged.borrow()[*page].clone();
                FinalInput::Checked(match bytes {
                    Some(bytes) => validate_staged(&bytes, extension, Ok(()), &mut stop),
                    None => Err(FinalizationFailure::Write("missing".to_owned())),
                })
            }
            FinalStage::Reserving(attempt, page) => {
                let name = finalizer.name(*attempt, *page);
                let mut outputs = disk.outputs.borrow_mut();
                if outputs.contains_key(&name) {
                    FinalInput::Exists
                } else {
                    outputs.insert(name, Vec::new());
                    FinalInput::Created
                }
            }
            FinalStage::Installing(attempt, page) => {
                let name = finalizer.name(*attempt, *page);
                FinalInput::Installed(match disk.staged.borrow_mut()[*page].take() {
                    Some(bytes) => {
                        disk.outputs.borrow_mut().insert(name, bytes);
                        Ok(())
                    }
                    None => Err("not found".to_owned()),
                })
            }
            FinalStage::Finished(attempt) => return Ok(finalizer.names(*attempt, count)),
            FinalStage::Failed(FinalizationFailure::Stopped(reason)) => {
                return Err(FinalizationFailure::Stopped(*reason))
            }
            FinalStage::Failed(FinalizationFailure::Write(message)) => {
                return Err(FinalizationFailure::Write(message.clone()))
            }
        };
        for name in finalizer.advance(input) {
            disk.outputs.borrow_mut().remove(&name);
        }
    }
}

#[test]
fn windows_pdf_image_jobs_use_a_single_native_render_lane() {
    assert!(matches!(
        JobLane::for_kind(ConversionKind::PdfToImage, Platform::Windows),
        JobLane::NativeRender
    ));
    assert!(matches!(
        JobLane::for_kind(ConversionKind::PdfToPptx, Platform::Windows),
        JobLane::Document
    ));
    assert_eq!(JobLane::NativeRender.limit(), 1);
    assert_eq!(
        JobLane::for_kind(ConversionKind::PdfToTxt, Platform::Windows).limit(),
        2
    );
}

#[test]
fn maps_unsupported_pdf_structure_to_stable_engine_code() {
    assert_eq!(
        pdf_failure(PdfError::UnsupportedStructure).code,
        "UNSUPPORTED_PDF_STRUCTURE"
    );
    assert_eq!(
        pdf_failure(PdfError::UnsupportedStreamLength).code,
        "UNSUPPORTED_PDF_STRUCTURE"
    );
    assert_eq!(
        pdf_failure(PdfError::StreamLimitExceeded).code,
        "PDF_STREAM_TOO_LARGE"
    );
    assert_eq!(
        pdf_failure(PdfError::CMapLimitExceeded).code,
        "PDF_STREAM_TOO_LARGE"
    );
}

#[test]
fn accepts_only_supported_extensions() {
    for (kind, path, expected) in [
        (ConversionKind::PdfToTxt, "/tmp/file.PDF", true),
        (ConversionKind::PdfToTxt, "/tmp/file.docx", false),
        (ConversionKind::DocxToPdf, "/tmp/file.DOCX", true),
        (ConversionKind::PdfToPptx, "/tmp/slides.PDF", true),
        (ConversionKind::PdfToPptx, "/tmp/slides.pptx", false),
        (ConversionKind::PptxToPdf, "/tmp/slides.PPTX", true),
        (ConversionKind::PptxToPdf, "/tmp/slides.ppt", false),
        (ConversionKind::ImageToPdf, "/tmp/photo.JPEG", true),
        (ConversionKind::ImageToPdf, "/tmp/photo.png", true),
        (ConversionKind::ImageToPdf, "/tmp/photo.GIF", true),
        (ConversionKind::ImageToPdf, "/tmp/photo.webp", true),
        (ConversionKind::ImageToPdf, "/tmp/photo.BMP", true),
        (ConversionKind::ImageToPdf, "/tmp/scan.TIF", true),
        (ConversionKind::ImageToPdf, "/tmp/scan.tiff", true),
        (ConversionKind::ImageToPdf, "/tmp/photo.pdf", false),
    ] {
        assert_eq!(
            supports_extension(kind, extension_of(path)),
            expected,
            "{path}"
        );
    }
    for (kind, accepted, rejected) in [
        (ConversionKind::PdfToOdt, "file.PDF", "file.odt"),
        (ConversionKind::PdfToOdp, "file.PDF", "file.odp"),
        (ConversionKind::PdfToRtf, "file.PDF", "file.rtf"),
        (ConversionKind::PdfToFlatOdtXml, "file.PDF", "file.xml"),
        (ConversionKind::PdfToDoc, "file.PDF", "file.doc"),
        (ConversionKind::PdfToPpt, "file.PDF", "file.ppt"),
        (ConversionKind::PdfToMarkdown, "file.PDF", "file.md"),
        (
            ConversionKind::MarkdownToPdf,
            "file.MARKDOWN",
            "file.md.exe",
        ),
        (ConversionKind::DocToPdf, "file.DOC", "file.docx"),
        (ConversionKind::PptToPdf, "file.PPT", "file.pptx"),
        (ConversionKind::TxtToPdf, "file.TXT", "file.rtf"),
        (ConversionKind::RtfToPdf, "file.RTF", "file.txt"),
        (ConversionKind::SvgToPdf, "file.SVG", "file.svg.exe"),
        (ConversionKind::OdtToPdf, "file.ODT", "file.doc"),
        (ConversionKind::OdpToPdf, "file.ODP", "file.ppt"),
        (ConversionKind::XlsxToPdf, "file.XLSX", "file.xls"),
        (ConversionKind::OdsToPdf, "file.ODS", "file.xlsx"),
    ] {
        assert!(supports_extension(kind, extension_of(accepted)), "{accepted}");
        assert!(
            !supports_extension(kind, extension_of(rejected)),
            "{rejected}"
        );
    }
}

#[test]
fn new_formats_match_frontend_ipc_and_output_extensions() {
    for (kind, extension) in [
        (ConversionKind::PdfToOdt, "odt"),
        (ConversionKind::PdfToOdp, "odp"),
        (ConversionKind::PdfToRtf, "rtf"),
        (ConversionKind::PdfToFlatOdtXml, "xml"),
        (ConversionKind::PdfToDoc, "doc"),
        (ConversionKind::PdfToPpt, "ppt"),
        (ConversionKind::DocToPdf, "pdf"),
        (ConversionKind::PptToPdf, "pdf"),
        (ConversionKind::PdfToMarkdown, "md"),
        (ConversionKind::TxtToPdf, "pdf"),
        (ConversionKind::RtfToPdf, "pdf"),
        (ConversionKind::OdtToPdf, "pdf"),
        (ConversionKind::OdpToPdf, "pdf"),
        (ConversionKind::XlsxToPdf, "pdf"),
        (ConversionKind::OdsToPdf, "pdf"),
    ] {
        assert_eq!(output_extension(kind, None), extension);
    }
    for (kind, limit) in [
        (ConversionKind::OdsToPdf, 1),
        (ConversionKind::PdfToPptx, 1),
        (ConversionKind::PdfToMarkdown, 2),
        (ConversionKind::ImageToPdf, 2),
        (ConversionKind::PptxToPdf, 1),
    ] {
        assert_eq!(JobLane::for_kind(kind, Platform::Other).limit(), limit);
    }
    for format in [
        ImageFormat::Png,
        ImageFormat::Jpg,
        ImageFormat::Bmp,
        ImageFormat::Gif,
        ImageFormat::Webp,
        ImageFormat::Tiff,
    ] {
        assert_eq!(
            output_extension(ConversionKind::PdfToImage, Some(format)),
            format!("{format:?}").to_ascii_lowercase()
        );
    }
}

#[test]
fn markdown_rejects_partial_page_requests_instead_of_ignoring_them() {
    let options = ConversionOptions {
        pages: Some("1".to_owned()),
        ..no_options()
    };
    let error = plan_conversion(ConversionKind::PdfToMarkdown, &options, "source")
        .expect_err("partial Markdown selection must fail explicitly");
    assert_eq!(error.code, "UNSUPPORTED_FORMAT");
}

#[test]
fn editable_pptx_rejects_partial_page_requests_without_starting_office() {
    let options = ConversionOptions {
        pages: Some("1".to_owned()),
        ..no_options()
    };
    let error = plan_conversion(ConversionKind::PdfToPptx, &options, "source")
        .expect_err("partial PDF-to-PPTX selection must fail explicitly");
    assert_eq!(error.code, "UNSUPPORTED_FORMAT");
}

#[test]
fn image_to_pdf_request_enforces_engine_input_limit() {
    let limit = minimal_pdf_converter::image::picture::MAX_INPUT_BYTES;
    assert!(matches!(
        validate_request(
            ConversionKind::ImageToPdf,
            &no_options(),
            &vec![input_file("jpg", limit + 1)],
            LIMITS,
            Platform::Other
        ),
        Err(AppError::InputTooLarge)
    ));
}

#[test]
fn image_merge_option_is_typed_and_bounded_at_ipc_boundary() {
    let options = ConversionOptions {
        merge_images: true,
        ..no_options()
    };
    let check = |kind: ConversionKind, count: usize| {
        let inputs = (0..count).map(|_| input_file("png", 33)).collect();
        validate_request(kind, &options, &inputs, LIMITS, Platform::Other)
    };
    assert!(check(ConversionKind::ImageToPdf, 1).is_ok());
    assert!(matches!(
        check(ConversionKind::ImageToPdf, 201),
        Err(AppError::ImageBatchTooLarge)
    ));
    assert!(matches!(
        check(ConversionKind::PdfToTxt, 1),
        Err(AppError::UnsupportedFormat)
    ));
}

/// Runs a job that merges images, all of it in memory.
fn merge(images: &[(&str, Vec<u8>)], cancelled: bool) -> (Vec<WorkerEvent>, Option<Vec<u8>>) {
    let mut events = Vec::new();
    let (mut job, event) = JobRun::start("job_image_merge".to_owned(), true, images.len());
    events.push(event);
    let mut result = None;
    loop {
        let stop = stop_reason(cancelled, 0);
        let inputs = match job.stage() {
            Stage::AwaitingPermit => vec![JobInput::Permit(match stop {
                Some(reason) => Err(reason),
                None => Ok(()),
            })],
            Stage::Polling | Stage::PollingAfterFailure(_) | Stage::PollingAfterFinish(..) => {
                vec![JobInput::Stop(stop)]
            }
            Stage::ResolvingOutput => vec![JobInput::OutputDir(Ok(()))],
            Stage::CheckingInputs => vec![JobInput::Regular(true)],
            Stage::ResolvingInput => vec![JobInput::InputPath(Ok(()))],
            Stage::CreatingWorkspace => vec![JobInput::Workspace(Ok(()))],
            Stage::Converting => {
                let mut inputs = Vec::new();
                let mut book = ImageBook::new(images.len()).expect("book");
                let mut failure = None;
                for (index, (extension, bytes)) in images.iter().enumerate() {
                    let kind = image_kind(extension).expect("kind");
                    let added = read_image(kind, bytes.clone(), &|| false)
                        .and_then(|image| book.add_image(image, bytes.len() as u64, &|| false));
                    if let Err(error) = added {
                        failure = Some(image_pdf_failure(error));
                        break;
                    }
                    inputs.push(JobInput::Merged(index + 1));
                }
                inputs.push(JobInput::Converted(match failure {
                    Some(failure) => Err(failure),
                    None => {
                        result = Some(book.finish(&|| false).expect("file"));
                        Ok(merged_message(images.len() as u64))
                    }
                }));
                inputs
            }
            Stage::Finalizing(_) => {
                vec![JobInput::Finalized(Ok(vec!["red-merged.pdf".to_owned()]))]
            }
            Stage::Ended => return (events, result),
        };
        for input in inputs {
            events.extend(job.advance(input).event);
        }
    }
}

fn one_pixel(pixel: &[u8]) -> Vec<u8> {
    let mut file = Vec::new();
    let mut encoder = png::Encoder::new(&mut file, 1, 1);
    encoder.set_color(png::ColorType::Rgb);
    encoder.set_depth(png::BitDepth::Eight);
    encoder
        .write_header()
        .expect("PNG header")
        .write_image_data(pixel)
        .expect("PNG data");
    file
}

#[test]
fn merged_image_job_produces_one_ordered_pdf_and_fails_as_a_batch() {
    let red = one_pixel(&[255, 0, 0]);
    let blue = one_pixel(&[0, 0, 255]);
    let (events, pdf) = merge(&[("png", red.clone()), ("png", blue.clone())], false);
    let success = events.last().expect("terminal event");
    assert!(matches!(success.state, WorkerState::Succeeded));
    assert_eq!((success.completed, success.total), (2, 2));
    assert_eq!(success.message, "Created a 2-page PDF");
    let outputs = success.outputs.as_ref().expect("one merged output");
    assert_eq!(outputs.len(), 1);
    let pdf = pdf.expect("merged PDF");
    assert!(pdf
        .windows(b"/Count 2".len())
        .any(|chunk| chunk == b"/Count 2"));
    assert_eq!(
        events
            .iter()
            .filter(|event| matches!(event.state, WorkerState::Running))
            .count(),
        2
    );

    let (failed, _) = merge(&[("png", red), ("bmp", b"BMbroken".to_vec())], false);
    let failure = failed.last().expect("failure event");
    assert!(matches!(failure.state, WorkerState::Failed));
    assert_eq!((failure.completed, failure.total), (2, 2));
    assert!(failure.outputs.is_none());

    let (cancelled, _) = merge(&[("png", blue)], true);
    assert!(matches!(
        cancelled.last().map(|event| &event.state),
        Some(WorkerState::Cancelled)
    ));
}

#[test]
fn validates_page_ranges() {
    assert!(valid_pages("1-3,8"));
    assert!(!valid_pages("0,3"));
    assert!(!valid_pages("1--3"));
}

#[test]
fn validates_a_real_input_path() {
    assert!(validate_request(
        ConversionKind::PdfToTxt,
        &no_options(),
        &vec![input_file("pdf", 8)],
        LIMITS,
        Platform::Other
    )
    .is_ok());
}

#[test]
fn only_what_is_there_and_not_the_systems_is_opened() {
    let target = |path: &str| OpenTarget {
        absolute: true,
        present: true,
        found: true,
        directory: Some(output_dir(path)),
    };
    assert!(open_path(&target("/tmp"), Platform::Other).is_ok());
    assert_eq!(
        open_path(&target("/usr/lib"), Platform::Other),
        Err(AppError::OutputPathNotAllowed)
    );
    let missing = OpenTarget {
        present: false,
        ..target("/usr")
    };
    assert_eq!(
        open_path(&missing, Platform::Other),
        Err(AppError::InputNotFound)
    );
    let alone = OpenTarget {
        directory: None,
        ..target("/tmp")
    };
    assert_eq!(
        open_path(&alone, Platform::Other),
        Err(AppError::OutputPathNotAllowed)
    );
}

#[test]
fn rejects_system_output_directories() {
    assert!(matches!(
        validate_output_dir(&output_dir("/"), Platform::Other),
        Err(AppError::OutputPathNotAllowed)
    ));
    assert!(validate_output_dir(&output_dir("/tmp"), Platform::Other).is_ok());
}

#[test]
fn inspects_absolute_regular_files() {
    let info = inspect_input_file(ChosenFile {
        absolute: true,
        regular: true,
        size: 7,
        canonical: Some("/tmp/minimal-pdf-converter-inspect.pdf".to_owned()),
        name: Some("minimal-pdf-converter-inspect.pdf".to_owned()),
    })
    .expect("inspect file");
    assert_eq!(info.name, "minimal-pdf-converter-inspect.pdf");
    assert_eq!(info.size, 7);
    assert_eq!(info.path, "/tmp/minimal-pdf-converter-inspect.pdf");
}

#[test]
fn rejects_relative_inspection_paths() {
    let error = inspect_input_file(ChosenFile {
        absolute: false,
        regular: false,
        size: 0,
        canonical: None,
        name: None,
    })
    .expect_err("must reject");
    assert_eq!(
        error.text(),
        "INPUT_PATH_REQUIRED: The input path must be absolute"
    );
}

#[test]
fn rejects_symlinked_input_before_canonicalization() {
    let error = inspect_input_file(ChosenFile {
        absolute: true,
        regular: false,
        size: 0,
        canonical: Some("/tmp/target.pdf".to_owned()),
        name: Some("target.pdf".to_owned()),
    })
    .expect_err("inspection must reject symlink");
    assert_eq!(error.text(), "INPUT_NOT_FOUND: The input file does not exist");
    let linked = InputFile {
        regular: false,
        ..input_file("pdf", 15)
    };
    assert!(matches!(
        validate_request(
            ConversionKind::PdfToTxt,
            &no_options(),
            &vec![linked],
            LIMITS,
            Platform::Other
        ),
        Err(AppError::InputNotFound)
    ));
}

#[test]
fn finalization_avoids_overwriting_existing_output() {
    let disk = Disk::new(&[b"new"]);
    disk.outputs
        .borrow_mut()
        .insert("report.txt".to_owned(), b"keep".to_vec());
    let outputs = finalize_outputs(&disk, "report", "txt", || None).expect("finalize output");
    assert_eq!(disk.output("report.txt").expect("existing"), b"keep");
    assert_eq!(disk.output(&outputs[0]).expect("generated"), b"new");
}

#[test]
fn finalization_rejects_wrong_signatures_before_reserving_outputs() {
    for (extension, bytes) in [
        ("pdf", b"not a PDF".as_slice()),
        ("docx", b"not a DOCX".as_slice()),
        ("odt", b"not an ODT".as_slice()),
        ("odp", b"not an ODP".as_slice()),
        ("cbz", b"not a CBZ".as_slice()),
        ("png", b"not a PNG".as_slice()),
        ("jpg", b"not a JPG".as_slice()),
        ("bmp", b"not a BMP".as_slice()),
        ("gif", b"not a GIF".as_slice()),
        ("webp", b"not a WEBP".as_slice()),
        ("tiff", b"not a TIFF".as_slice()),
    ] {
        let disk = Disk::new(&[bytes]);
        let outcome = finalize_outputs(&disk, "report", extension, || None);
        assert!(matches!(outcome, Err(FinalizationFailure::Write(_))));
        assert!(disk.is_staged(0));
        assert!(disk.output(&format!("report.{extension}")).is_none());
    }
}

#[test]
fn finalization_rejects_empty_staged_output_and_can_retry() {
    let disk = Disk::new(&[b""]);
    let outcome = finalize_outputs(&disk, "report", "pdf", || None);
    assert!(matches!(outcome, Err(FinalizationFailure::Write(_))));
    assert!(disk.output("report.pdf").is_none());

    let pdf = write_text_pdf("retry").expect("write valid PDF on retry");
    let disk = Disk::new(&[&pdf]);
    let outputs = finalize_outputs(&disk, "report", "pdf", || None).expect("retry succeeds");
    assert_eq!(outputs, ["report.pdf"]);
    assert!(disk
        .output(&outputs[0])
        .expect("installed PDF")
        .starts_with(b"%PDF-"));
}

#[test]
fn finalization_rejects_symlinked_staged_output_without_touching_target() {
    let link = StagedMetadata {
        regular: false,
        length: 14,
    };
    assert!(matches!(
        admit_staged("txt", Ok(link), Ok(())),
        Err(FinalizationFailure::Write(_))
    ));
}

#[test]
fn finalization_checks_utf8_across_read_chunks_and_rejects_invalid_text() {
    let mut text = vec![b'a'; 8194];
    text.extend_from_slice("你好".as_bytes());
    let disk = Disk::new(&[&text]);
    let outputs = finalize_outputs(&disk, "valid", "txt", || None)
        .expect("split UTF-8 character stays valid");
    assert_eq!(disk.output(&outputs[0]).expect("installed TXT"), text);

    let mut split = vec![b'a'; 8191];
    split.extend_from_slice("你好".as_bytes());
    assert!(validate_staged(&split, "txt", Ok(()), || None).is_ok());

    let disk = Disk::new(&[&[0xe4, 0xb8]]);
    let outcome = finalize_outputs(&disk, "invalid", "txt", || None);
    assert!(matches!(outcome, Err(FinalizationFailure::Write(_))));
    assert!(disk.output("invalid.txt").is_none());
}

#[test]
fn finalization_accepts_rendered_jpg_and_rejects_missing_end_marker() {
    let jpg = write_image(1, 1, &[240, 20, 20], ImageFormat::Jpg, 85).expect("render fixture JPG");
    validate_staged(&jpg, "jpg", Ok(()), || None).expect("JPG signature is valid");

    let mut truncated = jpg;
    truncated.pop();
    let disk = Disk::new(&[&truncated]);
    let outcome = finalize_outputs(&disk, "damaged", "jpg", || None);
    assert!(matches!(outcome, Err(FinalizationFailure::Write(_))));
    assert!(disk.output("damaged.jpg").is_none());
}

#[test]
fn finalization_recognizes_active_office_and_image_signatures() {
    for (extension, bytes) in [
        ("odt", b"PK\x03\x04package".as_slice()),
        ("odp", b"PK\x03\x04package".as_slice()),
        (
            "doc",
            b"\xd0\xcf\x11\xe0\xa1\xb1\x1a\xe1document".as_slice(),
        ),
        ("ppt", b"\xd0\xcf\x11\xe0\xa1\xb1\x1a\xe1slides".as_slice()),
        ("bmp", b"BMbitmap".as_slice()),
        ("gif", b"GIF89aimage".as_slice()),
        ("webp", b"RIFF\x04\x00\x00\x00WEBPdata".as_slice()),
        ("tiff", b"II*\0image".as_slice()),
    ] {
        validate_staged(bytes, extension, Ok(()), || None)
            .unwrap_or_else(|error| panic!("{extension} signature rejected: {error:?}"));
    }
    assert!(matches!(
        validate_staged(b"PK\x03\x04package", "cbz", Ok(()), || None),
        Err(FinalizationFailure::Write(_))
    ));
    assert!(matches!(
        validate_staged(b"RIFF\x04\x00\x00\x00NOPEdata", "webp", Ok(()), || None),
        Err(FinalizationFailure::Write(_))
    ));
}

#[test]
fn finalization_validates_rtf_and_flat_odf_xml_structures() {
    validate_staged(b"{\\rtf1\\ansi validated}\r\n", "rtf", Ok(()), || None)
        .expect("accept valid RTF");
    validate_staged(b"<?xml version=\"1.0\"?>", "xml", Ok(()), || None)
        .expect("accept valid Flat ODF XML");
    assert!(matches!(
        validate_staged(
            b"<document>not Flat ODF</document>",
            "xml",
            Err("no office document".to_owned()),
            || None
        ),
        Err(FinalizationFailure::Write(_))
    ));
}

#[test]
fn cancellation_between_page_installs_rolls_back_all_reserved_outputs() {
    let disk = Disk::new(&[b"first page", b"second page"]);
    let outcome = finalize_outputs(&disk, "report", "txt", || {
        (!disk.is_staged(0) && disk.output("report-001.txt").is_some())
            .then_some(StopReason::Cancelled)
    });
    assert!(matches!(
        outcome,
        Err(FinalizationFailure::Stopped(StopReason::Cancelled))
    ));
    assert!(!disk.is_staged(0), "first page was moved before cancellation");
    assert!(disk.is_staged(1), "second page was not installed");
    assert!(disk.output("report-001.txt").is_none());
    assert!(disk.output("report-002.txt").is_none());
}

#[test]
fn timeout_after_last_install_removes_partial_output() {
    let disk = Disk::new(&[b"late output"]);
    let outcome = finalize_outputs(&disk, "report", "txt", || {
        (!disk.is_staged(0) && disk.output("report.txt").is_some()).then_some(StopReason::TimedOut)
    });
    assert!(matches!(
        outcome,
        Err(FinalizationFailure::Stopped(StopReason::TimedOut))
    ));
    assert!(!disk.is_staged(0), "output was moved before timeout");
    assert!(disk.output("report.txt").is_none());
}

#[test]
fn elapsed_timeout_prevents_reservation_before_output_install() {
    let disk = Disk::new(&[b"late output"]);
    let outcome = finalize_outputs(&disk, "report", "txt", || {
        stop_reason(false, JOB_TIMEOUT_SECONDS)
    });
    assert!(matches!(
        outcome,
        Err(FinalizationFailure::Stopped(StopReason::TimedOut))
    ));
    assert!(disk.output("report.txt").is_none());
}

#[test]
fn failed_install_rolls_back_partial_pages_and_retry_preserves_existing_file() {
    let disk = Disk::new(&[b"partial result", b"second page"]);
    disk.outputs
        .borrow_mut()
        .insert("report.txt".to_owned(), b"existing result".to_vec());
    let outcome = finalize_outputs(&disk, "report", "txt", || {
        if disk.output("report-001.txt").is_some() {
            disk.staged.borrow_mut()[1] = None;
        }
        None
    });
    assert!(matches!(outcome, Err(FinalizationFailure::Write(_))));
    assert!(!disk.is_staged(0), "first page moved before second failed");
    assert!(disk.output("report-001.txt").is_none());
    assert!(disk.output("report-002.txt").is_none());
    assert_eq!(
        disk.output("report.txt").expect("existing file"),
        b"existing result"
    );

    *disk.staged.borrow_mut() = vec![Some(b"retry result".to_vec())];
    let outputs = finalize_outputs(&disk, "report", "txt", || None).expect("retry succeeds");
    assert_eq!(outputs, ["report (1).txt"]);
    assert_eq!(disk.output(&outputs[0]).expect("retry output"), b"retry result");
    assert_eq!(
        disk.output("report.txt").expect("existing file"),
        b"existing result"
    );
}

#[test]
fn preserves_unicode_through_docx_pdf_txt_round_trip() {
    let docx = write_text_docx(&vec!["标题：你好，世界".to_owned()]).expect("write source DOCX");
    let pages = extract_pages_from_path(Ok(docx)).expect("read DOCX");
    let pdf = write_text_pages_pdf(&pages).expect("DOCX to PDF conversion");
    let text = extract_text(&pdf, &PageSelection::All).expect("PDF to TXT conversion");
    assert_eq!(text.text, "标题：你好，世界");
}

#[test]
fn cancelled_bridge_job_emits_terminal_event_without_output() {
    let (mut job, first) = JobRun::start("job_cancelled".to_owned(), false, 1);
    assert!(matches!(first.state, WorkerState::Queued));
    let answer = job.advance(JobInput::Permit(Err(StopReason::Cancelled)));
    let last = answer.event.expect("terminal event");
    assert!(matches!(last.state, WorkerState::Cancelled));
    assert_eq!(last.error_code.as_deref(), Some("CANCELLED"));
    assert!(last.outputs.is_none());
    assert!(matches!(job.stage(), Stage::Ended));
}

#[test]
fn bridge_job_uses_existing_engine_and_emits_success() {
    let input = write_text_pdf("bridge fixture").expect("write fixture PDF");
    let (mut job, first) = JobRun::start("job_1".to_owned(), false, 1);
    assert!(matches!(first.state, WorkerState::Queued));
    let mut events = vec![first];
    let disk = Disk::new(&[]);
    loop {
        let input = match job.stage() {
            Stage::AwaitingPermit => JobInput::Permit(Ok(())),
            Stage::Polling | Stage::PollingAfterFailure(_) | Stage::PollingAfterFinish(..) => {
                JobInput::Stop(None)
            }
            Stage::ResolvingOutput => JobInput::OutputDir(Ok(())),
            Stage::CheckingInputs => JobInput::Regular(true),
            Stage::ResolvingInput => JobInput::InputPath(Ok(())),
            Stage::CreatingWorkspace => JobInput::Workspace(Ok(())),
            Stage::Converting => {
                let plan = plan_conversion(ConversionKind::PdfToTxt, &no_options(), "input")
                    .expect("plan");
                assert!(matches!(plan.engine, Engine::Text));
                assert_eq!(plan.output.as_deref(), Some("input.txt"));
                let found = extract_text(&input, &PageSelection::All).expect("text");
                disk.staged
                    .borrow_mut()
                    .push(Some(found.text.into_bytes()));
                JobInput::Converted(Ok("done".to_owned()))
            }
            Stage::Finalizing(_) => {
                JobInput::Finalized(finalize_outputs(&disk, "input", "txt", || None))
            }
            Stage::Ended => break,
        };
        events.extend(job.advance(input).event);
    }
    let success = events
        .iter()
        .find(|event| matches!(event.state, WorkerState::Succeeded))
        .expect("completion event");
    assert_eq!(success.job_id, "job_1");
    assert_eq!(success.completed, 1);
    let output = success
        .outputs
        .as_ref()
        .and_then(|paths| paths.first())
        .expect("output path");
    assert!(
        String::from_utf8(disk.output(output).expect("TXT"))
            .expect("UTF-8")
            .contains("bridge fixture")
    );
    let numbers: Vec<u64> = events.iter().map(|event| event.seq).collect();
    assert!(numbers.windows(2).all(|pair| pair[1] == pair[0] + 1));
}

#[test]
fn a_failing_file_is_reported_with_its_code() {
    let (mut job, _) = JobRun::start("job_2".to_owned(), false, 1);
    let mut last = None;
    loop {
        let input = match job.stage() {
            Stage::AwaitingPermit => JobInput::Permit(Ok(())),
            Stage::Polling | Stage::PollingAfterFailure(_) | Stage::PollingAfterFinish(..) => {
                JobInput::Stop(None)
            }
            Stage::ResolvingOutput => JobInput::OutputDir(Ok(())),
            Stage::CheckingInputs => JobInput::Regular(true),
            Stage::ResolvingInput => JobInput::InputPath(Ok(())),
            Stage::CreatingWorkspace => JobInput::Workspace(Ok(())),
            Stage::Converting => JobInput::Converted(Err(pdf_failure(PdfError::CorruptedPdf))),
            Stage::Finalizing(_) => unreachable!("nothing was converted"),
            Stage::Ended => break,
        };
        if let Some(event) = job.advance(input).event {
            last = Some(event);
        }
    }
    let last = last.expect("terminal event");
    assert!(matches!(last.state, WorkerState::Failed));
    assert_eq!(
        last.error_code.as_deref(),
        Some(pdf_failure(PdfError::CorruptedPdf).code)
    );
}

#[test]
fn stopping_wins_over_timeouts() {
    assert_eq!(stop_reason(false, JOB_TIMEOUT_SECONDS - 1), None);
    assert_eq!(
        stop_reason(false, JOB_TIMEOUT_SECONDS),
        Some(StopReason::TimedOut)
    );
    assert_eq!(stop_reason(true, 10_000), Some(StopReason::Cancelled));
}

#[test]
fn queued_events_name_their_job() {
    let event = queued_event("job", 3, 7);
    assert_eq!((event.seq, event.completed, event.total), (3, 0, 7));
    assert_eq!(event.job_id, "job");
    assert_eq!(event.phase, "queued");
}

#[test]
fn output_names_number_pages_and_attempts() {
    let single = Finalizer::new("report".to_owned(), "txt".to_owned(), 1);
    assert_eq!(single.name(0, 0), "report.txt");
    assert_eq!(single.name(2, 0), "report (2).txt");
    let pages = Finalizer::new("report".to_owned(), "png".to_owned(), 3);
    assert_eq!(pages.name(0, 1), "report-002.png");
}

#[test]
fn lanes_admit_as_many_jobs_as_they_allow() {
    let mut counts = JobLaneCounts::new();
    assert!(counts.enter(JobLane::TextAndImage));
    assert!(counts.enter(JobLane::TextAndImage));
    assert!(!counts.enter(JobLane::TextAndImage));
    assert!(counts.enter(JobLane::Document));
    assert!(!counts.enter(JobLane::Document));
    counts.leave(JobLane::TextAndImage);
    assert!(counts.enter(JobLane::TextAndImage));
}

#[test]
fn requests_are_refused_for_the_first_thing_that_is_wrong() {
    let check = |options: &ConversionOptions, inputs: Vec<InputFile>| {
        validate_request(
            ConversionKind::PdfToImage,
            options,
            &inputs,
            LIMITS,
            Platform::Other,
        )
    };
    assert!(matches!(
        check(&no_options(), Vec::new()),
        Err(AppError::NoInputs)
    ));
    let relative = InputFile {
        absolute: false,
        ..input_file("pdf", 1)
    };
    assert!(matches!(
        check(&no_options(), vec![relative]),
        Err(AppError::InputPathRequired)
    ));
    assert!(matches!(
        check(&no_options(), vec![input_file("txt", 1)]),
        Err(AppError::UnsupportedFormat)
    ));
    assert!(matches!(
        check(&no_options(), vec![input_file("pdf", MAX_INPUT_BYTES + 1)]),
        Err(AppError::InputTooLarge)
    ));
    let dpi = ConversionOptions {
        dpi: Some(10),
        ..no_options()
    };
    assert!(matches!(
        check(&dpi, vec![input_file("pdf", 1)]),
        Err(AppError::InvalidDpi)
    ));
    let quality = ConversionOptions {
        jpg_quality: Some(0),
        ..no_options()
    };
    assert!(matches!(
        check(&quality, vec![input_file("pdf", 1)]),
        Err(AppError::InvalidJpgQuality)
    ));
    let pages = ConversionOptions {
        pages: Some("x".to_owned()),
        ..no_options()
    };
    assert!(matches!(
        check(&pages, vec![input_file("pdf", 1)]),
        Err(AppError::InvalidPages)
    ));
}

#[test]
fn output_directories_must_be_absolute_directories() {
    let relative = OutputDir {
        absolute: false,
        ..output_dir("/tmp")
    };
    assert!(matches!(
        validate_output_dir(&relative, Platform::Other),
        Err(AppError::OutputPathRequired)
    ));
    let missing = OutputDir {
        directory: false,
        canonical: None,
        ..output_dir("/tmp")
    };
    assert!(matches!(
        validate_output_dir(&missing, Platform::Other),
        Err(AppError::OutputDirNotFound)
    ));
    assert!(is_forbidden_output_dir("/usr/bin", Platform::Other));
    assert!(!is_forbidden_output_dir("/home/user", Platform::Other));
}

#[test]
fn errors_have_codes_and_messages() {
    assert_eq!(AppError::JobNotFound.code(), "JOB_NOT_FOUND");
    assert_eq!(
        AppError::NoInputs.text(),
        format!("{}: {}", AppError::NoInputs.code(), AppError::NoInputs.message())
    );
    assert_eq!(
        render_failure(RenderError::Pdf(PdfError::Cancelled)).code,
        "CANCELLED"
    );
}

#[test]
fn page_choices_and_limits() {
    assert!(is_all_pages("all"));
    assert!(!is_all_pages("1"));
    assert_eq!(
        input_limit(ConversionKind::HtmlToPdf, LIMITS),
        LIMITS.html
    );
    assert_eq!(
        input_limit(ConversionKind::PdfToTxt, LIMITS),
        MAX_INPUT_BYTES
    );
}

#[test]
fn render_settings_have_defaults() {
    let settings = render_settings(&no_options()).expect("settings");
    assert!(matches!(settings.format, ImageFormat::Png));
    assert!((150..=300).contains(&settings.dpi));
    assert!(matches!(settings.selection, PageSelection::All));
}

#[test]
fn progress_is_told_in_words() {
    let counts = Counts {
        pages: 2,
        text_objects: 5,
    };
    assert!(conversion_message(ConversionKind::PdfToTxt, counts).contains('2'));
    assert_eq!(rendering_message(0, 3), "Rendering page 1 of 3");
}

#[test]
fn a_run_tells_of_every_file() {
    let (mut job, first) = JobRun::start("job_3".to_owned(), false, 3);
    let mut events = vec![first];
    let mut converted = 0;
    loop {
        let input = match job.stage() {
            Stage::AwaitingPermit => JobInput::Permit(Ok(())),
            Stage::Polling | Stage::PollingAfterFailure(_) | Stage::PollingAfterFinish(..) => {
                JobInput::Stop(None)
            }
            Stage::ResolvingOutput => JobInput::OutputDir(Ok(())),
            Stage::CheckingInputs => JobInput::Regular(true),
            Stage::ResolvingInput => JobInput::InputPath(Ok(())),
            Stage::CreatingWorkspace => JobInput::Workspace(Ok(())),
            Stage::Converting => {
                converted += 1;
                if converted == 2 {
                    JobInput::Converted(Err(pdf_failure(PdfError::CorruptedPdf)))
                } else {
                    JobInput::Converted(Ok("done".to_owned()))
                }
            }
            Stage::Finalizing(_) => JobInput::Finalized(Ok(vec![format!("/out/{converted}")])),
            Stage::Ended => break,
        };
        events.extend(job.advance(input).event);
    }
    assert!(matches!(events[0].state, WorkerState::Queued));
    for (place, event) in events.iter().enumerate() {
        assert_eq!(event.seq, place as u64 + 1);
        assert_eq!(event.job_id, "job_3");
        assert_eq!(event.total, 3);
    }
    let outcomes: Vec<bool> = events
        .iter()
        .filter(|event| matches!(event.state, WorkerState::Succeeded | WorkerState::Failed))
        .map(|event| matches!(event.state, WorkerState::Succeeded))
        .collect();
    assert_eq!(outcomes, [true, false, true]);
}

#[test]
fn pages_that_are_valid_are_selected() {
    for text in ["1", "1-3,8", " 2 , 5-6 ", "10000", "1-10000"] {
        assert!(valid_pages(text));
        assert!(matches!(
            PageSelection::parse(Some(text)),
            Ok(PageSelection::Pages(_))
        ));
    }
    assert!(valid_pages("1-10001"));
    assert!(PageSelection::parse(Some("1-10001")).is_err());
}

#[test]
fn selected_pages_are_those_of_the_whole_document() {
    let texts: Vec<String> = ["one", "two", "three"].map(str::to_owned).to_vec();
    let file = write_text_pages_pdf(&texts).expect("write pages");
    let all = extract_text(&file, &PageSelection::All).expect("all pages");
    let some = PageSelection::parse(Some("3,1")).expect("selection");
    let chosen = extract_text(&file, &some).expect("some pages");
    let found: Vec<&str> = chosen.pages.iter().map(|page| page.text.as_str()).collect();
    assert_eq!(
        found,
        [all.pages[0].text.as_str(), all.pages[2].text.as_str()]
    );
}

#[test]
fn outputs_are_named_after_the_first_input() {
    let stem = |found: Option<&str>, merged: bool| output_stem(found.map(str::to_owned), merged);
    assert_eq!(stem(Some("red"), false), "red");
    assert_eq!(stem(Some("red"), true), "red-merged");
    assert_eq!(stem(None, false), "output");
    assert_eq!(stem(None, true), "images-merged");
    let merging = ConversionOptions {
        merge_images: true,
        ..no_options()
    };
    assert!(is_merged(ConversionKind::ImageToPdf, &merging));
    assert!(!is_merged(ConversionKind::ImageToPdf, &no_options()));
    assert!(!is_merged(ConversionKind::PdfToTxt, &merging));
}

#[test]
fn a_merger_tells_how_it_came_out_once_and_last() {
    for failing in [false, true] {
        let (mut job, first) = JobRun::start("job_4".to_owned(), true, 2);
        let mut events = vec![first];
        let mut merged = 0;
        loop {
            let input = match job.stage() {
                Stage::AwaitingPermit => JobInput::Permit(Ok(())),
                Stage::Polling | Stage::PollingAfterFailure(_) | Stage::PollingAfterFinish(..) => {
                    JobInput::Stop(None)
                }
                Stage::ResolvingOutput => JobInput::OutputDir(Ok(())),
                Stage::CheckingInputs => JobInput::Regular(true),
                Stage::ResolvingInput => JobInput::InputPath(Ok(())),
                Stage::CreatingWorkspace => JobInput::Workspace(Ok(())),
                Stage::Converting if merged < 2 => {
                    merged += 1;
                    JobInput::Merged(merged)
                }
                Stage::Converting if failing => {
                    JobInput::Converted(Err(pdf_failure(PdfError::CorruptedPdf)))
                }
                Stage::Converting => JobInput::Converted(Ok(merged_message(2))),
                Stage::Finalizing(_) => JobInput::Finalized(Ok(vec!["/out".to_owned()])),
                Stage::Ended => break,
            };
            events.extend(job.advance(input).event);
        }
        let last = events.pop().expect("terminal event");
        assert_eq!(matches!(last.state, WorkerState::Failed), failing);
        assert_eq!(matches!(last.state, WorkerState::Succeeded), !failing);
        assert_eq!((last.completed, last.total), (2, 2));
        assert!(events
            .iter()
            .all(|event| matches!(event.state, WorkerState::Queued | WorkerState::Running)));
        let told: Vec<_> = events.iter().map(|event| event.completed).collect();
        assert_eq!(told.iter().filter(|done| **done > 0).count(), 2);
        assert_eq!(told[told.len() - 2..], [1, 2]);
    }
}
