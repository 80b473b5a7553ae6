//! How conversions are carried out.

use vstd::prelude::*;

use crate::image::ImagePdfError;
use crate::jobs::kind;
use crate::jobs::kind::{output_extension, ConversionKind};
use crate::jobs::request::{is_all_pages, ConversionOptions};
use crate::pdf::error::{Failure, PdfError};
use crate::pdf::selection;
use crate::pdf::selection::{PageSelection, Wanted};
use crate::render::{ImageFormat, RenderError};
use crate::text;
use crate::text::{push_number, to_upper};

verus! {

/// Why a conversion failed: a stable code, and a sentence for the user.
#[derive(Debug)]
pub struct EngineFailure {
    pub code: &'static str,
    pub message: String,
}

pub open spec fn pdf_code(failure: Failure) -> Seq<char> {
    match failure {
        Failure::InvalidPdf | Failure::CorruptedPdf => "CORRUPTED_PDF"@,
        Failure::UnsupportedStructure | Failure::UnsupportedStreamLength =>
            "UNSUPPORTED_PDF_STRUCTURE"@,
        Failure::StreamLimitExceeded | Failure::CMapLimitExceeded => "PDF_STREAM_TOO_LARGE"@,
        Failure::NoTextLayer => "NO_TEXT_LAYER"@,
        Failure::InvalidPageRange => "INVALID_PAGES"@,
        Failure::PageLimitExceeded => "PAGE_LIMIT_EXCEEDED"@,
        Failure::UnsupportedFilter(_) | Failure::Decompression => "CONVERSION_FAILED"@,
        Failure::Cancelled => "CANCELLED"@,
        Failure::Io(_) => "INPUT_READ_FAILED"@,
    }
}

/// What a failure to read a PDF file means for a conversion.
pub fn pdf_failure(error: PdfError) -> (r: EngineFailure)
    ensures
        r.code@ == pdf_code(error@),
        r.message@ == error.message_spec(),
{
    let code = match &error {
        PdfError::InvalidPdf | PdfError::CorruptedPdf => "CORRUPTED_PDF",
        PdfError::UnsupportedStructure | PdfError::UnsupportedStreamLength =>
            "UNSUPPORTED_PDF_STRUCTURE",
        PdfError::StreamLimitExceeded | PdfError::CMapLimitExceeded => "PDF_STREAM_TOO_LARGE",
        PdfError::NoTextLayer => "NO_TEXT_LAYER",
        PdfError::InvalidPageRange => "INVALID_PAGES",
        PdfError::PageLimitExceeded => "PAGE_LIMIT_EXCEEDED",
        PdfError::UnsupportedFilter(_) | PdfError::Decompression => "CONVERSION_FAILED",
        PdfError::Cancelled => "CANCELLED",
        PdfError::Io(_) => "INPUT_READ_FAILED",
    };
    EngineFailure { code, message: error.message() }
}

/// The code and the sentence of a failure to render pages.
pub open spec fn render_report(error: RenderError) -> (Seq<char>, Seq<char>) {
    match error {
        RenderError::Pdf(error) => (pdf_code(error@), error.message_spec()),
        RenderError::Io(message) => ("OUTPUT_WRITE_FAILED"@, message@),
        RenderError::PixelLimit => (
            "CONVERSION_FAILED"@,
            "The total image pixel count exceeds the safety limit"@,
        ),
        RenderError::Encoding => ("OUTPUT_WRITE_FAILED"@, "Image encoding failed"@),
        RenderError::OutputLimit => ("OUTPUT_WRITE_FAILED"@, error.message_spec()),
        RenderError::NativeUnavailable => ("WORKER_NOT_INSTALLED"@, error.message_spec()),
        RenderError::NativeFailed => ("CONVERSION_FAILED"@, error.message_spec()),
    }
}

/// What a failure to render pages means for a conversion.
pub fn render_failure(error: RenderError) -> (r: EngineFailure)
    ensures
        (r.code@, r.message@) == render_report(error),
{
    match error {
        RenderError::Pdf(error) => pdf_failure(error),
        RenderError::Io(message) => EngineFailure { code: "OUTPUT_WRITE_FAILED", message },
        RenderError::PixelLimit => EngineFailure {
            code: "CONVERSION_FAILED",
            message: "The total image pixel count exceeds the safety limit".to_owned(),
        },
        RenderError::Encoding => EngineFailure {
            code: "OUTPUT_WRITE_FAILED",
            message: "Image encoding failed".to_owned(),
        },
        RenderError::OutputLimit => EngineFailure {
            code: "OUTPUT_WRITE_FAILED",
            message: RenderError::OutputLimit.message(),
        },
        RenderError::NativeUnavailable => EngineFailure {
            code: "WORKER_NOT_INSTALLED",
            message: RenderError::NativeUnavailable.message(),
        },
        RenderError::NativeFailed => EngineFailure {
            code: "CONVERSION_FAILED",
            message: RenderError::NativeFailed.message(),
        },
    }
}

/// What a failure to embed an image means for a conversion.
pub fn image_pdf_failure(error: ImagePdfError) -> (r: EngineFailure)
    ensures
        r.code@ == error.code_spec(),
        r.message@ == error.message_spec(),
{
    EngineFailure { code: error.code(), message: error.message() }
}

/// What carries out a conversion.
#[derive(Debug, Clone, Copy, PartialEq, Eq, Structural)]
pub enum Engine {
    /// Extracts the text of a PDF file.
    Text,
    /// Extracts the text of a PDF file as Markdown.
    Markdown,
    /// An office suite.
    Office,
    /// Renders the pages of a PDF file.
    Render,
    /// Embeds an image.
    Image,
    /// Draws an SVG file.
    Svg,
    /// Prints an HTML file.
    Html,
    /// Typesets a Markdown file.
    MarkdownPdf,
}

/// What carries out a conversion.
pub open spec fn engine_of(kind: ConversionKind) -> Engine {
    match kind {
        ConversionKind::PdfToTxt => Engine::Text,
        ConversionKind::PdfToMarkdown => Engine::Markdown,
        ConversionKind::PdfToImage => Engine::Render,
        ConversionKind::ImageToPdf => Engine::Image,
        ConversionKind::SvgToPdf => Engine::Svg,
        ConversionKind::HtmlToPdf => Engine::Html,
        ConversionKind::MarkdownToPdf => Engine::MarkdownPdf,
        _ => Engine::Office,
    }
}

fn engine_for(kind: ConversionKind) -> (r: Engine)
    ensures
        r == engine_of(kind),
{
    match kind {
        ConversionKind::PdfToTxt => Engine::Text,
        ConversionKind::PdfToMarkdown => Engine::Markdown,
        ConversionKind::PdfToImage => Engine::Render,
        ConversionKind::ImageToPdf => Engine::Image,
        ConversionKind::SvgToPdf => Engine::Svg,
        ConversionKind::HtmlToPdf => Engine::Html,
        ConversionKind::MarkdownToPdf => Engine::MarkdownPdf,
        _ => Engine::Office,
    }
}

/// An office suite reads a PDF file.
pub open spec fn imports_pdf(kind: ConversionKind) -> bool {
    ||| kind == ConversionKind::PdfToDoc
    ||| kind == ConversionKind::PdfToDocx
    ||| kind == ConversionKind::PdfToOdt
    ||| kind == ConversionKind::PdfToOdp
    ||| kind == ConversionKind::PdfToPptx
    ||| kind == ConversionKind::PdfToPpt
    ||| kind == ConversionKind::PdfToRtf
    ||| kind == ConversionKind::PdfToFlatOdtXml
}

fn is_pdf_import(kind: ConversionKind) -> (r: bool)
    ensures
        r == imports_pdf(kind),
{
    kind == ConversionKind::PdfToDoc || kind == ConversionKind::PdfToDocx || kind
        == ConversionKind::PdfToOdt || kind == ConversionKind::PdfToOdp || kind
        == ConversionKind::PdfToPptx || kind == ConversionKind::PdfToPpt || kind
        == ConversionKind::PdfToRtf || kind == ConversionKind::PdfToFlatOdtXml
}

/// What is told of a conversion before its engine runs: the phase and the
/// message of each report.
pub open spec fn reports_of(kind: ConversionKind) -> Seq<(Seq<char>, Seq<char>)> {
    match kind {
        ConversionKind::PdfToTxt => Seq::empty(),
        ConversionKind::PdfToMarkdown => seq![
            ("extracting"@, "Extracting the PDF text layer and creating Markdown"@),
        ],
        ConversionKind::DocToPdf | ConversionKind::DocxToPdf => seq![
            ("converting"@, "Layouting DOCX and creating PDF"@),
        ],
        ConversionKind::TxtToPdf | ConversionKind::RtfToPdf => seq![
            ("converting"@, "Typesetting the text document and creating PDF"@),
        ],
        ConversionKind::OdtToPdf => seq![("converting"@, "Layouting ODT and creating PDF"@)],
        ConversionKind::PdfToImage => seq![("reading"@, "Reading PDF pages"@)],
        ConversionKind::ImageToPdf => seq![
            ("reading"@, "Reading images"@),
            ("writing"@, "Creating PDF"@),
        ],
        ConversionKind::SvgToPdf => seq![("reading"@, "Validating SVG"@)],
        ConversionKind::HtmlToPdf => seq![("converting"@, "Printing HTML offline"@)],
        ConversionKind::MarkdownToPdf => seq![
            ("converting"@, "Typesetting Markdown and creating PDF"@),
        ],
        ConversionKind::PptToPdf | ConversionKind::PptxToPdf => seq![
            ("converting"@, "Layouting PPTX and creating PDF"@),
        ],
        ConversionKind::OdpToPdf => seq![("converting"@, "Layouting ODP and creating PDF"@)],
        ConversionKind::XlsxToPdf | ConversionKind::OdsToPdf => seq![
            ("converting"@, "Layouting the spreadsheet and creating PDF"@),
        ],
        _ => seq![
            (
                "converting"@,
                "Importing PDF and creating "@ + text::raised(
                    kind::output_extension_spec(kind, None),
                ),
            ),
        ],
    }
}

/// What is told of a conversion.
#[derive(Debug)]
pub struct Report {
    pub phase: &'static str,
    pub message: String,
}

pub open spec fn told(reports: Seq<Report>) -> Seq<(Seq<char>, Seq<char>)> {
    Seq::new(reports.len(), |i: int| (reports[i].phase@, reports[i].message@))
}

fn reports_for(kind: ConversionKind) -> (r: Vec<Report>)
    ensures
        told(r@) == reports_of(kind),
{
    let mut out: Vec<Report> = Vec::new();
    let (phase, message) = match kind {
        ConversionKind::PdfToTxt => {
            assert(told(out@) =~= reports_of(kind));
            return out;
        },
        ConversionKind::PdfToMarkdown => (
            "extracting",
            "Extracting the PDF text layer and creating Markdown".to_owned(),
        ),
        ConversionKind::DocToPdf | ConversionKind::DocxToPdf => (
            "converting",
            "Layouting DOCX and creating PDF".to_owned(),
        ),
        ConversionKind::TxtToPdf | ConversionKind::RtfToPdf => (
            "converting",
            "Typesetting the text document and creating PDF".to_owned(),
        ),
        ConversionKind::OdtToPdf => ("converting", "Layouting ODT and creating PDF".to_owned()),
        ConversionKind::PdfToImage => ("reading", "Reading PDF pages".to_owned()),
        ConversionKind::ImageToPdf => ("reading", "Reading images".to_owned()),
        ConversionKind::SvgToPdf => ("reading", "Validating SVG".to_owned()),
        ConversionKind::HtmlToPdf => ("converting", "Printing HTML offline".to_owned()),
        ConversionKind::MarkdownToPdf => (
            "converting",
            "Typesetting Markdown and creating PDF".to_owned(),
        ),
        ConversionKind::PptToPdf | ConversionKind::PptxToPdf => (
            "converting",
            "Layouting PPTX and creating PDF".to_owned(),
        ),
        ConversionKind::OdpToPdf => ("converting", "Layouting ODP and creating PDF".to_owned()),
        ConversionKind::XlsxToPdf | ConversionKind::OdsToPdf => (
            "converting",
            "Layouting the spreadsheet and creating PDF".to_owned(),
        ),
        _ => {
            let mut message = "Importing PDF and creating ".to_owned();
            message.push_str(to_upper(output_extension(kind, None)).as_str());
            ("converting", message)
        },
    };
    out.push(Report { phase, message });
    if kind == ConversionKind::ImageToPdf {
        out.push(Report { phase: "writing", message: "Creating PDF".to_owned() });
    }
    assert(told(out@) =~= reports_of(kind));
    out
}

/// How the pages of a PDF file are rendered.
#[derive(Debug)]
pub struct RenderSettings {
    pub selection: PageSelection,
    pub dpi: u16,
    pub format: ImageFormat,
    pub jpg_quality: u8,
}

/// What contracts say of `RenderSettings`.
pub struct Rendering {
    pub selection: Wanted,
    pub dpi: u16,
    pub format: ImageFormat,
    pub jpg_quality: u8,
}

impl View for RenderSettings {
    type V = Rendering;

    open spec fn view(&self) -> Rendering {
        Rendering {
            selection: self.selection@,
            dpi: self.dpi,
            format: self.format,
            jpg_quality: self.jpg_quality,
        }
    }
}

pub open spec fn pages_text(options: ConversionOptions) -> Option<Seq<char>> {
    match options.pages {
        None => None,
        Some(pages) => Some(pages@),
    }
}

/// How pages are rendered: 200 dots per inch, as PNG files, and JPEG files at
/// quality 85, unless the options say otherwise.
pub open spec fn rendering_of(options: ConversionOptions) -> Option<Rendering> {
    match selection::wanted(pages_text(options)) {
        None => None,
        Some(selection) => Some(
            Rendering {
                selection,
                dpi: match options.dpi {
                    None => 200,
                    Some(dpi) => dpi,
                },
                format: match options.image_format {
                    None => ImageFormat::Png,
                    Some(format) => format,
                },
                jpg_quality: match options.jpg_quality {
                    None => 85,
                    Some(quality) => quality,
                },
            },
        ),
    }
}

/// How the options say that pages are rendered.
pub fn render_settings(options: &ConversionOptions) -> (r: Result<RenderSettings, EngineFailure>)
    ensures
        match rendering_of(*options) {
            Some(rendering) => r is Ok && r->Ok_0@ == rendering,
            None => r is Err && r->Err_0.code@ == "INVALID_PAGES"@ && r->Err_0.message@
                == "The page range is invalid"@,
        },
{
    let pages = match &options.pages {
        None => None,
        Some(pages) => Some(pages.as_str()),
    };
    let selection = match PageSelection::parse(pages) {
        Err(error) => {
            return Err(pdf_failure(error));
        },
        Ok(selection) => selection,
    };
    let dpi: u16 = match options.dpi {
        None => 200,
        Some(dpi) => dpi,
    };
    let format = match options.image_format {
        None => ImageFormat::Png,
        Some(format) => format,
    };
    let jpg_quality: u8 = match options.jpg_quality {
        None => 85,
        Some(quality) => quality,
    };
    Ok(RenderSettings { selection, dpi, format, jpg_quality })
}

/// How a conversion is carried out.
#[derive(Debug)]
pub struct Plan {
    pub engine: Engine,
    pub reports: Vec<Report>,
    /// The name of the file that the engine writes; rendered pages are named
    /// one by one.
    pub output: Option<String>,
}

/// What contracts say of a `Plan`.
pub struct Outline {
    pub engine: Engine,
    pub reports: Seq<(Seq<char>, Seq<char>)>,
    pub output: Option<Seq<char>>,
}

impl View for Plan {
    type V = Outline;

    open spec fn view(&self) -> Outline {
        Outline {
            engine: self.engine,
            reports: told(self.reports@),
            output: match self.output {
                None => None,
                Some(name) => Some(name@),
            },
        }
    }
}

/// Only some pages are asked for.
pub open spec fn selects(options: ConversionOptions) -> bool {
    match options.pages {
        None => false,
        Some(pages) => !selection::asks_for_all(pages@),
    }
}

/// Why a conversion cannot be carried out as asked.
pub open spec fn refusal(kind: ConversionKind, options: ConversionOptions) -> Option<Seq<char>> {
    if !selects(options) {
        None
    } else if kind == ConversionKind::PdfToMarkdown {
        Some("PDF to Markdown currently supports all pages only"@)
    } else if imports_pdf(kind) {
        Some("PDF to office documents currently supports all pages only"@)
    } else {
        None
    }
}

/// How a conversion is carried out.
pub open spec fn outline(
    kind: ConversionKind,
    options: ConversionOptions,
    stem: Seq<char>,
) -> Outline {
    Outline {
        engine: engine_of(kind),
        reports: reports_of(kind),
        output: if kind == ConversionKind::PdfToImage {
            None
        } else {
            Some(stem + "."@ + kind::output_extension_spec(kind, options.image_format))
        },
    }
}

/// Plans a conversion of a file whose name without extension is `stem`.
pub fn plan_conversion(kind: ConversionKind, options: &ConversionOptions, stem: &str) -> (r: Result<
    Plan,
    EngineFailure,
>)
    ensures
        match refusal(kind, *options) {
            Some(message) => r is Err && r->Err_0.code@ == "UNSUPPORTED_FORMAT"@
                && r->Err_0.message@ == message,
            None => r is Ok && r->Ok_0@ == outline(kind, *options, stem@),
        },
{
    let selects = match &options.pages {
        None => false,
        Some(pages) => !is_all_pages(pages.as_str()),
    };
    if selects && kind == ConversionKind::PdfToMarkdown {
        return Err(
            EngineFailure {
                code: "UNSUPPORTED_FORMAT",
                message: "PDF to Markdown currently supports all pages only".to_owned(),
            },
        );
    }
    if selects && is_pdf_import(kind) {
        return Err(
            EngineFailure {
                code: "UNSUPPORTED_FORMAT",
                message: "PDF to office documents currently supports all pages only".to_owned(),
            },
        );
    }
    let output = if kind == ConversionKind::PdfToImage {
        None
    } else {
        let mut name = stem.to_owned();
        name.push_str(".");
        name.push_str(output_extension(kind, options.image_format));
        Some(name)
    };
    Ok(Plan { engine: engine_for(kind), reports: reports_for(kind), output })
}

/// What an engine counted.
#[derive(Debug, Clone, Copy)]
pub struct Counts {
    pub pages: u64,
    pub text_objects: u64,
}

/// What is told when a conversion is done.
pub open spec fn done_message(kind: ConversionKind, counts: Counts) -> Seq<char> {
    match kind {
        ConversionKind::PdfToTxt => "Completed "@ + text::number(counts.pages as nat)
            + " pages and "@ + text::number(counts.text_objects as nat) + " text blocks"@,
        ConversionKind::PdfToMarkdown => "Exported "@ + text::number(counts.pages as nat)
            + " pages and "@ + text::number(counts.text_objects as nat)
            + " text blocks (no headings or tables inferred)"@,
        ConversionKind::DocToPdf | ConversionKind::DocxToPdf | ConversionKind::OdtToPdf =>
            "Created PDF (check fonts and layout)"@,
        ConversionKind::TxtToPdf | ConversionKind::RtfToPdf =>
            "Created PDF (check fonts, line wrapping, and page breaks)"@,
        ConversionKind::PdfToImage => "Created "@ + text::number(counts.pages as nat) + " images"@,
        ConversionKind::ImageToPdf => "Created a single-page PDF"@,
        ConversionKind::SvgToPdf => "Created vector PDF"@,
        ConversionKind::HtmlToPdf => "Created PDF (external resources are not loaded)"@,
        ConversionKind::MarkdownToPdf => "Created Markdown PDF"@,
        ConversionKind::PptToPdf | ConversionKind::PptxToPdf | ConversionKind::OdpToPdf =>
            "Created PDF (check each page's layout)"@,
        ConversionKind::XlsxToPdf | ConversionKind::OdsToPdf =>
            "Created PDF (check page breaks and tables)"@,
        _ => "Created "@ + text::raised(kind::output_extension_spec(kind, None))
            + " (check each page's layout)"@,
    }
}

/// What is told when a conversion is done.
pub fn conversion_message(kind: ConversionKind, counts: Counts) -> (r: String)
    ensures
        r@ == done_message(kind, counts),
{
    match kind {
        ConversionKind::PdfToTxt => {
            let mut message = "Completed ".to_owned();
            push_number(&mut message, counts.pages);
            message.push_str(" pages and ");
            push_number(&mut message, counts.text_objects);
            message.push_str(" text blocks");
            message
        },
        ConversionKind::PdfToMarkdown => {
            let mut message = "Exported ".to_owned();
            push_number(&mut message, counts.pages);
            message.push_str(" pages and ");
            push_number(&mut message, counts.text_objects);
            message.push_str(" text blocks (no headings or tables inferred)");
            message
        },
        ConversionKind::DocToPdf | ConversionKind::DocxToPdf | ConversionKind::OdtToPdf =>
            "Created PDF (check fonts and layout)".to_owned(),
        ConversionKind::TxtToPdf | ConversionKind::RtfToPdf =>
            "Created PDF (check fonts, line wrapping, and page breaks)".to_owned(),
        ConversionKind::PdfToImage => {
            let mut message = "Created ".to_owned();
            push_number(&mut message, counts.pages);
            message.push_str(" images");
            message
        },
        ConversionKind::ImageToPdf => "Created a single-page PDF".to_owned(),
        ConversionKind::SvgToPdf => "Created vector PDF".to_owned(),
        ConversionKind::HtmlToPdf =>
            "Created PDF (external resources are not loaded)".to_owned(),
        ConversionKind::MarkdownToPdf => "Created Markdown PDF".to_owned(),
        ConversionKind::PptToPdf | ConversionKind::PptxToPdf | ConversionKind::OdpToPdf =>
            "Created PDF (check each page's layout)".to_owned(),
        ConversionKind::XlsxToPdf | ConversionKind::OdsToPdf =>
            "Created PDF (check page breaks and tables)".to_owned(),
        _ => {
            let mut message = "Created ".to_owned();
            message.push_str(to_upper(output_extension(kind, None)).as_str());
            message.push_str(" (check each page's layout)");
            message
        },
    }
}

/// What is told when `total` images have been merged.
pub fn merged_message(total: u64) -> (r: String)
    ensures
        r@ == "Created a "@ + text::number(total as nat) + "-page PDF"@,
{
    let mut message = "Created a ".to_owned();
    push_number(&mut message, total);
    message.push_str("-page PDF");
    message
}

/// What is told while page `index` of `total` pages is rendered.
pub fn rendering_message(index: u64, total: u64) -> (r: String)
    requires
        index < u64::MAX,
    ensures
        r@ == "Rendering page "@ + text::number((index + 1) as nat) + " of "@ + text::number(
            total as nat,
        ),
{
    let mut message = "Rendering page ".to_owned();
    push_number(&mut message, index + 1);
    message.push_str(" of ");
    push_number(&mut message, total);
    message
}

/// All inputs of a job make one output.
pub open spec fn merges(kind: ConversionKind, options: ConversionOptions) -> bool {
    kind == ConversionKind::ImageToPdf && options.merge_images
}

/// Whether all inputs of a job make one output.
pub fn is_merged(kind: ConversionKind, options: &ConversionOptions) -> (r: bool)
    ensures
        r == merges(kind, *options),
{
    kind == ConversionKind::ImageToPdf && options.merge_images
}

/// What the outputs of a job are called, given the name of the first input
/// without its extension.
pub open spec fn stem_of(found: Option<Seq<char>>, merged: bool) -> Seq<char> {
    match (found, merged) {
        (Some(stem), false) => stem,
        (Some(stem), true) => stem + "-merged"@,
        (None, false) => "output"@,
        (None, true) => "images"@ + "-merged"@,
    }
}

/// What the outputs of a job are called.
pub fn output_stem(found: Option<String>, merged: bool) -> (r: String)
    ensures
        r@ == stem_of(
            match found {
                Some(stem) => Some(stem@),
                None => None,
            },
            merged,
        ),
{
    let mut stem: String = match found {
        Some(stem) => stem,
        None => if merged {
            "images".to_owned()
        } else {
            "output".to_owned()
        },
    };
    if merged {
        stem.push_str("-merged");
    }
    stem
}

} // verus!
