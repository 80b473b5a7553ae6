//! The kinds of conversions.

use vstd::prelude::*;

use crate::render::ImageFormat;
use crate::text;
use crate::text::{same, to_lower};

verus! {

/// What is converted, and to what.
#[derive(Debug, Clone, Copy, PartialEq, Eq, Structural)]
pub enum ConversionKind {
    PdfToDoc,
    PdfToDocx,
    PdfToOdt,
    PdfToOdp,
    PdfToRtf,
    PdfToFlatOdtXml,
    DocToPdf,
    DocxToPdf,
    OdtToPdf,
    PdfToImage,
    PdfToTxt,
    PdfToMarkdown,
    MarkdownToPdf,
    TxtToPdf,
    RtfToPdf,
    PdfToPpt,
    PdfToPptx,
    ImageToPdf,
    SvgToPdf,
    HtmlToPdf,
    PptToPdf,
    PptxToPdf,
    OdpToPdf,
    XlsxToPdf,
    OdsToPdf,
}

/// The systems on which the rules differ.
#[derive(Debug, Clone, Copy, PartialEq, Eq, Structural)]
pub enum Platform {
    Windows,
    Other,
}

/// Jobs of one lane share a number of places.
#[derive(Debug, Clone, Copy, PartialEq, Eq, Structural)]
pub enum JobLane {
    TextAndImage,
    Document,
    NativeRender,
}

impl JobLane {
    pub open spec fn for_kind_spec(kind: ConversionKind, platform: Platform) -> JobLane {
        match kind {
            ConversionKind::PdfToImage => if platform == Platform::Windows {
                JobLane::NativeRender
            } else {
                JobLane::TextAndImage
            },
            ConversionKind::PdfToTxt
            | ConversionKind::PdfToMarkdown
            | ConversionKind::ImageToPdf
            | ConversionKind::SvgToPdf => JobLane::TextAndImage,
            _ => JobLane::Document,
        }
    }

    /// The lane in which a conversion runs.
    pub fn for_kind(kind: ConversionKind, platform: Platform) -> (r: JobLane)
        ensures
            r == JobLane::for_kind_spec(kind, platform),
    {
        match kind {
            ConversionKind::PdfToImage => match platform {
                Platform::Windows => JobLane::NativeRender,
                Platform::Other => JobLane::TextAndImage,
            },
            ConversionKind::PdfToTxt
            | ConversionKind::PdfToMarkdown
            | ConversionKind::ImageToPdf
            | ConversionKind::SvgToPdf => JobLane::TextAndImage,
            _ => JobLane::Document,
        }
    }

    pub open spec fn limit_spec(self) -> usize {
        match self {
            JobLane::TextAndImage => 2,
            JobLane::Document => 1,
            JobLane::NativeRender => 1,
        }
    }

    /// How many jobs run in a lane at a time.
    pub fn limit(self) -> (r: usize)
        ensures
            r == self.limit_spec(),
    {
        match self {
            JobLane::TextAndImage => 2,
            JobLane::Document => 1,
            JobLane::NativeRender => 1,
        }
    }
}

/// How many jobs run in each lane.
#[derive(Debug)]
pub struct JobLaneCounts {
    text_and_image: usize,
    document: usize,
    native_render: usize,
}

impl View for JobLaneCounts {
    type V = Map<JobLane, nat>;

    closed spec fn view(&self) -> Map<JobLane, nat> {
        Map::new(
            |lane: JobLane| true,
            |lane: JobLane|
                match lane {
                    JobLane::TextAndImage => self.text_and_image as nat,
                    JobLane::Document => self.document as nat,
                    JobLane::NativeRender => self.native_render as nat,
                },
        )
    }
}

impl JobLaneCounts {
    /// No lane has more jobs than its limit.
    pub open spec fn wf(self) -> bool {
        &&& forall|lane: JobLane| self@.dom().contains(lane)
        &&& forall|lane: JobLane| #[trigger] self@[lane] <= lane.limit_spec()
    }

    pub fn new() -> (r: JobLaneCounts)
        ensures
            r.wf(),
            forall|lane: JobLane| r@[lane] == 0,
    {
        JobLaneCounts { text_and_image: 0, document: 0, native_render: 0 }
    }

    /// Takes a place in a lane, if one is left.
    pub fn enter(&mut self, lane: JobLane) -> (r: bool)
        requires
            old(self).wf(),
        ensures
            final(self).wf(),
            r == (old(self)@[lane] < lane.limit_spec()),
            final(self)@ == if r {
                old(self)@.insert(lane, old(self)@[lane] + 1)
            } else {
                old(self)@
            },
    {
        let ghost before = self@;
        assert(before[lane] <= lane.limit_spec());
        let active: usize = match lane {
            JobLane::TextAndImage => self.text_and_image,
            JobLane::Document => self.document,
            JobLane::NativeRender => self.native_render,
        };
        if active < lane.limit() {
            match lane {
                JobLane::TextAndImage => {
                    self.text_and_image = active + 1;
                },
                JobLane::Document => {
                    self.document = active + 1;
                },
                JobLane::NativeRender => {
                    self.native_render = active + 1;
                },
            }
            assert(self@ =~= before.insert(lane, before[lane] + 1));
            true
        } else {
            false
        }
    }

    /// Gives a place in a lane back.
    pub fn leave(&mut self, lane: JobLane)
        requires
            old(self).wf(),
        ensures
            final(self).wf(),
            final(self)@ == old(self)@.insert(
                lane,
                if old(self)@[lane] == 0 {
                    0
                } else {
                    (old(self)@[lane] - 1) as nat
                },
            ),
    {
        let ghost before = self@;
        assert(before[lane] <= lane.limit_spec());
        match lane {
            JobLane::TextAndImage => {
                self.text_and_image = self.text_and_image.saturating_sub(1);
            },
            JobLane::Document => {
                self.document = self.document.saturating_sub(1);
            },
            JobLane::NativeRender => {
                self.native_render = self.native_render.saturating_sub(1);
            },
        }
        assert(self@ =~= before.insert(
            lane,
            if before[lane] == 0 {
                0
            } else {
                (before[lane] - 1) as nat
            },
        ));
    }
}

/// Whoever takes a place and gives it back leaves the lanes as they were.
pub proof fn law_leaving_undoes_entering(counts: Map<JobLane, nat>, lane: JobLane)
    requires
        counts.dom().contains(lane),
        counts[lane] < lane.limit_spec(),
    ensures
        ({
            let entered = counts.insert(lane, counts[lane] + 1);
            entered.insert(lane, (entered[lane] - 1) as nat) == counts
        }),
{
    let entered = counts.insert(lane, counts[lane] + 1);
    assert(entered.insert(lane, (entered[lane] - 1) as nat) =~= counts);
}

/// The extensions, in small letters, of the files that a conversion reads.
pub open spec fn input_extensions(kind: ConversionKind) -> Seq<Seq<char>> {
    match kind {
        ConversionKind::DocToPdf => seq!["doc"@],
        ConversionKind::DocxToPdf => seq!["docx"@],
        ConversionKind::TxtToPdf => seq!["txt"@],
        ConversionKind::RtfToPdf => seq!["rtf"@],
        ConversionKind::OdtToPdf => seq!["odt"@],
        ConversionKind::PptToPdf => seq!["ppt"@],
        ConversionKind::PptxToPdf => seq!["pptx"@],
        ConversionKind::OdpToPdf => seq!["odp"@],
        ConversionKind::XlsxToPdf => seq!["xlsx"@],
        ConversionKind::OdsToPdf => seq!["ods"@],
        ConversionKind::HtmlToPdf => seq!["html"@, "htm"@],
        ConversionKind::MarkdownToPdf => seq!["md"@, "markdown"@],
        ConversionKind::SvgToPdf => seq!["svg"@],
        ConversionKind::ImageToPdf =>
            seq!["png"@, "jpg"@, "jpeg"@, "bmp"@, "gif"@, "webp"@, "tif"@, "tiff"@],
        _ => seq!["pdf"@],
    }
}

/// A conversion reads files with the given extension, in letters of either case.
pub open spec fn supported(kind: ConversionKind, extension: Seq<char>) -> bool {
    input_extensions(kind).contains(text::lowered(extension))
}

fn extensions_of(kind: ConversionKind) -> (r: Vec<&'static str>)
    ensures
        r@.len() == input_extensions(kind).len(),
        forall|i: int| 0 <= i < r@.len() ==> (#[trigger] r@[i])@ == input_extensions(kind)[i],
{
    match kind {
        ConversionKind::DocToPdf => vec!["doc"],
        ConversionKind::DocxToPdf => vec!["docx"],
        ConversionKind::TxtToPdf => vec!["txt"],
        ConversionKind::RtfToPdf => vec!["rtf"],
        ConversionKind::OdtToPdf => vec!["odt"],
        ConversionKind::PptToPdf => vec!["ppt"],
        ConversionKind::PptxToPdf => vec!["pptx"],
        ConversionKind::OdpToPdf => vec!["odp"],
        ConversionKind::XlsxToPdf => vec!["xlsx"],
        ConversionKind::OdsToPdf => vec!["ods"],
        ConversionKind::HtmlToPdf => vec!["html", "htm"],
        ConversionKind::MarkdownToPdf => vec!["md", "markdown"],
        ConversionKind::SvgToPdf => vec!["svg"],
        ConversionKind::ImageToPdf =>
            vec!["png", "jpg", "jpeg", "bmp", "gif", "webp", "tif", "tiff"],
        _ => vec!["pdf"],
    }
}

/// A conversion reads files with the given extension, in letters of either case.
pub fn supports_extension(kind: ConversionKind, extension: &str) -> (r: bool)
    ensures
        r == supported(kind, extension@),
{
    let name = to_lower(extension);
    let known = extensions_of(kind);
    let ghost all = input_extensions(kind);
    let mut i: usize = 0;
    while i < known.len()
        invariant
            i <= known@.len(),
            known@.len() == all.len(),
            all == input_extensions(kind),
            name@ == text::lowered(extension@),
            forall|k: int| 0 <= k < known@.len() ==> (#[trigger] known@[k])@ == all[k],
            forall|k: int| 0 <= k < i ==> #[trigger] all[k] != name@,
        decreases known@.len() - i,
    {
        if same(name.as_str(), known[i]) {
            assert(all[i as int] == name@);
            return true;
        }
        assert(known@[i as int]@ == all[i as int]);
        i += 1;
    }
    false
}

/// The extension of the files that a conversion writes.
pub open spec fn output_extension_spec(
    kind: ConversionKind,
    format: Option<ImageFormat>,
) -> Seq<char> {
    match kind {
        ConversionKind::PdfToDoc => "doc"@,
        ConversionKind::PdfToDocx => "docx"@,
        ConversionKind::PdfToOdt => "odt"@,
        ConversionKind::PdfToOdp => "odp"@,
        ConversionKind::PdfToRtf => "rtf"@,
        ConversionKind::PdfToFlatOdtXml => "xml"@,
        ConversionKind::PdfToImage => match format {
            Some(ImageFormat::Jpg) => "jpg"@,
            Some(ImageFormat::Bmp) => "bmp"@,
            Some(ImageFormat::Gif) => "gif"@,
            Some(ImageFormat::Webp) => "webp"@,
            Some(ImageFormat::Tiff) => "tiff"@,
            _ => "png"@,
        },
        ConversionKind::PdfToTxt => "txt"@,
        ConversionKind::PdfToMarkdown => "md"@,
        ConversionKind::PdfToPptx => "pptx"@,
        ConversionKind::PdfToPpt => "ppt"@,
        _ => "pdf"@,
    }
}

/// The extension of the files that a conversion writes.
pub fn output_extension(kind: ConversionKind, format: Option<ImageFormat>) -> (r: &'static str)
    ensures
        r@ == output_extension_spec(kind, format),
{
    match kind {
        ConversionKind::PdfToDoc => "doc",
        ConversionKind::PdfToDocx => "docx",
        ConversionKind::PdfToOdt => "odt",
        ConversionKind::PdfToOdp => "odp",
        ConversionKind::PdfToRtf => "rtf",
        ConversionKind::PdfToFlatOdtXml => "xml",
        ConversionKind::PdfToImage => match format {
            Some(ImageFormat::Jpg) => "jpg",
            Some(ImageFormat::Bmp) => "bmp",
            Some(ImageFormat::Gif) => "gif",
            Some(ImageFormat::Webp) => "webp",
            Some(ImageFormat::Tiff) => "tiff",
            _ => "png",
        },
        ConversionKind::PdfToTxt => "txt",
        ConversionKind::PdfToMarkdown => "md",
        ConversionKind::PdfToPptx => "pptx",
        ConversionKind::PdfToPpt => "ppt",
        _ => "pdf",
    }
}

proof fn lemma_extensions()
    ensures
        "doc"@ == seq!['d', 'o', 'c'],
        "docx"@ == seq!['d', 'o', 'c', 'x'],
        "odt"@ == seq!['o', 'd', 't'],
        "odp"@ == seq!['o', 'd', 'p'],
        "ods"@ == seq!['o', 'd', 's'],
        "rtf"@ == seq!['r', 't', 'f'],
        "xml"@ == seq!['x', 'm', 'l'],
        "txt"@ == seq!['t', 'x', 't'],
        "md"@ == seq!['m', 'd'],
        "ppt"@ == seq!['p', 'p', 't'],
        "pptx"@ == seq!['p', 'p', 't', 'x'],
        "xlsx"@ == seq!['x', 'l', 's', 'x'],
        "pdf"@ == seq!['p', 'd', 'f'],
        "html"@ == seq!['h', 't', 'm', 'l'],
        "svg"@ == seq!['s', 'v', 'g'],
        "png"@ == seq!['p', 'n', 'g'],
        "jpg"@ == seq!['j', 'p', 'g'],
        "bmp"@ == seq!['b', 'm', 'p'],
        "gif"@ == seq!['g', 'i', 'f'],
        "webp"@ == seq!['w', 'e', 'b', 'p'],
        "tiff"@ == seq!['t', 'i', 'f', 'f'],
{
    reveal_strlit("doc");
    reveal_strlit("docx");
    reveal_strlit("odt");
    reveal_strlit("odp");
    reveal_strlit("ods");
    reveal_strlit("rtf");
    reveal_strlit("xml");
    reveal_strlit("txt");
    reveal_strlit("md");
    reveal_strlit("ppt");
    reveal_strlit("pptx");
    reveal_strlit("xlsx");
    reveal_strlit("pdf");
    reveal_strlit("html");
    reveal_strlit("svg");
    reveal_strlit("png");
    reveal_strlit("jpg");
    reveal_strlit("bmp");
    reveal_strlit("gif");
    reveal_strlit("webp");
    reveal_strlit("tiff");
    assert("doc"@ =~= seq!['d', 'o', 'c']);
    assert("docx"@ =~= seq!['d', 'o', 'c', 'x']);
    assert("odt"@ =~= seq!['o', 'd', 't']);
    assert("odp"@ =~= seq!['o', 'd', 'p']);
    assert("ods"@ =~= seq!['o', 'd', 's']);
    assert("rtf"@ =~= seq!['r', 't', 'f']);
    assert("xml"@ =~= seq!['x', 'm', 'l']);
    assert("txt"@ =~= seq!['t', 'x', 't']);
    assert("md"@ =~= seq!['m', 'd']);
    assert("ppt"@ =~= seq!['p', 'p', 't']);
    assert("pptx"@ =~= seq!['p', 'p', 't', 'x']);
    assert("xlsx"@ =~= seq!['x', 'l', 's', 'x']);
    assert("pdf"@ =~= seq!['p', 'd', 'f']);
    assert("html"@ =~= seq!['h', 't', 'm', 'l']);
    assert("svg"@ =~= seq!['s', 'v', 'g']);
    assert("png"@ =~= seq!['p', 'n', 'g']);
    assert("jpg"@ =~= seq!['j', 'p', 'g']);
    assert("bmp"@ =~= seq!['b', 'm', 'p']);
    assert("gif"@ =~= seq!['g', 'i', 'f']);
    assert("webp"@ =~= seq!['w', 'e', 'b', 'p']);
    assert("tiff"@ =~= seq!['t', 'i', 'f', 'f']);
}

/// A conversion reads PDF files or writes them, never both: what it writes is a
/// PDF file unless that is all it reads.
pub proof fn law_one_side_of_a_conversion_is_pdf(kind: ConversionKind, format: Option<ImageFormat>)
    ensures
        input_extensions(kind).len() > 0,
        (input_extensions(kind) == seq![seq!['p', 'd', 'f']]) <==> output_extension_spec(
            kind,
            format,
        ) != seq!['p', 'd', 'f'],
{
    lemma_extensions();
    let list = input_extensions(kind);
    let pdf = seq!['p', 'd', 'f'];
    let out = output_extension_spec(kind, format);
    if list == seq![pdf] {
        assert(list[0] == pdf);
    }
    assert(out.len() == 3 ==> out == pdf || out[0] != 'p' || out[1] != 'd' || out[2] != 'f');
    assert(list[0].len() == 3 ==> list[0] == pdf || list[0][0] != 'p' || list[0][1] != 'd'
        || list[0][2] != 'f');
    assert(pdf.len() == 3 && pdf[0] == 'p' && pdf[1] == 'd' && pdf[2] == 'f');
    if list[0] == pdf {
        assert(list =~= seq![pdf]);
    }
}

/// The conversion back of one that writes another format than PDF, where there
/// is one.
pub open spec fn way_back(kind: ConversionKind) -> Option<ConversionKind> {
    match kind {
        ConversionKind::PdfToDoc => Some(ConversionKind::DocToPdf),
        ConversionKind::PdfToDocx => Some(ConversionKind::DocxToPdf),
        ConversionKind::PdfToOdt => Some(ConversionKind::OdtToPdf),
        ConversionKind::PdfToOdp => Some(ConversionKind::OdpToPdf),
        ConversionKind::PdfToRtf => Some(ConversionKind::RtfToPdf),
        ConversionKind::PdfToImage => Some(ConversionKind::ImageToPdf),
        ConversionKind::PdfToTxt => Some(ConversionKind::TxtToPdf),
        ConversionKind::PdfToMarkdown => Some(ConversionKind::MarkdownToPdf),
        ConversionKind::PdfToPptx => Some(ConversionKind::PptxToPdf),
        ConversionKind::PdfToPpt => Some(ConversionKind::PptToPdf),
        _ => None,
    }
}

proof fn lemma_small(s: Seq<char>)
    requires
        forall|i: int| 0 <= i < s.len() ==> 'a' <= #[trigger] s[i] <= 'z',
    ensures
        text::lowered(s) == s,
{
    assert(text::lowered(s) =~= s);
}

/// What a conversion writes is read by the conversion back, and images are
/// named after their format.
pub proof fn law_the_way_back_reads_what_was_written(
    kind: ConversionKind,
    format: ImageFormat,
)
    ensures
        way_back(kind) matches Some(back) ==> supported(
            back,
            output_extension_spec(kind, Some(format)),
        ),
        output_extension_spec(ConversionKind::PdfToImage, Some(format)) == format.extension_spec(),
{
    lemma_extensions();
    if let Some(back) = way_back(kind) {
        let out = output_extension_spec(kind, Some(format));
        lemma_small(out);
        let list = input_extensions(back);
        if kind == ConversionKind::PdfToImage {
            assert(list[0] == "png"@ && list[1] == "jpg"@ && list[3] == "bmp"@ && list[4] == "gif"@
                && list[5] == "webp"@ && list[7] == "tiff"@);
        } else {
            assert(list[0] == out);
        }
    }
}

} // verus!
