//! Packaging images as a presentation.

use vstd::prelude::*;
use vstd::utf8::*;

use crate::archive;
use crate::archive::{add_part, finish_archive, new_archive, ArchiveWriter};
use crate::pptx::image_file::{
    image_dimensions, image_size, open_image, refusal, valid_dimensions, valid_dimensions_spec,
    ImageInput, Mishap, PptxError,
};
use crate::pptx::parts;
use crate::pptx::parts::{placement, Canvas, SlideImageFormat};
use crate::stopping;
use crate::text;
use crate::text::push_number;

verus! {

/// The largest number of slides.
pub const MAX_SLIDES: usize = 200;

/// The largest size of an XML part.
pub const MAX_XML_BYTES: u64 = 16_777_216;

/// The largest size of a package.
pub const MAX_ZIP32_OFFSET: u64 = 4_294_967_294;

/// The long side of a slide, in 914400ths of an inch.
pub const SLIDE_LONG_SIDE: u64 = 12_192_000;

/// The least side of a slide.
pub const SLIDE_MIN_SIDE: u64 = 914_400;

/// What is set aside for the headers of a part.
pub const PART_OVERHEAD: u64 = 256;

/// One page: where its image is, and what size the image has.
#[derive(Debug)]
pub struct SlideImage {
    pub path: String,
    pub width: u32,
    pub height: u32,
    pub format: SlideImageFormat,
}

/// The size of an image that is taken.
pub open spec fn taken_size(input: Result<ImageInput, String>, format: SlideImageFormat) -> Result<
    (u32, u32),
    Mishap,
> {
    match input {
        Err(message) => Err(Mishap::Io(message@)),
        Ok(input) => match refusal(input) {
            Some(mishap) => Err(mishap),
            None => match image_size(input.data@, format, input.length) {
                None => Err(Mishap::InvalidImage),
                Some(size) => Ok(size),
            },
        },
    }
}

fn take_size(input: &Result<ImageInput, String>, format: SlideImageFormat) -> (r: Result<
    (u32, u32),
    PptxError,
>)
    ensures
        match taken_size(*input, format) {
            Ok(size) => r is Ok && r->Ok_0 == size,
            Err(mishap) => r is Err && r->Err_0@ == mishap,
        },
{
    match input {
        Err(message) => Err(PptxError::Io(message.as_str().to_owned())),
        Ok(input) => {
            match open_image(input) {
                Err(error) => Err(error),
                Ok(()) => image_dimensions(input.data.as_slice(), format, input.length),
            }
        },
    }
}

impl SlideImage {
    /// The page whose image was found at `path`.
    pub fn from_file(
        path: String,
        format: SlideImageFormat,
        input: &Result<ImageInput, String>,
    ) -> (r: Result<SlideImage, PptxError>)
        ensures
            match taken_size(*input, format) {
                Err(mishap) => r is Err && r->Err_0@ == mishap,
                Ok((width, height)) => if valid_dimensions_spec(width, height) {
                    &&& r is Ok
                    &&& r->Ok_0.path@ == path@
                    &&& r->Ok_0.width == width
                    &&& r->Ok_0.height == height
                    &&& r->Ok_0.format == format
                } else {
                    r is Err && r->Err_0@ == Mishap::InvalidDimensions
                },
            },
    {
        match take_size(input, format) {
            Err(error) => Err(error),
            Ok((width, height)) => {
                if !valid_dimensions(width, height) {
                    return Err(PptxError::InvalidDimensions);
                }
                Ok(SlideImage { path, width, height, format })
            },
        }
    }
}

/// The size of the slides, which have the shape of the first page.
pub open spec fn canvas_for(width: u32, height: u32) -> Canvas {
    if width >= height {
        Canvas {
            width: SLIDE_LONG_SIDE,
            height: (SLIDE_LONG_SIDE * height / (width as int)) as u64,
        }
    } else {
        Canvas {
            width: (SLIDE_LONG_SIDE * width / (height as int)) as u64,
            height: SLIDE_LONG_SIDE,
        }
    }
}

pub open spec fn all_valid(slides: Seq<SlideImage>) -> bool {
    forall|i: int|
        0 <= i < slides.len() ==> #[trigger] valid_dimensions_spec(
            slides[i].width,
            slides[i].height,
        )
}

/// The size of the slides, where the pages are taken.
pub open spec fn slides_canvas(slides: Seq<SlideImage>) -> Result<Canvas, Mishap> {
    if slides.len() == 0 || slides.len() > MAX_SLIDES {
        Err(Mishap::SlideLimit)
    } else if !all_valid(slides) {
        Err(Mishap::InvalidDimensions)
    } else {
        let canvas = canvas_for(slides[0].width, slides[0].height);
        if canvas.width < SLIDE_MIN_SIDE || canvas.height < SLIDE_MIN_SIDE {
            Err(Mishap::InvalidDimensions)
        } else {
            Ok(canvas)
        }
    }
}

/// Neither side of the slides is longer than the long side.
pub proof fn law_canvas_is_bounded(width: u32, height: u32)
    requires
        width > 0,
        height > 0,
    ensures
        canvas_for(width, height).width <= SLIDE_LONG_SIDE,
        canvas_for(width, height).height <= SLIDE_LONG_SIDE,
        canvas_for(width, height).width == SLIDE_LONG_SIDE || canvas_for(width, height).height
            == SLIDE_LONG_SIDE,
{
    let w = width as int;
    let h = height as int;
    if w >= h {
        assert(0 <= 12_192_000 * h / w <= 12_192_000) by (nonlinear_arith)
            requires
                0 < h <= w,
        ;
    } else {
        assert(0 <= 12_192_000 * w / h <= 12_192_000) by (nonlinear_arith)
            requires
                0 < w <= h,
        ;
    }
}

/// Decides on the size of the slides.
pub fn validate_slides(slides: &Vec<SlideImage>) -> (r: Result<Canvas, PptxError>)
    ensures
        match slides_canvas(slides@) {
            Ok(canvas) => r is Ok && r->Ok_0 == canvas,
            Err(mishap) => r is Err && r->Err_0@ == mishap,
        },
{
    if slides.len() == 0 || slides.len() > MAX_SLIDES {
        return Err(PptxError::SlideLimit);
    }
    let mut i: usize = 0;
    while i < slides.len()
        invariant
            i <= slides.len() <= MAX_SLIDES,
            forall|j: int|
                0 <= j < i ==> #[trigger] valid_dimensions_spec(slides[j].width, slides[j].height),
        decreases slides.len() - i,
    {
        if !valid_dimensions(slides[i].width, slides[i].height) {
            assert(!all_valid(slides@)) by {
                assert(!valid_dimensions_spec(slides[i as int].width, slides[i as int].height));
            }
            return Err(PptxError::InvalidDimensions);
        }
        i += 1;
    }
    let first: u64 = slides[0].width as u64;
    let second: u64 = slides[0].height as u64;
    proof {
        let w = slides[0].width;
        let h = slides[0].height;
        assert(valid_dimensions_spec(w, h));
        assert(w > 0 && h > 0) by (nonlinear_arith)
            requires
                w * h > 0,
                w >= 0,
                h >= 0,
        ;
        law_canvas_is_bounded(w, h);
    }
    let canvas = if first >= second {
        Canvas { width: SLIDE_LONG_SIDE, height: SLIDE_LONG_SIDE * second / first }
    } else {
        Canvas { width: SLIDE_LONG_SIDE * first / second, height: SLIDE_LONG_SIDE }
    };
    assert(canvas == canvas_for(slides[0].width, slides[0].height));
    if canvas.width < SLIDE_MIN_SIDE || canvas.height < SLIDE_MIN_SIDE {
        return Err(PptxError::InvalidDimensions);
    }
    Ok(canvas)
}

/// The parts of a package, and the room that they need.
pub struct Contents {
    pub parts: Seq<(Seq<char>, Seq<u8>)>,
    pub size: int,
}

impl Contents {
    pub open spec fn empty() -> Contents {
        Contents { parts: Seq::empty(), size: 0 }
    }

    /// The room that is needed with one more part.
    pub open spec fn size_with(self, name: Seq<char>, length: int) -> int {
        self.size + length + encode_utf8(name).len() + PART_OVERHEAD
    }

    pub open spec fn fits(self, name: Seq<char>, length: int) -> bool {
        encode_utf8(name).len() <= 65535 && self.size_with(name, length) <= MAX_ZIP32_OFFSET
    }

    /// The archive refuses a part of that name: there is one already, or the
    /// name is too long.
    pub open spec fn refuses(self, name: Seq<char>) -> bool {
        archive::is_used(self.parts, name) || encode_utf8(name).len() >= archive::NAME_BOUND
    }

    pub open spec fn with_part(self, name: Seq<char>, content: Seq<u8>) -> Contents {
        Contents {
            parts: self.parts.push((name, content)),
            size: self.size_with(name, content.len() as int),
        }
    }

    /// With an XML part, if there is room for it.
    pub open spec fn with_text(self, name: Seq<char>, xml: Seq<char>) -> Option<Contents> {
        let content = encode_utf8(xml);
        if content.len() > MAX_XML_BYTES || !self.fits(name, content.len() as int) {
            None
        } else {
            Some(self.with_part(name, content))
        }
    }

    /// With the first `n` of a list of XML parts.
    pub open spec fn with_texts(self, texts: Seq<(Seq<char>, Seq<char>)>, n: int) -> Option<
        Contents,
    >
        decreases n,
    {
        if n <= 0 {
            Some(self)
        } else {
            match self.with_texts(texts, n - 1) {
                None => None,
                Some(contents) => contents.with_text(texts[n - 1].0, texts[n - 1].1),
            }
        }
    }

    /// With an image that the package takes.
    pub open spec fn with_image(
        self,
        name: Seq<char>,
        slide: SlideImage,
        input: Result<ImageInput, String>,
    ) -> Result<Contents, Mishap> {
        match taken_size(input, slide.format) {
            Err(mishap) => Err(mishap),
            Ok(size) => if size != (slide.width, slide.height) {
                Err(Mishap::InvalidImage)
            } else if !self.fits(name, input->Ok_0.length as int) || input->Ok_0.data@.len()
                > input->Ok_0.length {
                Err(Mishap::PackageTooLarge)
            } else if input->Ok_0.data@.len() < input->Ok_0.length {
                Err(Mishap::InvalidImage)
            } else {
                Ok(self.with_part(name, input->Ok_0.data@))
            },
        }
    }
}

/// Whether a page has an image of the given kind.
pub open spec fn shows_format(slides: Seq<SlideImage>, format: SlideImageFormat) -> bool {
    exists|i: int| 0 <= i < slides.len() && (#[trigger] slides[i]).format == format
}

/// The parts that come before the slides.
pub open spec fn leading_texts(slides: Seq<SlideImage>, canvas: Canvas) -> Seq<
    (Seq<char>, Seq<char>),
> {
    let count = slides.len() as int;
    seq![
        (
            "[Content_Types].xml"@,
            parts::types_text(
                shows_format(slides, SlideImageFormat::Png),
                shows_format(slides, SlideImageFormat::Jpeg),
                count,
            ),
        ),
        ("_rels/.rels"@, parts::ROOT_RELS@),
        ("docProps/core.xml"@, parts::CORE_PROPS@),
        ("docProps/app.xml"@, parts::app_text(count)),
        ("ppt/presentation.xml"@, parts::presentation_text(count, canvas)),
        ("ppt/_rels/presentation.xml.rels"@, parts::relations_text(count)),
        ("ppt/slideMasters/slideMaster1.xml"@, parts::MASTER@),
        ("ppt/slideMasters/_rels/slideMaster1.xml.rels"@, parts::MASTER_RELS@),
        ("ppt/slideLayouts/slideLayout1.xml"@, parts::LAYOUT@),
        ("ppt/slideLayouts/_rels/slideLayout1.xml.rels"@, parts::LAYOUT_RELS@),
        ("ppt/theme/theme1.xml"@, parts::THEME@),
    ]
}

/// The XML parts of one slide.
pub open spec fn slide_texts(number: int, slide: SlideImage, canvas: Canvas) -> Seq<
    (Seq<char>, Seq<char>),
> {
    seq![
        (
            slide_name(number),
            parts::slide_text(number, placement(canvas, slide.width, slide.height)),
        ),
        (
            relations_name(number),
            parts::slide_relations_text(parts::media_name_spec(number, slide.format)),
        ),
    ]
}

/// Where the image of a slide is kept.
pub open spec fn media_path(number: int, format: SlideImageFormat) -> Seq<char> {
    "ppt/media/"@ + parts::media_name_spec(number, format)
}

/// The parts before the slides, if there is room for them.
pub open spec fn leading(slides: Seq<SlideImage>, canvas: Canvas) -> Result<Contents, Mishap> {
    match Contents::empty().with_texts(
        leading_texts(slides, canvas),
        leading_texts(slides, canvas).len() as int,
    ) {
        None => Err(Mishap::PackageTooLarge),
        Some(contents) => Ok(contents),
    }
}

/// One more slide.
pub open spec fn with_slide(
    contents: Contents,
    number: int,
    slide: SlideImage,
    canvas: Canvas,
    input: Result<ImageInput, String>,
) -> Result<Contents, Mishap> {
    match contents.with_texts(slide_texts(number, slide, canvas), 2) {
        None => Err(Mishap::PackageTooLarge),
        Some(contents) => contents.with_image(media_path(number, slide.format), slide, input),
    }
}

/// The package with as many slides as there are inputs.
pub open spec fn packed(
    slides: Seq<SlideImage>,
    canvas: Canvas,
    inputs: Seq<Result<ImageInput, String>>,
) -> Result<Contents, Mishap>
    decreases inputs.len(),
{
    if inputs.len() == 0 {
        leading(slides, canvas)
    } else {
        let n = inputs.len() as int;
        match packed(slides, canvas, inputs.drop_last()) {
            Err(mishap) => Err(mishap),
            Ok(contents) => with_slide(contents, n, slides[n - 1], canvas, inputs.last()),
        }
    }
}

/// `r` reports a cancellation, and `stop` has asked for one.
pub open spec fn halted<T, F: Fn() -> bool>(r: Result<T, PptxError>, stop: F) -> bool {
    &&& r is Err
    &&& r->Err_0@ == Mishap::Cancelled
    &&& stop.ensures((), true)
}

/// `r` reports that the archive could not be written.
pub open spec fn unwritten<T>(r: Result<T, PptxError>) -> bool {
    r is Err && r->Err_0@ is Io
}

/// A package that is being written.
pub struct PackageWriter {
    output: ArchiveWriter,
    estimated_size: u64,
}

impl View for PackageWriter {
    type V = Contents;

    closed spec fn view(&self) -> Contents {
        Contents { parts: archive::written_parts(&self.output), size: self.estimated_size as int }
    }
}

impl PackageWriter {
    /// Nothing has failed so far.
    pub closed spec fn wf(self) -> bool {
        archive::is_sound(&self.output)
    }

    pub fn new() -> (r: PackageWriter)
        ensures
            r.wf(),
            r@ == Contents::empty(),
    {
        PackageWriter { output: new_archive(), estimated_size: 0 }
    }

    /// Sets room aside for one more part.
    fn reserve(&mut self, name: &str, length: u64) -> (r: Result<(), PptxError>)
        ensures
            final(self).wf() == old(self).wf(),
            final(self)@.parts == old(self)@.parts,
            final(self)@.size >= 0,
            if old(self)@.fits(name@, length as int) {
                r is Ok && final(self)@.size == old(self)@.size_with(name@, length as int)
            } else {
                r is Err && r->Err_0@ == Mishap::PackageTooLarge
            },
    {
        let name_length: usize = name.as_bytes().len();
        if name_length > 65535 {
            return Err(PptxError::PackageTooLarge);
        }
        let needed: u64 = name_length as u64 + PART_OVERHEAD;
        if length > MAX_ZIP32_OFFSET - needed || self.estimated_size > MAX_ZIP32_OFFSET - needed
            - length {
            return Err(PptxError::PackageTooLarge);
        }
        self.estimated_size = self.estimated_size + needed + length;
        Ok(())
    }

    fn put<F: Fn() -> bool>(&mut self, name: &str, content: &[u8], should_stop: &F) -> (r: Result<
        (),
        PptxError,
    >)
        requires
            old(self).wf(),
            content@.len() < archive::CONTENT_BOUND,
            should_stop.requires(()),
        ensures
            halted(r, *should_stop) || if old(self)@.refuses(name@) {
                unwritten(r)
            } else {
                &&& r is Ok
                &&& final(self).wf()
                &&& final(self)@.parts == old(self)@.parts.push((name@, content@))
                &&& final(self)@.size == old(self)@.size
            },
    {
        if should_stop() {
            return Err(PptxError::Cancelled);
        }
        match add_part(&mut self.output, name, content) {
            Err(message) => Err(PptxError::Io(message)),
            Ok(()) => Ok(()),
        }
    }

    /// Adds an XML part.
    pub fn add_bytes<F: Fn() -> bool>(&mut self, name: &str, xml: &str, should_stop: &F) -> (r:
        Result<(), PptxError>)
        requires
            old(self).wf(),
            should_stop.requires(()),
        ensures
            halted(r, *should_stop) || match old(self)@.with_text(name@, xml@) {
                None => r is Err && r->Err_0@ == Mishap::PackageTooLarge,
                Some(contents) => if old(self)@.refuses(name@) {
                    unwritten(r)
                } else {
                    r is Ok && final(self).wf() && final(self)@ == contents
                },
            },
    {
        let content = xml.as_bytes();
        if content.len() as u64 > MAX_XML_BYTES {
            return Err(PptxError::PackageTooLarge);
        }
        match self.reserve(name, content.len() as u64) {
            Err(error) => {
                return Err(error);
            },
            Ok(()) => {},
        }
        self.put(name, content, should_stop)
    }

    /// Adds an image, if it is still what it was said to be.
    pub fn add_image<F: Fn() -> bool>(
        &mut self,
        name: &str,
        slide: &SlideImage,
        input: &Result<ImageInput, String>,
        should_stop: &F,
    ) -> (r: Result<(), PptxError>)
        requires
            old(self).wf(),
            should_stop.requires(()),
        ensures
            halted(r, *should_stop) || match old(self)@.with_image(name@, *slide, *input) {
                Err(mishap) => r is Err && r->Err_0@ == mishap,
                Ok(contents) => if old(self)@.refuses(name@) {
                    unwritten(r)
                } else {
                    r is Ok && final(self).wf() && final(self)@ == contents
                },
            },
    {
        match take_size(input, slide.format) {
            Err(error) => {
                return Err(error);
            },
            Ok((width, height)) => {
                if width != slide.width || height != slide.height {
                    return Err(PptxError::InvalidImage);
                }
            },
        }
        match input {
            Err(message) => Err(PptxError::Io(message.as_str().to_owned())),
            Ok(input) => {
                match self.reserve(name, input.length) {
                    Err(error) => {
                        return Err(error);
                    },
                    Ok(()) => {},
                }
                let length: u64 = input.data.len() as u64;
                if length > input.length {
                    return Err(PptxError::PackageTooLarge);
                }
                if length < input.length {
                    return Err(PptxError::InvalidImage);
                }
                self.put(name, input.data.as_slice(), should_stop)
            },
        }
    }

    /// Completes the archive, in which the parts are found unless there are too
    /// many of them.
    pub fn finish(self) -> (r: Result<Vec<u8>, PptxError>)
        requires
            self.wf(),
        ensures
            r is Ok,
            archive::is_moderate(self@.parts) ==> archive::holds_parts(r->Ok_0@, self@.parts),
    {
        match finish_archive(self.output) {
            Err(message) => Err(PptxError::Io(message)),
            Ok(file) => Ok(file),
        }
    }
}

fn has_format(slides: &Vec<SlideImage>, png: bool) -> (r: bool)
    ensures
        r == shows_format(
            slides@,
            if png {
                SlideImageFormat::Png
            } else {
                SlideImageFormat::Jpeg
            },
        ),
{
    let mut i: usize = 0;
    while i < slides.len()
        invariant
            i <= slides.len(),
            forall|j: int|
                0 <= j < i ==> (#[trigger] slides[j]).format != if png {
                    SlideImageFormat::Png
                } else {
                    SlideImageFormat::Jpeg
                },
        decreases slides.len() - i,
    {
        let wanted = match slides[i].format {
            SlideImageFormat::Png => png,
            SlideImageFormat::Jpeg => !png,
        };
        if wanted {
            return true;
        }
        i += 1;
    }
    false
}

/// The parts of a list.
pub open spec fn listed(list: Seq<(&'static str, String)>) -> Seq<(Seq<char>, Seq<char>)> {
    list.map_values(|part: (&'static str, String)| (part.0@, part.1@))
}

proof fn lemma_texts_stay_refused(
    contents: Contents,
    texts: Seq<(Seq<char>, Seq<char>)>,
    n: int,
    m: int,
)
    requires
        0 <= n <= m,
        contents.with_texts(texts, n) is None,
    ensures
        contents.with_texts(texts, m) is None,
    decreases m,
{
    if n < m {
        lemma_texts_stay_refused(contents, texts, n, m - 1);
    }
}

/// The names of the parts that come before the slides.
spec fn is_leading_name(name: Seq<char>) -> bool {
    ||| name == "[Content_Types].xml"@
    ||| name == "_rels/.rels"@
    ||| name == "docProps/core.xml"@
    ||| name == "docProps/app.xml"@
    ||| name == "ppt/presentation.xml"@
    ||| name == "ppt/_rels/presentation.xml.rels"@
    ||| name == "ppt/slideMasters/slideMaster1.xml"@
    ||| name == "ppt/slideMasters/_rels/slideMaster1.xml.rels"@
    ||| name == "ppt/slideLayouts/slideLayout1.xml"@
    ||| name == "ppt/slideLayouts/_rels/slideLayout1.xml.rels"@
    ||| name == "ppt/theme/theme1.xml"@
}

proof fn reveal_leading_names()
    ensures
        "[Content_Types].xml"@.len() == 19,
        "_rels/.rels"@.len() == 11,
        "docProps/core.xml"@.len() == 17,
        "docProps/app.xml"@.len() == 16,
        "ppt/presentation.xml"@.len() == 20,
        "ppt/_rels/presentation.xml.rels"@.len() == 31,
        "ppt/slideMasters/slideMaster1.xml"@.len() == 33,
        "ppt/slideMasters/_rels/slideMaster1.xml.rels"@.len() == 44,
        "ppt/slideLayouts/slideLayout1.xml"@.len() == 33,
        "ppt/slideLayouts/_rels/slideLayout1.xml.rels"@.len() == 44,
        "ppt/theme/theme1.xml"@.len() == 20,
        "[Content_Types].xml"@[0] == '[',
        "_rels/.rels"@[0] == '_',
        "docProps/core.xml"@[0] == 'd',
        "docProps/app.xml"@[0] == 'd',
        "ppt/presentation.xml"@[4] == 'p',
        "ppt/_rels/presentation.xml.rels"@[4] == '_',
        "ppt/slideMasters/slideMaster1.xml"@[4] == 's',
        "ppt/slideMasters/slideMaster1.xml"@[9] == 'M',
        "ppt/slideMasters/_rels/slideMaster1.xml.rels"@[4] == 's',
        "ppt/slideMasters/_rels/slideMaster1.xml.rels"@[9] == 'M',
        "ppt/slideLayouts/slideLayout1.xml"@[4] == 's',
        "ppt/slideLayouts/slideLayout1.xml"@[9] == 'L',
        "ppt/slideLayouts/_rels/slideLayout1.xml.rels"@[4] == 's',
        "ppt/slideLayouts/_rels/slideLayout1.xml.rels"@[9] == 'L',
        "ppt/theme/theme1.xml"@[4] == 't',
        is_ascii_chars("[Content_Types].xml"@),
        is_ascii_chars("_rels/.rels"@),
        is_ascii_chars("docProps/core.xml"@),
        is_ascii_chars("docProps/app.xml"@),
        is_ascii_chars("ppt/presentation.xml"@),
        is_ascii_chars("ppt/_rels/presentation.xml.rels"@),
        is_ascii_chars("ppt/slideMasters/slideMaster1.xml"@),
        is_ascii_chars("ppt/slideMasters/_rels/slideMaster1.xml.rels"@),
        is_ascii_chars("ppt/slideLayouts/slideLayout1.xml"@),
        is_ascii_chars("ppt/slideLayouts/_rels/slideLayout1.xml.rels"@),
        is_ascii_chars("ppt/theme/theme1.xml"@),
{
    reveal_strlit("[Content_Types].xml");
    reveal_strlit("_rels/.rels");
    reveal_strlit("docProps/core.xml");
    reveal_strlit("docProps/app.xml");
    reveal_strlit("ppt/presentation.xml");
    reveal_strlit("ppt/_rels/presentation.xml.rels");
    reveal_strlit("ppt/slideMasters/slideMaster1.xml");
    reveal_strlit("ppt/slideMasters/_rels/slideMaster1.xml.rels");
    reveal_strlit("ppt/slideLayouts/slideLayout1.xml");
    reveal_strlit("ppt/slideLayouts/_rels/slideLayout1.xml.rels");
    reveal_strlit("ppt/theme/theme1.xml");
}

proof fn lemma_leading_names(slides: Seq<SlideImage>, canvas: Canvas)
    ensures
        leading_texts(slides, canvas).len() == 11,
        forall|i: int, j: int|
            0 <= i < j < 11 ==> (#[trigger] leading_texts(slides, canvas)[i]).0 != (
            #[trigger] leading_texts(slides, canvas)[j]).0,
        forall|i: int|
            0 <= i < 11 ==> is_leading_name((#[trigger] leading_texts(slides, canvas)[i]).0),
{
    reveal_leading_names();
}

proof fn lemma_leading_name_is_short(name: Seq<char>)
    requires
        is_leading_name(name),
    ensures
        encode_utf8(name).len() < archive::NAME_BOUND,
{
    reveal_leading_names();
    is_ascii_chars_encode_utf8(name);
}

/// The names of the first `n` of a list of parts are used, and no others are.
proof fn lemma_texts_names(contents: Contents, texts: Seq<(Seq<char>, Seq<char>)>, n: int, k: int)
    requires
        0 <= n,
        contents.with_texts(texts, n) is Some,
        0 <= k < contents.with_texts(texts, n)->0.parts.len(),
    ensures
        contents.with_texts(texts, n)->0.parts.len() == contents.parts.len() + n,
        contents.with_texts(texts, n)->0.parts[k].0 == if k < contents.parts.len() {
            contents.parts[k].0
        } else {
            texts[k - contents.parts.len()].0
        },
    decreases n,
{
    if n > 0 {
        let before = contents.with_texts(texts, n - 1)->0;
        if before.parts.len() == 0 {
            lemma_texts_count(contents, texts, n - 1);
        } else if k < before.parts.len() {
            lemma_texts_names(contents, texts, n - 1, k);
        } else {
            lemma_texts_names(contents, texts, n - 1, 0);
        }
    }
}

proof fn lemma_texts_count(contents: Contents, texts: Seq<(Seq<char>, Seq<char>)>, n: int)
    requires
        0 <= n,
        contents.with_texts(texts, n) is Some,
    ensures
        contents.with_texts(texts, n)->0.parts.len() == contents.parts.len() + n,
    decreases n,
{
    if n > 0 {
        lemma_texts_count(contents, texts, n - 1);
    }
}

/// The next of the parts that come before the slides is taken.
proof fn lemma_leading_is_free(slides: Seq<SlideImage>, canvas: Canvas, n: int)
    requires
        0 <= n < leading_texts(slides, canvas).len(),
        Contents::empty().with_texts(leading_texts(slides, canvas), n) is Some,
    ensures
        !Contents::empty().with_texts(leading_texts(slides, canvas), n)->0.refuses(
            leading_texts(slides, canvas)[n].0,
        ),
{
    let texts = leading_texts(slides, canvas);
    let contents = Contents::empty().with_texts(texts, n)->0;
    lemma_leading_names(slides, canvas);
    lemma_leading_name_is_short(texts[n].0);
    lemma_texts_count(Contents::empty(), texts, n);
    assert forall|k: int| 0 <= k < contents.parts.len() implies (#[trigger] contents.parts[k]).0
        != texts[n].0 by {
        lemma_texts_names(Contents::empty(), texts, n, k);
    }
}

/// Begins a package with the parts that come before the slides.
pub fn start_package<F: Fn() -> bool>(
    slides: &Vec<SlideImage>,
    canvas: Canvas,
    should_stop: &F,
) -> (r: Result<PackageWriter, PptxError>)
    requires
        slides.len() <= MAX_SLIDES,
        should_stop.requires(()),
    ensures
        halted(r, *should_stop) || match leading(slides@, canvas) {
            Err(mishap) => r is Err && r->Err_0@ == mishap,
            Ok(contents) => r is Ok && r->Ok_0.wf() && r->Ok_0@ == contents,
        },
{
    let count: usize = slides.len();
    let png = has_format(slides, true);
    let jpg = has_format(slides, false);
    let list: Vec<(&'static str, String)> = vec![
        ("[Content_Types].xml", parts::content_types(png, jpg, count)),
        ("_rels/.rels", parts::ROOT_RELS.to_owned()),
        ("docProps/core.xml", parts::CORE_PROPS.to_owned()),
        ("docProps/app.xml", parts::app_xml(count)),
        ("ppt/presentation.xml", parts::presentation_xml(count, canvas)),
        ("ppt/_rels/presentation.xml.rels", parts::presentation_rels(count)),
        ("ppt/slideMasters/slideMaster1.xml", parts::MASTER.to_owned()),
        ("ppt/slideMasters/_rels/slideMaster1.xml.rels", parts::MASTER_RELS.to_owned()),
        ("ppt/slideLayouts/slideLayout1.xml", parts::LAYOUT.to_owned()),
        ("ppt/slideLayouts/_rels/slideLayout1.xml.rels", parts::LAYOUT_RELS.to_owned()),
        ("ppt/theme/theme1.xml", parts::THEME.to_owned()),
    ];
    let ghost texts = leading_texts(slides@, canvas);
    assert(listed(list@) =~= texts);
    let mut package = PackageWriter::new();
    let mut i: usize = 0;
    while i < list.len()
        invariant
            i <= list.len(),
            should_stop.requires(()),
            texts == leading_texts(slides@, canvas),
            texts == listed(list@),
            texts.len() == 11,
            package.wf(),
            Contents::empty().with_texts(texts, i as int) == Some(package@),
        decreases list.len() - i,
    {
        assert(texts[i as int] == (list[i as int].0@, list[i as int].1@));
        proof {
            lemma_leading_is_free(slides@, canvas, i as int);
        }
        match package.add_bytes(list[i].0, list[i].1.as_str(), should_stop) {
            Err(error) => {
                proof {
                    if Contents::empty().with_texts(texts, i + 1) is None {
                        lemma_texts_stay_refused(
                            Contents::empty(),
                            texts,
                            i + 1,
                            texts.len() as int,
                        );
                    }
                }
                return Err(error);
            },
            Ok(()) => {},
        }
        i += 1;
    }
    Ok(package)
}

/// The name of the XML part of a slide.
pub open spec fn slide_name(number: int) -> Seq<char> {
    "ppt/slides/slide"@ + text::number(number as nat) + ".xml"@
}

/// The name of the part that tells what a slide refers to.
pub open spec fn relations_name(number: int) -> Seq<char> {
    "ppt/slides/_rels/slide"@ + text::number(number as nat) + ".xml.rels"@
}

/// No part has a name that the slide needs.
pub open spec fn is_free(contents: Contents, number: int, format: SlideImageFormat) -> bool {
    &&& !archive::is_used(contents.parts, slide_name(number))
    &&& !archive::is_used(contents.parts, relations_name(number))
    &&& !archive::is_used(contents.parts, media_path(number, format))
}

/// Adds a slide and its image.
pub fn add_slide<F: Fn() -> bool>(
    package: &mut PackageWriter,
    number: usize,
    slide: &SlideImage,
    canvas: Canvas,
    input: &Result<ImageInput, String>,
    should_stop: &F,
) -> (r: Result<(), PptxError>)
    requires
        valid_dimensions_spec(slide.width, slide.height),
        canvas.width <= SLIDE_LONG_SIDE,
        canvas.height <= SLIDE_LONG_SIDE,
        old(package).wf(),
        is_free(old(package)@, number as int, slide.format),
        should_stop.requires(()),
    ensures
        halted(r, *should_stop) || match with_slide(
            old(package)@,
            number as int,
            *slide,
            canvas,
            *input,
        ) {
            Err(mishap) => r is Err && r->Err_0@ == mishap,
            Ok(contents) => r is Ok && final(package).wf() && final(package)@ == contents,
        },
{
    if should_stop() {
        return Err(PptxError::Cancelled);
    }
    proof {
        let w = slide.width;
        let h = slide.height;
        assert(w > 0 && h > 0) by (nonlinear_arith)
            requires
                w * h > 0,
                w >= 0,
                h >= 0,
        ;
        reveal_with_fuel(Contents::with_texts, 3);
        lemma_slide_names_differ(number as nat, slide.format);
        lemma_slide_names_are_short(number as nat, slide.format);
    }
    let xml = parts::slide_xml(number, slide.width, slide.height, canvas);
    let mut name = "ppt/slides/slide".to_owned();
    push_number(&mut name, number as u64);
    name.push_str(".xml");
    match package.add_bytes(name.as_str(), xml.as_str(), should_stop) {
        Err(error) => {
            return Err(error);
        },
        Ok(()) => {},
    }
    let media = parts::media_name(number, slide.format);
    let relations = parts::slide_rels(media.as_str());
    let mut name = "ppt/slides/_rels/slide".to_owned();
    push_number(&mut name, number as u64);
    name.push_str(".xml.rels");
    match package.add_bytes(name.as_str(), relations.as_str(), should_stop) {
        Err(error) => {
            return Err(error);
        },
        Ok(()) => {},
    }
    let mut name = "ppt/media/".to_owned();
    name.push_str(media.as_str());
    package.add_image(name.as_str(), slide, input, should_stop)
}

/// Every input was handed out by `read` for its slide.
pub open spec fn were_read<R: Fn(usize) -> Result<ImageInput, String>>(
    read: R,
    inputs: Seq<Result<ImageInput, String>>,
) -> bool {
    forall|i: int|
        0 <= i < inputs.len() ==> read.ensures((i as usize,), #[trigger] inputs[i])
}

/// What comes of a presentation when the images are the inputs. With fewer
/// inputs than slides, the last input was refused.
pub open spec fn presented(
    r: Result<Vec<u8>, PptxError>,
    slides: Seq<SlideImage>,
    canvas: Canvas,
    inputs: Seq<Result<ImageInput, String>>,
) -> bool {
    match packed(slides, canvas, inputs) {
        Err(mishap) => r is Err && r->Err_0@ == mishap,
        Ok(contents) => {
            &&& inputs.len() == slides.len()
            &&& r is Ok
            &&& archive::holds_parts(r->Ok_0@, contents.parts)
        },
    }
}

/// Writes a presentation with one image on each slide. Pages of other shapes are
/// fitted onto the shape of the first page. `read` fetches the image of the slide
/// with the given index.
pub fn write_image_pptx<R: Fn(usize) -> Result<ImageInput, String>, F: Fn() -> bool>(
    absolute: bool,
    in_directory: bool,
    slides: &Vec<SlideImage>,
    read: R,
    should_stop: F,
) -> (r: Result<Vec<u8>, PptxError>)
    requires
        should_stop.requires(()),
        forall|i: usize| i < slides.len() ==> #[trigger] read.requires((i,)),
    ensures
        !absolute || !in_directory ==> r is Err && r->Err_0@ == Mishap::InvalidOutputPath,
        absolute && in_directory && slides_canvas(slides@) is Ok && stopping::always(should_stop)
            ==> halted(r, should_stop),
        absolute && in_directory ==> match slides_canvas(slides@) {
            Err(mishap) => r is Err && r->Err_0@ == mishap,
            Ok(canvas) => halted(r, should_stop) || exists|
                inputs: Seq<Result<ImageInput, String>>,
            |
                #[trigger] were_read(read, inputs) && inputs.len() <= slides.len() && presented(
                    r,
                    slides@,
                    canvas,
                    inputs,
                ),
        },
{
    if !absolute || !in_directory {
        return Err(PptxError::InvalidOutputPath);
    }
    let canvas = match validate_slides(slides) {
        Err(error) => {
            return Err(error);
        },
        Ok(canvas) => canvas,
    };
    if should_stop() {
        return Err(PptxError::Cancelled);
    }
    let ghost mut inputs: Seq<Result<ImageInput, String>> = Seq::empty();
    proof {
        let w = slides[0].width;
        let h = slides[0].height;
        assert(valid_dimensions_spec(w, h));
        assert(w > 0 && h > 0) by (nonlinear_arith)
            requires
                w * h > 0,
                w >= 0,
                h >= 0,
        ;
        law_canvas_is_bounded(w, h);
    }
    let mut package = match start_package(slides, canvas, &should_stop) {
        Err(error) => {
            assert(were_read(read, inputs));
            return Err(error);
        },
        Ok(package) => package,
    };
    let mut i: usize = 0;
    while i < slides.len()
        invariant
            i <= slides.len() <= MAX_SLIDES,
            inputs.len() == i,
            should_stop.requires(()),
            forall|i: usize| i < slides.len() ==> #[trigger] read.requires((i,)),
            were_read(read, inputs),
            slides_canvas(slides@) == Ok::<Canvas, Mishap>(canvas),
            canvas.width <= SLIDE_LONG_SIDE,
            canvas.height <= SLIDE_LONG_SIDE,
            packed(slides@, canvas, inputs) == Ok::<Contents, Mishap>(package@),
            package.wf(),
            absolute && in_directory,
        decreases slides.len() - i,
    {
        if should_stop() {
            return Err(PptxError::Cancelled);
        }
        let input = read(i);
        proof {
            lemma_slide_is_free(slides@, canvas, inputs, i + 1, slides[i as int].format);
            let before = inputs;
            inputs = inputs.push(input);
            assert(inputs.drop_last() =~= before);
            assert(were_read(read, inputs));
            assert(valid_dimensions_spec(slides[i as int].width, slides[i as int].height));
        }
        match add_slide(&mut package, i + 1, &slides[i], canvas, &input, &should_stop) {
            Err(error) => {
                let r: Result<Vec<u8>, PptxError> = Err(error);
                assert(halted(r, should_stop) || presented(r, slides@, canvas, inputs));
                return r;
            },
            Ok(()) => {},
        }
        i += 1;
    }
    proof {
        lemma_packed_is_moderate(slides@, canvas, inputs);
    }
    let r = package.finish();
    if should_stop() {
        return Err(PptxError::Cancelled);
    }
    assert(presented(r, slides@, canvas, inputs));
    r
}

/// Numbers that are written alike are the same.
proof fn lemma_same_number(a: nat, b: nat, before: Seq<char>, after: Seq<char>)
    requires
        before + text::number(a) + after == before + text::number(b) + after,
    ensures
        a == b,
{
    let whole = before + text::number(a) + after;
    assert(text::number(a) =~= whole.subrange(
        before.len() as int,
        whole.len() - after.len(),
    ));
    assert(text::number(b) =~= whole.subrange(
        before.len() as int,
        whole.len() - after.len(),
    ));
    crate::bytes::law_decimal_round_trip(a);
    crate::bytes::law_decimal_round_trip(b);
    let m = crate::bytes::decimal(a);
    let n = crate::bytes::decimal(b);
    assert forall|i: int| 0 <= i < m.len() implies m[i] == n[i] by {
        assert(text::number(a)[i] == m[i] as char);
        assert(text::number(b)[i] == n[i] as char);
    }
    assert(m =~= n);
}

proof fn reveal_slide_names()
    ensures
        "ppt/slides/slide"@.len() == 16,
        "ppt/slides/slide"@[4] == 's',
        "ppt/slides/slide"@[9] == 's',
        "ppt/slides/slide"@[11] == 's',
        "ppt/slides/slide"@[0] == 'p',
        "ppt/slides/_rels/slide"@.len() == 22,
        "ppt/slides/_rels/slide"@[0] == 'p',
        "ppt/slides/_rels/slide"@[4] == 's',
        "ppt/slides/_rels/slide"@[9] == 's',
        "ppt/slides/_rels/slide"@[11] == '_',
        "ppt/media/"@.len() == 10,
        "ppt/media/"@[0] == 'p',
        "ppt/media/"@[4] == 'm',
        "page"@.len() == 4,
        "."@.len() == 1,
        ".xml"@.len() == 4,
        ".xml.rels"@.len() == 9,
        "png"@.len() == 3,
        "jpg"@.len() == 3,
        is_ascii_chars("ppt/slides/slide"@),
        is_ascii_chars("ppt/slides/_rels/slide"@),
        is_ascii_chars("ppt/media/"@),
        is_ascii_chars("page"@),
        is_ascii_chars("."@),
        is_ascii_chars(".xml"@),
        is_ascii_chars(".xml.rels"@),
        is_ascii_chars("png"@),
        is_ascii_chars("jpg"@),
{
    reveal_strlit("ppt/slides/slide");
    reveal_strlit("ppt/slides/_rels/slide");
    reveal_strlit("ppt/media/");
    reveal_strlit("page");
    reveal_strlit(".");
    reveal_strlit(".xml");
    reveal_strlit(".xml.rels");
    reveal_strlit("png");
    reveal_strlit("jpg");
}

/// The three names of a slide tell themselves apart.
proof fn lemma_slide_name_marks(number: nat, format: SlideImageFormat)
    ensures
        slide_name(number as int).len() > 11,
        slide_name(number as int)[0] == 'p',
        slide_name(number as int)[4] == 's',
        slide_name(number as int)[9] == 's',
        slide_name(number as int)[11] == 's',
        relations_name(number as int).len() > 11,
        relations_name(number as int)[0] == 'p',
        relations_name(number as int)[4] == 's',
        relations_name(number as int)[9] == 's',
        relations_name(number as int)[11] == '_',
        media_path(number as int, format).len() > 11,
        media_path(number as int, format)[0] == 'p',
        media_path(number as int, format)[4] == 'm',
{
    reveal_slide_names();
}

proof fn lemma_slide_names_differ(number: nat, format: SlideImageFormat)
    ensures
        slide_name(number as int) != relations_name(number as int),
        slide_name(number as int) != media_path(number as int, format),
        relations_name(number as int) != media_path(number as int, format),
{
    lemma_slide_name_marks(number, format);
}

proof fn lemma_slide_names_are_short(number: nat, format: SlideImageFormat)
    requires
        number <= u64::MAX,
    ensures
        encode_utf8(slide_name(number as int)).len() < archive::NAME_BOUND,
        encode_utf8(relations_name(number as int)).len() < archive::NAME_BOUND,
        encode_utf8(media_path(number as int, format)).len() < archive::NAME_BOUND,
{
    reveal_slide_names();
    crate::bytes::lemma_digits(number);
    crate::bytes::law_decimal_round_trip(number);
    let digits = crate::bytes::decimal(number);
    assert forall|i: int| 0 <= i < digits.len() implies '\0'
        <= #[trigger] text::number(number)[i] <= '\u{7f}' by {
        assert(text::number(number)[i] == digits[i] as char);
    }
    is_ascii_chars_encode_utf8(slide_name(number as int));
    is_ascii_chars_encode_utf8(relations_name(number as int));
    is_ascii_chars_encode_utf8(media_path(number as int, format));
}

/// A name of one of the first `n` slides, or of a part that comes before them.
spec fn is_name_up_to(name: Seq<char>, n: int) -> bool {
    ||| is_leading_name(name)
    ||| exists|k: int, format: SlideImageFormat|
        1 <= k <= n && #[trigger] is_name_of(name, k, format)
}

spec fn is_name_of(name: Seq<char>, number: int, format: SlideImageFormat) -> bool {
    name == slide_name(number) || name == relations_name(number) || name == media_path(
        number,
        format,
    )
}

/// The names of a package are those of its slides and of the parts before them.
proof fn lemma_packed_names(
    slides: Seq<SlideImage>,
    canvas: Canvas,
    inputs: Seq<Result<ImageInput, String>>,
    i: int,
)
    requires
        packed(slides, canvas, inputs) is Ok,
        0 <= i < packed(slides, canvas, inputs)->Ok_0.parts.len(),
    ensures
        is_name_up_to(packed(slides, canvas, inputs)->Ok_0.parts[i].0, inputs.len() as int),
    decreases inputs.len(),
{
    let n = inputs.len() as int;
    if n == 0 {
        lemma_leading_names(slides, canvas);
        lemma_texts_names(Contents::empty(), leading_texts(slides, canvas), 11, i);
    } else {
        let slide = slides[n - 1];
        let before = packed(slides, canvas, inputs.drop_last())->Ok_0;
        let texts = slide_texts(n, slide, canvas);
        let middle = before.with_texts(texts, 2)->0;
        let name = packed(slides, canvas, inputs)->Ok_0.parts[i].0;
        lemma_texts_count(before, texts, 2);
        if i < before.parts.len() {
            lemma_packed_names(slides, canvas, inputs.drop_last(), i);
            lemma_texts_names(before, texts, 2, i);
            if !is_leading_name(name) {
                let (k, format) = choose|k: int, format: SlideImageFormat|
                    1 <= k <= n - 1 && #[trigger] is_name_of(name, k, format);
                assert(is_name_of(name, k, format));
            }
        } else if i < middle.parts.len() {
            lemma_texts_names(before, texts, 2, i);
            assert(is_name_of(name, n, slide.format));
        } else {
            assert(is_name_of(name, n, slide.format));
        }
    }
}

proof fn lemma_names_of_slides_differ(
    name: Seq<char>,
    k: nat,
    n: nat,
    first: SlideImageFormat,
    second: SlideImageFormat,
)
    requires
        is_name_of(name, k as int, first),
        is_name_of(name, n as int, second),
    ensures
        k == n,
{
    reveal_slide_names();
    lemma_slide_name_marks(k, first);
    lemma_slide_name_marks(n, second);
    if name == slide_name(k as int) {
        lemma_same_number(k, n, "ppt/slides/slide"@, ".xml"@);
    } else if name == relations_name(k as int) {
        lemma_same_number(k, n, "ppt/slides/_rels/slide"@, ".xml.rels"@);
    } else {
        let end = "."@ + second.extension_spec();
        let start = "ppt/media/"@ + "page"@;
        assert(media_path(n as int, second) =~= start + text::number(n) + end);
        assert(media_path(k as int, first) =~= start + text::number(k) + ("."@
            + first.extension_spec()));
        assert(end =~= name.subrange(name.len() - 4, name.len() as int));
        assert("."@ + first.extension_spec() =~= name.subrange(
            name.len() - 4,
            name.len() as int,
        ));
        lemma_same_number(k, n, start, end);
    }
}

proof fn lemma_not_leading(name: Seq<char>, number: nat, format: SlideImageFormat)
    requires
        is_name_of(name, number as int, format),
    ensures
        !is_leading_name(name),
{
    reveal_leading_names();
    lemma_slide_name_marks(number, format);
}

/// The names of the next slide are free.
proof fn lemma_slide_is_free(
    slides: Seq<SlideImage>,
    canvas: Canvas,
    inputs: Seq<Result<ImageInput, String>>,
    number: int,
    format: SlideImageFormat,
)
    requires
        packed(slides, canvas, inputs) is Ok,
        number == inputs.len() + 1,
    ensures
        is_free(packed(slides, canvas, inputs)->Ok_0, number, format),
{
    let parts = packed(slides, canvas, inputs)->Ok_0.parts;
    assert forall|i: int| 0 <= i < parts.len() implies !is_name_of(
        (#[trigger] parts[i]).0,
        number,
        format,
    ) by {
        let name = parts[i].0;
        lemma_packed_names(slides, canvas, inputs, i);
        if is_name_of(name, number, format) {
            lemma_not_leading(name, number as nat, format);
            let (k, other) = choose|k: int, other: SlideImageFormat|
                1 <= k <= inputs.len() && #[trigger] is_name_of(name, k, other);
            lemma_names_of_slides_differ(name, k as nat, number as nat, other, format);
        }
    }
}

proof fn lemma_texts_keep(contents: Contents, texts: Seq<(Seq<char>, Seq<char>)>, n: int)
    requires
        contents.with_texts(texts, n) is Some,
    ensures
        contents.parts.is_prefix_of(contents.with_texts(texts, n)->0.parts),
    decreases n,
{
    if n > 0 {
        lemma_texts_keep(contents, texts, n - 1);
    }
}

/// The room that is set aside is enough for the archive.
spec fn has_room(contents: Contents) -> bool {
    &&& archive::records_size(contents.parts) <= contents.size
    &&& archive::table_size(contents.parts) <= contents.size
    &&& contents.size <= MAX_ZIP32_OFFSET
}

proof fn lemma_part_has_room(contents: Contents, name: Seq<char>, content: Seq<u8>)
    requires
        has_room(contents),
        contents.fits(name, content.len() as int),
    ensures
        has_room(contents.with_part(name, content)),
{
    let parts = contents.parts.push((name, content));
    assert(parts.drop_last() =~= contents.parts);
}

proof fn lemma_texts_have_room(contents: Contents, texts: Seq<(Seq<char>, Seq<char>)>, n: int)
    requires
        has_room(contents),
        0 <= n,
        contents.with_texts(texts, n) is Some,
    ensures
        has_room(contents.with_texts(texts, n)->0),
        contents.with_texts(texts, n)->0.parts.len() == contents.parts.len() + n,
    decreases n,
{
    if n > 0 {
        lemma_texts_have_room(contents, texts, n - 1);
        lemma_part_has_room(
            contents.with_texts(texts, n - 1)->0,
            texts[n - 1].0,
            encode_utf8(texts[n - 1].1),
        );
    }
}

proof fn lemma_packed_has_room(
    slides: Seq<SlideImage>,
    canvas: Canvas,
    inputs: Seq<Result<ImageInput, String>>,
)
    requires
        packed(slides, canvas, inputs) is Ok,
    ensures
        has_room(packed(slides, canvas, inputs)->Ok_0),
        packed(slides, canvas, inputs)->Ok_0.parts.len() == 11 + 3 * inputs.len(),
    decreases inputs.len(),
{
    let n = inputs.len() as int;
    if n == 0 {
        lemma_leading_names(slides, canvas);
        lemma_texts_have_room(Contents::empty(), leading_texts(slides, canvas), 11);
    } else {
        let slide = slides[n - 1];
        let texts = slide_texts(n, slide, canvas);
        lemma_packed_has_room(slides, canvas, inputs.drop_last());
        let before = packed(slides, canvas, inputs.drop_last())->Ok_0;
        lemma_texts_have_room(before, texts, 2);
        lemma_part_has_room(
            before.with_texts(texts, 2)->0,
            media_path(n, slide.format),
            inputs.last()->Ok_0.data@,
        );
    }
}

/// A package of as many slides as are taken is an archive of moderate size.
proof fn lemma_packed_is_moderate(
    slides: Seq<SlideImage>,
    canvas: Canvas,
    inputs: Seq<Result<ImageInput, String>>,
)
    requires
        packed(slides, canvas, inputs) is Ok,
        inputs.len() <= MAX_SLIDES,
    ensures
        archive::is_moderate(packed(slides, canvas, inputs)->Ok_0.parts),
{
    lemma_packed_has_room(slides, canvas, inputs);
}

proof fn lemma_image_is_packed(
    slides: Seq<SlideImage>,
    canvas: Canvas,
    inputs: Seq<Result<ImageInput, String>>,
    i: int,
)
    requires
        packed(slides, canvas, inputs) is Ok,
        0 <= i < inputs.len(),
    ensures
        inputs[i] is Ok,
        packed(slides, canvas, inputs)->Ok_0.parts.contains(
            (media_path(i + 1, slides[i].format), inputs[i]->Ok_0.data@),
        ),
    decreases inputs.len(),
{
    let n = inputs.len() as int;
    let part = (media_path(i + 1, slides[i].format), inputs[i]->Ok_0.data@);
    let before = packed(slides, canvas, inputs.drop_last())->Ok_0;
    let after = packed(slides, canvas, inputs)->Ok_0;
    let texts = slide_texts(n, slides[n - 1], canvas);
    lemma_texts_keep(before, texts, 2);
    let middle = before.with_texts(texts, 2)->0;
    assert(after.parts == middle.parts.push(
        (media_path(n, slides[n - 1].format), inputs.last()->Ok_0.data@),
    ));
    if i == n - 1 {
        assert(after.parts[middle.parts.len() as int] == part);
    } else {
        lemma_image_is_packed(slides, canvas, inputs.drop_last(), i);
        assert(inputs.drop_last()[i] == inputs[i]);
        let k = choose|k: int| 0 <= k < before.parts.len() && before.parts[k] == part;
        assert(after.parts[k] == part);
    }
}

proof fn lemma_media_path_is_plain(number: nat, format: SlideImageFormat)
    ensures
        archive::is_plain_name(media_path(number as int, format)),
{
    reveal_strlit("ppt/media/");
    reveal_strlit("page");
    reveal_strlit(".");
    reveal_strlit("png");
    reveal_strlit("jpg");
    crate::bytes::law_decimal_round_trip(number);
    let digits = crate::bytes::decimal(number);
    let name = media_path(number as int, format);
    assert(name =~= "ppt/media/"@ + "page"@ + text::number(number) + "."@
        + format.extension_spec());
    assert forall|i: int| 0 <= i < name.len() implies '!' <= #[trigger] name[i] <= '~' && name[i]
        != '\\' by {
        if 14 <= i < 14 + digits.len() {
            assert(name[i] == digits[i - 14] as char);
        }
    }
}

/// Every image is found in the presentation, byte for byte.
pub proof fn law_images_are_kept(
    r: Result<Vec<u8>, PptxError>,
    slides: Seq<SlideImage>,
    canvas: Canvas,
    inputs: Seq<Result<ImageInput, String>>,
    i: int,
    limit: u64,
)
    requires
        presented(r, slides, canvas, inputs),
        r is Ok,
        0 <= i < slides.len(),
        inputs[i]->Ok_0.data@.len() <= limit < u64::MAX,
    ensures
        inputs[i] is Ok,
        archive::part_of(r->Ok_0@, media_path(i + 1, slides[i].format), limit) == Ok::<
            (u64, Seq<u8>),
            archive::PartTrouble,
        >((inputs[i]->Ok_0.data@.len() as u64, inputs[i]->Ok_0.data@)),
{
    let parts = packed(slides, canvas, inputs)->Ok_0.parts;
    lemma_image_is_packed(slides, canvas, inputs, i);
    lemma_media_path_is_plain((i + 1) as nat, slides[i].format);
    let part = (media_path(i + 1, slides[i].format), inputs[i]->Ok_0.data@);
    let k = choose|k: int| 0 <= k < parts.len() && parts[k] == part;
    assert(archive::part_of(r->Ok_0@, parts[k].0, limit) == Ok::<
        (u64, Seq<u8>),
        archive::PartTrouble,
    >((parts[k].1.len() as u64, parts[k].1)));
}

} // verus!
