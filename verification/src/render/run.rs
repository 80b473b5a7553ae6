//! Rendering the pages of a PDF file one by one.

use vstd::prelude::*;

use crate::bytes;
use crate::bytes::push_padded;
use crate::pdf::error::{Failure, PdfError};
use crate::pdf::extract;
use crate::pdf::extract::{
    extract_pages_from_path_with_control, ControlledReadError, PageText, TextPage,
};
use crate::pdf::selection::{PageSelection, Wanted, MAX_PAGES};
use crate::render::encode;
use crate::render::encode::write_image;
use crate::render::error::{turns_out, Problem, RenderError};
use crate::render::image_format;
use crate::render::image_format::{next_output_bytes, ImageFormat};
use crate::render::raster;
use crate::render::raster::{rasterize_page, MAX_DPI, MIN_DPI};
use crate::stopping;
use crate::text;
use crate::text::push_ascii;

verus! {

/// How the pages of a file are rendered.
#[derive(Debug)]
pub struct RenderOptions {
    pub selection: PageSelection,
    pub dpi: u16,
    pub format: ImageFormat,
    pub jpg_quality: u8,
    pub max_selected_pages: usize,
    pub max_output_bytes: u64,
}

/// What is wrong with the options.
pub open spec fn options_problem(options: RenderOptions) -> Option<Problem> {
    if !(MIN_DPI <= options.dpi <= MAX_DPI) {
        Some(Problem::PixelLimit)
    } else if options.max_output_bytes == 0 {
        Some(Problem::OutputLimit)
    } else if options.max_selected_pages == 0 || options.max_selected_pages > MAX_PAGES {
        Some(Problem::Pdf(Failure::PageLimitExceeded))
    } else {
        match options.selection@ {
            Wanted::Pages(pages) => if pages.len() > options.max_selected_pages {
                Some(Problem::Pdf(Failure::PageLimitExceeded))
            } else {
                None
            },
            Wanted::All => None,
        }
    }
}

/// Refuses options that cannot be met.
pub fn check_options(options: &RenderOptions) -> (r: Result<(), RenderError>)
    ensures
        match options_problem(*options) {
            None => r is Ok,
            Some(problem) => r is Err && r->Err_0@ == problem,
        },
{
    if options.dpi < MIN_DPI || options.dpi > MAX_DPI {
        return Err(RenderError::PixelLimit);
    }
    if options.max_output_bytes == 0 {
        return Err(RenderError::OutputLimit);
    }
    if options.max_selected_pages == 0 || options.max_selected_pages > MAX_PAGES {
        return Err(RenderError::Pdf(PdfError::PageLimitExceeded));
    }
    match &options.selection {
        PageSelection::Pages(pages) => {
            if pages.len() > options.max_selected_pages {
                return Err(RenderError::Pdf(PdfError::PageLimitExceeded));
            }
        },
        PageSelection::All => {},
    }
    Ok(())
}

/// The pages that are rendered of those that were selected.
pub open spec fn accepted(pages: Seq<PageText>, most: usize) -> Result<Seq<PageText>, Problem> {
    if pages.len() == 0 {
        Err(Problem::Pdf(Failure::CorruptedPdf))
    } else if pages.len() > most {
        Err(Problem::Pdf(Failure::PageLimitExceeded))
    } else {
        Ok(pages)
    }
}

/// The pages of a file that are rendered.
#[verifier::opaque]
pub open spec fn pages_to_render(
    input: Result<Vec<u8>, ControlledReadError>,
    options: RenderOptions,
) -> Result<Seq<PageText>, Problem> {
    match options_problem(options) {
        Some(problem) => Err(problem),
        None => match input {
            Err(error) => Err(Problem::Pdf(extract::read_failure(error@))),
            Ok(bytes) => match extract::extracted(bytes@, options.selection@, None) {
                Err(trouble) => Err(Problem::Pdf(extract::plain_failure(trouble))),
                Ok(found) => accepted(found.pages, options.max_selected_pages),
            },
        },
    }
}

/// `r` reports a cancellation, and `stop` has asked for one.
pub open spec fn halted<T, F: Fn() -> bool>(r: Result<T, RenderError>, stop: F) -> bool {
    &&& r is Err
    &&& r->Err_0@ == Problem::Pdf(Failure::Cancelled)
    &&& stop.ensures((), true)
}

/// The file that a page is rendered to.
#[verifier::opaque]
pub open spec fn rendered(page: PageText, options: RenderOptions) -> Result<Seq<u8>, Problem> {
    match raster::page_picture(page, options.dpi, options.format) {
        Err(problem) => Err(problem),
        Ok(picture) => encode::image_file(
            picture.width,
            picture.height,
            picture.pixels,
            options.format,
            options.jpg_quality,
        ),
    }
}

/// The name of the file of page `index`.
pub open spec fn page_name_spec(stem: Seq<char>, index: int, format: ImageFormat) -> Seq<char> {
    stem + "-"@ + text::ascii(bytes::padded((index + 1) as nat, 3)) + "."@ + format.extension_spec()
}

/// The name of the file of page `index`.
pub fn page_name(stem: &str, index: usize, format: ImageFormat) -> (r: String)
    requires
        index < usize::MAX,
    ensures
        r@ == page_name_spec(stem@, index as int, format),
{
    let mut name = stem.to_owned();
    name.push_str("-");
    let mut digits: Vec<u8> = Vec::new();
    push_padded(&mut digits, index as u64 + 1, 3);
    assert(digits@ =~= bytes::padded((index + 1) as nat, 3));
    push_ascii(&mut name, digits.as_slice());
    name.push_str(".");
    name.push_str(format.extension());
    name
}

/// A page that was rendered: the name of its file, and the file.
#[derive(Debug)]
pub struct RenderedPage {
    pub name: String,
    pub bytes: Vec<u8>,
}

impl View for RenderedPage {
    type V = (Seq<char>, Seq<u8>);

    open spec fn view(&self) -> (Seq<char>, Seq<u8>) {
        (self.name@, self.bytes@)
    }
}

/// What rendering a file gives.
#[derive(Debug)]
pub struct RenderResult {
    pub outputs: Vec<RenderedPage>,
    pub selected_page_count: usize,
}

pub open spec fn files(outputs: Seq<RenderedPage>) -> Seq<(Seq<char>, Seq<u8>)> {
    Seq::new(outputs.len(), |i: int| outputs[i]@)
}

/// Finds the pages that are rendered.
pub fn find_pages<F: Fn() -> bool>(
    input: Result<Vec<u8>, ControlledReadError>,
    options: &RenderOptions,
    should_stop: &F,
) -> (r: Result<Vec<TextPage>, RenderError>)
    requires
        should_stop.requires(()),
    ensures
        options_problem(*options) is None && input is Ok && stopping::always(*should_stop) ==> halted(
            r,
            *should_stop,
        ),
        halted(r, *should_stop) || match pages_to_render(input, *options) {
            Err(problem) => r is Err && r->Err_0@ == problem,
            Ok(pages) => r is Ok && extract::page_texts(r->Ok_0@) == pages,
        },
{
    reveal(pages_to_render);
    match check_options(options) {
        Err(error) => {
            return Err(error);
        },
        Ok(()) => {},
    }
    let ask = || -> (b: bool)
        ensures
            should_stop.ensures((), b),
        { should_stop() };
    match extract_pages_from_path_with_control(input, &options.selection, ask) {
        Err(error) => Err(RenderError::Pdf(error)),
        Ok(pages) => {
            assert(extract::page_texts(pages@).len() == pages@.len());
            if pages.len() == 0 {
                return Err(RenderError::Pdf(PdfError::CorruptedPdf));
            }
            if pages.len() > options.max_selected_pages {
                return Err(RenderError::Pdf(PdfError::PageLimitExceeded));
            }
            Ok(pages)
        },
    }
}

/// Renders a page.
pub fn render_page(page: &TextPage, options: &RenderOptions) -> (r: Result<Vec<u8>, RenderError>)
    requires
        MIN_DPI <= options.dpi <= MAX_DPI,
    ensures
        turns_out(r, rendered(page@, *options)),
{
    reveal(rendered);
    let image = match rasterize_page(page, options.dpi, options.format) {
        Err(error) => {
            return Err(error);
        },
        Ok(image) => image,
    };
    write_image(
        image.width,
        image.height,
        image.pixels.as_slice(),
        options.format,
        options.jpg_quality,
    )
}

/// The files of the first `n` pages, and how many bytes they take together.
pub open spec fn rendition(
    pages: Seq<PageText>,
    options: RenderOptions,
    stem: Seq<char>,
    n: int,
) -> Result<(Seq<(Seq<char>, Seq<u8>)>, u64), Problem>
    decreases n,
{
    if n <= 0 {
        Ok((Seq::empty(), 0))
    } else {
        match rendition(pages, options, stem, n - 1) {
            Err(problem) => Err(problem),
            Ok((outputs, total)) => match rendered(pages[n - 1], options) {
                Err(problem) => Err(problem),
                Ok(file) => match image_format::grown(
                    total,
                    file.len() as u64,
                    options.max_output_bytes,
                ) {
                    None => Err(Problem::OutputLimit),
                    Some(total) => Ok(
                        (
                            outputs.push(
                                (page_name_spec(stem, n - 1, options.format), file),
                            ),
                            total,
                        ),
                    ),
                },
            },
        }
    }
}

proof fn lemma_rendition(
    pages: Seq<PageText>,
    options: RenderOptions,
    stem: Seq<char>,
    n: int,
    m: int,
)
    requires
        0 <= n <= m <= pages.len(),
        rendition(pages, options, stem, n) is Err,
    ensures
        rendition(pages, options, stem, m) == rendition(pages, options, stem, n),
    decreases m - n,
{
    if n < m {
        lemma_rendition(pages, options, stem, n, m - 1);
    }
}

/// What comes of rendering a file.
pub open spec fn renders(
    r: Result<RenderResult, RenderError>,
    input: Result<Vec<u8>, ControlledReadError>,
    options: RenderOptions,
    stem: Seq<char>,
) -> bool {
    match pages_to_render(input, options) {
        Err(problem) => r is Err && r->Err_0@ == problem,
        Ok(pages) => match rendition(pages, options, stem, pages.len() as int) {
            Err(problem) => r is Err && r->Err_0@ == problem,
            Ok((outputs, _)) => r is Ok && files(r->Ok_0.outputs@) == outputs
                && r->Ok_0.selected_page_count == pages.len(),
        },
    }
}

/// What is done to a page.
pub const RENDERING: &'static str = "rendering";

/// What `progress` makes of `before` when it is told of the first `n` of `total`
/// pages, one after the other.
pub open spec fn was_told<T, P: Fn(T, usize, usize, &str) -> T>(
    progress: P,
    before: T,
    after: T,
    n: int,
    total: usize,
) -> bool
    decreases n,
{
    if n <= 0 {
        after == before
    } else {
        exists|middle: T| #[trigger]
            progress.ensures((middle, (n - 1) as usize, total, RENDERING), after) && was_told(
                progress,
                before,
                middle,
                n - 1,
                total,
            )
    }
}

/// `n` pages are begun with: all of them, unless the last of these fails.
pub open spec fn is_begun(
    pages: Seq<PageText>,
    options: RenderOptions,
    stem: Seq<char>,
    n: int,
) -> bool {
    &&& 0 <= n <= pages.len()
    &&& n == pages.len() || n > 0 && rendition(pages, options, stem, n) is Err
    &&& n > 0 ==> rendition(pages, options, stem, n - 1) is Ok
}

/// `progress` has made `after` of `before` when it was told of each page that was
/// begun with.
pub open spec fn is_told<T, P: Fn(T, usize, usize, &str) -> T>(
    input: Result<Vec<u8>, ControlledReadError>,
    options: RenderOptions,
    stem: Seq<char>,
    progress: P,
    before: T,
    after: T,
) -> bool {
    match pages_to_render(input, options) {
        Err(_) => after == before,
        Ok(pages) => exists|n: int| #[trigger]
            was_told(progress, before, after, n, pages.len() as usize) && is_begun(
                pages,
                options,
                stem,
                n,
            ),
    }
}

/// Rendering was cancelled after some of the pages were begun with.
pub open spec fn is_halted_rendering<T, P: Fn(T, usize, usize, &str) -> T, F: Fn() -> bool>(
    r: Result<RenderResult, RenderError>,
    progress: P,
    before: T,
    after: T,
    stop: F,
) -> bool {
    halted(r, stop) && exists|n: int, total: usize|
        0 <= n <= total && #[trigger] was_told(progress, before, after, n, total)
}

/// Renders the selected pages of a file. `progress` is told of each page before it
/// is rendered: its index, how many there are, and what is done to it. It makes
/// something new of `told`.
pub fn render_pdf_telling<T, F: Fn() -> bool, P: Fn(T, usize, usize, &str) -> T>(
    input: Result<Vec<u8>, ControlledReadError>,
    stem: &str,
    options: &RenderOptions,
    should_stop: &F,
    told: T,
    progress: P,
) -> (r: (Result<RenderResult, RenderError>, T))
    requires
        should_stop.requires(()),
        forall|t: T, index: usize, total: usize, phase: &str|
            index < total ==> #[trigger] progress.requires((t, index, total, phase)),
    ensures
        options_problem(*options) is None && input is Ok && stopping::always(*should_stop) ==> halted(
            r.0,
            *should_stop,
        ) && r.1 == told,
        is_halted_rendering(r.0, progress, told, r.1, *should_stop) || renders(
            r.0,
            input,
            *options,
            stem@,
        ) && is_told(input, *options, stem@, progress, told, r.1),
{
    assert(was_told(progress, told, told, 0, 0));
    let pages = match find_pages(input, options, should_stop) {
        Err(error) => {
            return (Err(error), told);
        },
        Ok(pages) => pages,
    };
    let ghost texts = extract::page_texts(pages@);
    let ghost count = texts.len() as int;
    assert(MIN_DPI <= options.dpi <= MAX_DPI) by {
        reveal(pages_to_render);
    }
    let mut outputs: Vec<RenderedPage> = Vec::new();
    let mut total: u64 = 0;
    let mut index: usize = 0;
    let mut state: T = told;
    assert(files(outputs@) =~= Seq::<(Seq<char>, Seq<u8>)>::empty());
    while index < pages.len()
        invariant
            index <= pages@.len(),
            MIN_DPI <= options.dpi <= MAX_DPI,
            should_stop.requires(()),
            options_problem(*options) is None && input is Ok ==> !stopping::always(*should_stop),
            forall|t: T, index: usize, total: usize, phase: &str|
                index < total ==> #[trigger] progress.requires((t, index, total, phase)),
            texts == extract::page_texts(pages@),
            count == texts.len(),
            count == pages@.len(),
            pages_to_render(input, *options) == Ok::<Seq<PageText>, Problem>(texts),
            rendition(texts, *options, stem@, index as int) == Ok::<
                (Seq<(Seq<char>, Seq<u8>)>, u64),
                Problem,
            >((files(outputs@), total)),
            index > 0 ==> rendition(texts, *options, stem@, index - 1) is Ok,
            was_told(progress, told, state, index as int, pages@.len() as usize),
        decreases pages@.len() - index,
    {
        if should_stop() {
            return (Err(RenderError::Pdf(PdfError::Cancelled)), state);
        }
        let ghost so_far = state;
        state = progress(state, index, pages.len(), RENDERING);
        assert(was_told(progress, told, state, index + 1, pages@.len() as usize)) by {
            assert(progress.ensures((so_far, index, pages@.len() as usize, RENDERING), state));
        }
        if should_stop() {
            return (Err(RenderError::Pdf(PdfError::Cancelled)), state);
        }
        let page = render_page(&pages[index], options);
        assert(texts[index as int] == pages@[index as int]@);
        if should_stop() {
            return (Err(RenderError::Pdf(PdfError::Cancelled)), state);
        }
        let bytes = match page {
            Err(error) => {
                proof {
                    lemma_rendition(texts, *options, stem@, index + 1, count);
                    assert(is_begun(texts, *options, stem@, index + 1));
                }
                return (Err(error), state);
            },
            Ok(bytes) => bytes,
        };
        total = match next_output_bytes(total, bytes.len() as u64, options.max_output_bytes) {
            Err(error) => {
                proof {
                    lemma_rendition(texts, *options, stem@, index + 1, count);
                    assert(is_begun(texts, *options, stem@, index + 1));
                }
                return (Err(error), state);
            },
            Ok(total) => total,
        };
        let name = page_name(stem, index, options.format);
        let ghost before = files(outputs@);
        let page = RenderedPage { name, bytes };
        let ghost added = page@;
        outputs.push(page);
        assert(files(outputs@) =~= before.push(added));
        index += 1;
    }
    if should_stop() {
        return (Err(RenderError::Pdf(PdfError::Cancelled)), state);
    }
    (Ok(RenderResult { outputs, selected_page_count: pages.len() }), state)
}

/// Whoever writes down what `progress` is told has the pages from the first on in
/// order.
pub proof fn law_pages_are_told_in_order<
    T: View<V = Seq<(usize, usize)>>,
    P: Fn(T, usize, usize, &str) -> T,
>(progress: P, before: T, after: T, n: int, total: usize)
    requires
        0 <= n <= usize::MAX,
        was_told(progress, before, after, n, total),
        forall|t: T, k: usize, r: T| #[trigger]
            progress.ensures((t, k, total, RENDERING), r) ==> r@ == t@.push((k, total)),
    ensures
        after@ == before@ + Seq::new(n as nat, |i: int| (i as usize, total)),
    decreases n,
{
    if n > 0 {
        let middle = choose|middle: T| #[trigger]
            progress.ensures((middle, (n - 1) as usize, total, RENDERING), after) && was_told(
                progress,
                before,
                middle,
                n - 1,
                total,
            );
        law_pages_are_told_in_order(progress, before, middle, n - 1, total);
    }
    assert(after@ =~= before@ + Seq::new(n as nat, |i: int| (i as usize, total)));
}

/// What was told of each page was told of all of them.
proof fn lemma_told<P: Fn((), usize, usize, &str) -> ()>(progress: P, n: int, total: usize)
    requires
        0 <= n <= usize::MAX,
        was_told(progress, (), (), n, total),
    ensures
        forall|k: usize| k < n ==> #[trigger] progress.ensures(((), k, total, RENDERING), ()),
    decreases n,
{
    if n > 0 {
        let middle = choose|middle: ()| #[trigger]
            progress.ensures((middle, (n - 1) as usize, total, RENDERING), ()) && was_told(
                progress,
                (),
                middle,
                n - 1,
                total,
            );
        lemma_told(progress, n - 1, total);
    }
}

/// Renders the selected pages of a file. `progress` is told of each page: its
/// index, how many there are, and what is done to it.
pub fn render_pdf<F: Fn() -> bool, P: Fn(usize, usize, &str)>(
    input: Result<Vec<u8>, ControlledReadError>,
    stem: &str,
    options: &RenderOptions,
    should_stop: &F,
    progress: P,
) -> (r: Result<RenderResult, RenderError>)
    requires
        should_stop.requires(()),
        forall|index: usize, total: usize, phase: &str|
            index < total ==> #[trigger] progress.requires((index, total, phase)),
    ensures
        options_problem(*options) is None && input is Ok && stopping::always(*should_stop) ==> halted(
            r,
            *should_stop,
        ),
        halted(r, *should_stop) || renders(r, input, *options, stem@),
        r matches Ok(found) ==> forall|index: usize|
            index < found.selected_page_count ==> #[trigger] progress.ensures(
                (index, found.selected_page_count, RENDERING),
                (),
            ),
{
    let listener = &progress;
    let tell = |_told: (), index: usize, total: usize, phase: &str| -> (after: ())
        requires
            listener.requires((index, total, phase)),
        ensures
            listener.ensures((index, total, phase), ()),
        { listener(index, total, phase) };
    let (r, _told) = render_pdf_telling(input, stem, options, should_stop, (), tell);
    proof {
        if r is Ok {
            let total = r->Ok_0.selected_page_count;
            let pages = pages_to_render(input, *options)->Ok_0;
            let n = choose|n: int| #[trigger]
                was_told(tell, (), (), n, total) && is_begun(pages, *options, stem@, n);
            if n < pages.len() {
                lemma_rendition(pages, *options, stem@, n, pages.len() as int);
            }
            lemma_told(tell, n, total);
            assert forall|index: usize| index < total implies #[trigger] progress.ensures(
                (index, total, RENDERING),
                (),
            ) by {
                assert(tell.ensures(((), index, total, RENDERING), ()));
            }
        }
    }
    r
}

/// The files of a rendering never take more bytes than the options and the limit
/// allow.
pub proof fn law_rendered_bytes_are_limited(
    pages: Seq<PageText>,
    options: RenderOptions,
    stem: Seq<char>,
    n: int,
)
    requires
        n > 0,
    ensures
        match rendition(pages, options, stem, n) {
            Err(_) => true,
            Ok((outputs, total)) => total <= options.max_output_bytes && total
                <= image_format::MAX_OUTPUT_BYTES && outputs.len() == n,
        },
    decreases n,
{
    if n > 1 {
        law_rendered_bytes_are_limited(pages, options, stem, n - 1);
    } else {
        assert(rendition(pages, options, stem, 0) == Ok::<
            (Seq<(Seq<char>, Seq<u8>)>, u64),
            Problem,
        >((Seq::empty(), 0)));
    }
}

} // verus!
