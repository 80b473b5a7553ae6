//! Which requests are accepted.

use vstd::prelude::*;

use crate::image::document::{MAX_BATCH_INPUT_BYTES, MAX_IMAGES};
use crate::image::picture;
use crate::jobs::kind;
use crate::jobs::kind::{supports_extension, ConversionKind, Platform};
use crate::pdf::selection;
use crate::pdf::selection::parse_page_number;
use crate::pdf::selection_parts;
use crate::render::ImageFormat;
use crate::svg;
use crate::text;
use crate::text::{chars_of, same, split, string_of, to_lower, trim};

verus! {

/// The most bytes that an input file may have, unless its kind says less.
pub const MAX_INPUT_BYTES: u64 = 262_144_000;

/// Why a request is refused.
#[derive(Debug, Clone, Copy, PartialEq, Eq, Structural)]
pub enum AppError {
    NoInputs,
    InputPathRequired,
    InputNotFound,
    InputTooLarge,
    ImageBatchTooLarge,
    UnsupportedFormat,
    InvalidDpi,
    InvalidJpgQuality,
    InvalidPages,
    OutputPathRequired,
    OutputDirNotFound,
    OutputPathNotAllowed,
    JobNotFound,
    RepairUnavailable,
}

impl AppError {
    pub open spec fn code_spec(self) -> Seq<char> {
        match self {
            AppError::NoInputs => "NO_INPUTS"@,
            AppError::InputPathRequired => "INPUT_PATH_REQUIRED"@,
            AppError::InputNotFound => "INPUT_NOT_FOUND"@,
            AppError::InputTooLarge => "INPUT_TOO_LARGE"@,
            AppError::ImageBatchTooLarge => "INPUT_TOO_LARGE"@,
            AppError::UnsupportedFormat => "UNSUPPORTED_FORMAT"@,
            AppError::InvalidDpi => "INVALID_DPI"@,
            AppError::InvalidJpgQuality => "INVALID_JPG_QUALITY"@,
            AppError::InvalidPages => "INVALID_PAGES"@,
            AppError::OutputPathRequired => "OUTPUT_PATH_REQUIRED"@,
            AppError::OutputDirNotFound => "OUTPUT_DIR_NOT_FOUND"@,
            AppError::OutputPathNotAllowed => "OUTPUT_PATH_NOT_ALLOWED"@,
            AppError::JobNotFound => "JOB_NOT_FOUND"@,
            AppError::RepairUnavailable => "REPAIR_UNAVAILABLE"@,
        }
    }

    /// The stable code of this class of failures.
    pub fn code(&self) -> (r: &'static str)
        ensures
            r@ == self.code_spec(),
    {
        match self {
            AppError::NoInputs => "NO_INPUTS",
            AppError::InputPathRequired => "INPUT_PATH_REQUIRED",
            AppError::InputNotFound => "INPUT_NOT_FOUND",
            AppError::InputTooLarge => "INPUT_TOO_LARGE",
            AppError::ImageBatchTooLarge => "INPUT_TOO_LARGE",
            AppError::UnsupportedFormat => "UNSUPPORTED_FORMAT",
            AppError::InvalidDpi => "INVALID_DPI",
            AppError::InvalidJpgQuality => "INVALID_JPG_QUALITY",
            AppError::InvalidPages => "INVALID_PAGES",
            AppError::OutputPathRequired => "OUTPUT_PATH_REQUIRED",
            AppError::OutputDirNotFound => "OUTPUT_DIR_NOT_FOUND",
            AppError::OutputPathNotAllowed => "OUTPUT_PATH_NOT_ALLOWED",
            AppError::JobNotFound => "JOB_NOT_FOUND",
            AppError::RepairUnavailable => "REPAIR_UNAVAILABLE",
        }
    }

    pub open spec fn message_spec(self) -> Seq<char> {
        match self {
            AppError::NoInputs => "Choose at least one input file"@,
            AppError::InputPathRequired => "The input path must be absolute"@,
            AppError::InputNotFound => "The input file does not exist"@,
            AppError::InputTooLarge => "The input file is too large"@,
            AppError::ImageBatchTooLarge =>
                "Image merging supports up to 200 files and 512 MiB total"@,
            AppError::UnsupportedFormat =>
                "The input file is not supported for this conversion"@,
            AppError::InvalidDpi => "DPI must be 150, 200, or 300"@,
            AppError::InvalidJpgQuality => "JPG quality must be between 1 and 100"@,
            AppError::InvalidPages => "The page range is invalid"@,
            AppError::OutputPathRequired => "The output path must be absolute"@,
            AppError::OutputDirNotFound =>
                "The output directory does not exist or is not writable"@,
            AppError::OutputPathNotAllowed => "This output directory is not writable"@,
            AppError::JobNotFound => "The task does not exist or has already ended"@,
            AppError::RepairUnavailable => "Repair is not supported on this platform"@,
        }
    }

    /// The sentence that tells a user what went wrong.
    pub fn message(&self) -> (r: &'static str)
        ensures
            r@ == self.message_spec(),
    {
        match self {
            AppError::NoInputs => "Choose at least one input file",
            AppError::InputPathRequired => "The input path must be absolute",
            AppError::InputNotFound => "The input file does not exist",
            AppError::InputTooLarge => "The input file is too large",
            AppError::ImageBatchTooLarge =>
                "Image merging supports up to 200 files and 512 MiB total",
            AppError::UnsupportedFormat =>
                "The input file is not supported for this conversion",
            AppError::InvalidDpi => "DPI must be 150, 200, or 300",
            AppError::InvalidJpgQuality => "JPG quality must be between 1 and 100",
            AppError::InvalidPages => "The page range is invalid",
            AppError::OutputPathRequired => "The output path must be absolute",
            AppError::OutputDirNotFound =>
                "The output directory does not exist or is not writable",
            AppError::OutputPathNotAllowed => "This output directory is not writable",
            AppError::JobNotFound => "The task does not exist or has already ended",
            AppError::RepairUnavailable => "Repair is not supported on this platform",
        }
    }

    /// The code and the sentence.
    pub fn text(&self) -> (r: String)
        ensures
            r@ == self.code_spec() + ": "@ + self.message_spec(),
    {
        let mut text = self.code().to_owned();
        text.push_str(": ");
        text.push_str(self.message());
        text
    }
}

/// `s` is a number, and that is positive and fits in 32 bits.
pub open spec fn page_in(s: Seq<char>) -> Option<int> {
    match selection::number_in(s) {
        Some(page) => if 0 < page <= u32::MAX {
            Some(page as int)
        } else {
            None
        },
        None => None,
    }
}

/// `part` is a page such as `8`, or a range of pages such as `1-3`.
pub open spec fn valid_part(part: Seq<char>) -> bool {
    let pieces = text::split_from(text::trimmed(part), '-', 0);
    if pieces.len() == 1 {
        page_in(pieces[0]) is Some
    } else if pieces.len() == 2 {
        match (page_in(pieces[0]), page_in(pieces[1])) {
            (Some(start), Some(end)) => start <= end,
            _ => false,
        }
    } else {
        false
    }
}

/// `value` is a list of pages and ranges of pages.
pub open spec fn valid_pages_spec(value: Seq<char>) -> bool {
    let parts = text::split_from(value, ',', 0);
    &&& text::trimmed(value).len() > 0
    &&& forall|i: int| 0 <= i < parts.len() ==> valid_part(#[trigger] parts[i])
}

fn read_page(s: &[char]) -> (r: Option<usize>)
    ensures
        match r {
            Some(page) => page_in(s@) == Some(page as int),
            None => page_in(s@) is None,
        },
{
    match parse_page_number(s) {
        Some(page) => if 0 < page && page <= u32::MAX as usize {
            Some(page)
        } else {
            None
        },
        None => None,
    }
}

fn part_is_valid(part: &[char]) -> (r: bool)
    ensures
        r == valid_part(part@),
{
    let part = trim(part);
    let pieces = split(part.as_slice(), '-');
    let ghost all = text::texts(pieces@);
    assert(all.len() == pieces@.len());
    if pieces.len() == 1 {
        assert(all[0] == pieces@[0]@);
        read_page(pieces[0].as_slice()).is_some()
    } else if pieces.len() == 2 {
        assert(all[0] == pieces@[0]@);
        assert(all[1] == pieces@[1]@);
        match (read_page(pieces[0].as_slice()), read_page(pieces[1].as_slice())) {
            (Some(start), Some(end)) => start <= end,
            _ => false,
        }
    } else {
        false
    }
}

/// `value` is a list of pages and ranges of pages.
pub fn valid_pages(value: &str) -> (r: bool)
    ensures
        r == valid_pages_spec(value@),
{
    let chars = chars_of(value);
    if trim(chars.as_slice()).len() == 0 {
        return false;
    }
    let parts = split(chars.as_slice(), ',');
    let ghost all = text::texts(parts@);
    let mut i: usize = 0;
    while i < parts.len()
        invariant
            i <= parts@.len(),
            all == text::texts(parts@),
            all == text::split_from(value@, ',', 0),
            forall|k: int| 0 <= k < i ==> valid_part(#[trigger] all[k]),
        decreases parts@.len() - i,
    {
        let ok = part_is_valid(parts[i].as_slice());
        assert(all[i as int] == parts@[i as int]@);
        if !ok {
            return false;
        }
        i += 1;
    }
    true
}

/// `value` asks for every page.
pub fn is_all_pages(value: &str) -> (r: bool)
    ensures
        r == selection::asks_for_all(value@),
{
    let chars = chars_of(value);
    selection::is_all(chars.as_slice())
}

/// The options of a request.
#[derive(Debug)]
pub struct ConversionOptions {
    pub image_format: Option<ImageFormat>,
    pub dpi: Option<u16>,
    pub pages: Option<String>,
    pub jpg_quality: Option<u8>,
    pub merge_images: bool,
}

impl Default for ConversionOptions {
    fn default() -> (r: ConversionOptions)
        ensures
            r.image_format is None,
            r.dpi is None,
            r.pages is None,
            r.jpg_quality is None,
            !r.merge_images,
    {
        ConversionOptions {
            image_format: None,
            dpi: None,
            pages: None,
            jpg_quality: None,
            merge_images: false,
        }
    }
}

/// What is known of the directory that outputs go to.
#[derive(Debug)]
pub struct OutputDir {
    /// There is a path at all.
    pub named: bool,
    pub absolute: bool,
    pub directory: bool,
    /// The path without links and dots, if there is one.
    pub canonical: Option<String>,
}

/// What is known of an input file.
#[derive(Debug)]
pub struct InputFile {
    pub absolute: bool,
    /// It is there, and a regular file.
    pub regular: bool,
    pub size: u64,
    /// What follows the last dot of its name, or nothing.
    pub extension: String,
    /// Where its outputs go.
    pub output: OutputDir,
}

/// The most bytes that input files of some engines may have.
#[derive(Debug, Clone, Copy)]
pub struct EngineLimits {
    pub html: u64,
    pub markdown: u64,
}

/// The parts of a path between its slashes, without empty ones and dots.
pub open spec fn path_parts(path: Seq<char>) -> Seq<Seq<char>> {
    text::split_from(path, '/', 0).filter(|part: Seq<char>| part.len() > 0 && part != "."@)
}

/// A directory of the system, by the names on its path.
pub open spec fn is_system_path(parts: Seq<Seq<char>>) -> bool {
    ||| parts.len() == 0
    ||| parts[0] == "System"@
    ||| parts[0] == "Library"@
    ||| parts[0] == "Applications"@
    ||| parts[0] == "usr"@
    ||| parts[0] == "bin"@
    ||| parts[0] == "sbin"@
    ||| parts[0] == "etc"@
    ||| parts.len() > 1 && parts[0] == "private"@ && parts[1] == "etc"@
}

/// `path` is `dir`, or within it.
pub open spec fn is_within(path: Seq<char>, dir: Seq<char>) -> bool {
    path == dir || (dir + "\\"@).is_prefix_of(path)
}

/// Outputs must not go to the system's own directories.
pub open spec fn forbidden(path: Seq<char>, platform: Platform) -> bool {
    match platform {
        Platform::Windows => {
            let path = text::lowered(path);
            ||| path == "c:\\"@
            ||| is_within(path, "c:\\windows"@)
            ||| is_within(path, "c:\\program files"@)
            ||| is_within(path, "c:\\program files (x86)"@)
        },
        Platform::Other => path.len() > 0 && path[0] == '/' && is_system_path(path_parts(path)),
    }
}

/// What is wrong with the directory that outputs go to.
pub open spec fn output_fault(dir: OutputDir, platform: Platform) -> Option<AppError> {
    if !dir.absolute {
        Some(AppError::OutputPathRequired)
    } else if !dir.directory {
        Some(AppError::OutputDirNotFound)
    } else {
        match dir.canonical {
            None => Some(AppError::OutputDirNotFound),
            Some(path) => if forbidden(path@, platform) {
                Some(AppError::OutputPathNotAllowed)
            } else {
                None
            },
        }
    }
}

fn is_named(part: &Vec<char>, name: &str) -> (r: bool)
    ensures
        r == (part@ == name@),
{
    same(string_of(part.as_slice()).as_str(), name)
}

proof fn lemma_filter(parts: Seq<Seq<char>>, n: int)
    requires
        0 <= n < parts.len(),
    ensures
        ({
            let kept = |part: Seq<char>| part.len() > 0 && part != "."@;
            parts.take(n + 1).filter(kept) == if kept(parts[n]) {
                parts.take(n).filter(kept).push(parts[n])
            } else {
                parts.take(n).filter(kept)
            }
        }),
{
    reveal(Seq::filter);
    assert(parts.take(n + 1).drop_last() =~= parts.take(n));
}

fn parts_of(path: &[char]) -> (r: Vec<Vec<char>>)
    ensures
        text::texts(r@) == path_parts(path@),
{
    let parts = split(path, '/');
    let ghost all = text::texts(parts@);
    let ghost kept = |part: Seq<char>| part.len() > 0 && part != "."@;
    let mut out: Vec<Vec<char>> = Vec::new();
    let mut i: usize = 0;
    proof {
        reveal(Seq::filter);
        assert(all.take(0).filter(kept) =~= Seq::<Seq<char>>::empty());
        assert(text::texts(out@) =~= Seq::<Seq<char>>::empty());
    }
    while i < parts.len()
        invariant
            i <= parts@.len(),
            all == text::texts(parts@),
            kept == (|part: Seq<char>| part.len() > 0 && part != "."@),
            text::texts(out@) == all.take(i as int).filter(kept),
        decreases parts@.len() - i,
    {
        proof {
            lemma_filter(all, i as int);
        }
        assert(all[i as int] == parts@[i as int]@);
        if parts[i].len() > 0 && !is_named(&parts[i], ".") {
            let ghost before = text::texts(out@);
            let part: Vec<char> = vstd::slice::slice_to_vec(parts[i].as_slice());
            out.push(part);
            assert(text::texts(out@) =~= before.push(all[i as int]));
        }
        i += 1;
    }
    assert(all.take(i as int) =~= all);
    out
}

fn is_system(parts: &Vec<Vec<char>>) -> (r: bool)
    ensures
        r == is_system_path(text::texts(parts@)),
{
    let ghost all = text::texts(parts@);
    assert(all.len() == parts@.len());
    if parts.len() == 0 {
        return true;
    }
    assert(all[0] == parts@[0]@);
    let first = &parts[0];
    if is_named(first, "System") || is_named(first, "Library") || is_named(first, "Applications")
        || is_named(first, "usr") || is_named(first, "bin") || is_named(first, "sbin") || is_named(
        first,
        "etc",
    ) {
        return true;
    }
    if parts.len() > 1 {
        assert(all[1] == parts@[1]@);
        is_named(first, "private") && is_named(&parts[1], "etc")
    } else {
        false
    }
}

fn is_in(path: &str, dir: &str) -> (r: bool)
    ensures
        r == is_within(path@, dir@),
{
    let mut prefix = dir.to_owned();
    prefix.push_str("\\");
    let prefix = chars_of(prefix.as_str());
    let chars = chars_of(path);
    same(path, dir) || text::begins_with(chars.as_slice(), prefix.as_slice())
}

/// Outputs must not go to the system's own directories.
pub fn is_forbidden_output_dir(path: &str, platform: Platform) -> (r: bool)
    ensures
        r == forbidden(path@, platform),
{
    match platform {
        Platform::Windows => {
            let small = to_lower(path);
            let small = small.as_str();
            same(small, "c:\\") || is_in(small, "c:\\windows") || is_in(
                small,
                "c:\\program files",
            ) || is_in(small, "c:\\program files (x86)")
        },
        Platform::Other => {
            let chars = chars_of(path);
            if chars.len() == 0 || chars[0] != '/' {
                return false;
            }
            let parts = parts_of(chars.as_slice());
            is_system(&parts)
        },
    }
}

/// `r` is as `fault` says.
pub open spec fn refused(r: Result<(), AppError>, fault: Option<AppError>) -> bool {
    match fault {
        None => r is Ok,
        Some(error) => r is Err && r->Err_0 == error,
    }
}

/// Refuses a directory that is none or is the system's own.
pub fn validate_output_dir(dir: &OutputDir, platform: Platform) -> (r: Result<(), AppError>)
    ensures
        refused(r, output_fault(*dir, platform)),
{
    if !dir.absolute {
        return Err(AppError::OutputPathRequired);
    }
    if !dir.directory {
        return Err(AppError::OutputDirNotFound);
    }
    match &dir.canonical {
        None => Err(AppError::OutputDirNotFound),
        Some(path) => if is_forbidden_output_dir(path.as_str(), platform) {
            Err(AppError::OutputPathNotAllowed)
        } else {
            Ok(())
        },
    }
}

/// A file or directory that is to be shown to the user.
#[derive(Debug)]
pub struct OpenTarget {
    pub absolute: bool,
    /// It is there, and a file or a directory.
    pub present: bool,
    /// It can be found without links and dots.
    pub found: bool,
    /// It, or the directory that it is in.
    pub directory: Option<OutputDir>,
}

/// What is wrong with showing it.
pub open spec fn open_fault(target: OpenTarget, platform: Platform) -> Option<AppError> {
    if !target.absolute || !target.present || !target.found {
        Some(AppError::InputNotFound)
    } else {
        match target.directory {
            None => Some(AppError::OutputPathNotAllowed),
            Some(directory) => output_fault(directory, platform),
        }
    }
}

/// Refuses to show what is not there or is the system's own.
pub fn open_path(target: &OpenTarget, platform: Platform) -> (r: Result<(), AppError>)
    ensures
        refused(r, open_fault(*target, platform)),
{
    if !target.absolute || !target.present || !target.found {
        return Err(AppError::InputNotFound);
    }
    match &target.directory {
        None => Err(AppError::OutputPathNotAllowed),
        Some(directory) => validate_output_dir(directory, platform),
    }
}

/// The most bytes that an input file of a conversion may have.
pub open spec fn input_limit_spec(kind: ConversionKind, limits: EngineLimits) -> u64 {
    match kind {
        ConversionKind::ImageToPdf => picture::MAX_INPUT_BYTES,
        ConversionKind::SvgToPdf => svg::MAX_INPUT_BYTES,
        ConversionKind::HtmlToPdf => limits.html,
        ConversionKind::MarkdownToPdf => limits.markdown,
        _ => MAX_INPUT_BYTES,
    }
}

/// The most bytes that an input file of a conversion may have.
pub fn input_limit(kind: ConversionKind, limits: EngineLimits) -> (r: u64)
    ensures
        r == input_limit_spec(kind, limits),
{
    match kind {
        ConversionKind::ImageToPdf => picture::MAX_INPUT_BYTES,
        ConversionKind::SvgToPdf => svg::MAX_INPUT_BYTES,
        ConversionKind::HtmlToPdf => limits.html,
        ConversionKind::MarkdownToPdf => limits.markdown,
        _ => MAX_INPUT_BYTES,
    }
}

/// How many bytes the first `n` files have together.
pub open spec fn total_size(inputs: Seq<InputFile>, n: int) -> int
    decreases n,
{
    if n <= 0 {
        0
    } else {
        total_size(inputs, n - 1) + inputs[n - 1].size
    }
}

/// What is wrong with an input file, where the files up to it have `total`
/// bytes together.
pub open spec fn input_fault(
    kind: ConversionKind,
    merge: bool,
    limits: EngineLimits,
    input: InputFile,
    total: int,
) -> Option<AppError> {
    if !input.absolute {
        Some(AppError::InputPathRequired)
    } else if !input.regular {
        Some(AppError::InputNotFound)
    } else if input.size > input_limit_spec(kind, limits) {
        Some(AppError::InputTooLarge)
    } else if merge && total > MAX_BATCH_INPUT_BYTES {
        Some(AppError::ImageBatchTooLarge)
    } else if !kind::supported(kind, input.extension@) {
        Some(AppError::UnsupportedFormat)
    } else {
        None
    }
}

/// What is wrong with the first of the first `n` files with which something is.
pub open spec fn inputs_fault(
    kind: ConversionKind,
    merge: bool,
    limits: EngineLimits,
    inputs: Seq<InputFile>,
    n: int,
) -> Option<AppError>
    decreases n,
{
    if n <= 0 {
        None
    } else {
        match inputs_fault(kind, merge, limits, inputs, n - 1) {
            Some(error) => Some(error),
            None => input_fault(kind, merge, limits, inputs[n - 1], total_size(inputs, n)),
        }
    }
}

/// What is wrong with the options of a request.
pub open spec fn options_fault(kind: ConversionKind, options: ConversionOptions) -> Option<
    AppError,
> {
    let image = kind == ConversionKind::PdfToImage;
    if image && options.dpi is Some && options.dpi->0 != 150 && options.dpi->0 != 200
        && options.dpi->0 != 300 {
        Some(AppError::InvalidDpi)
    } else if image && options.jpg_quality is Some && !(1 <= options.jpg_quality->0 <= 100) {
        Some(AppError::InvalidJpgQuality)
    } else {
        match options.pages {
            None => None,
            Some(pages) => if selection::asks_for_all(pages@) {
                None
            } else if whole_documents(kind) || !valid_pages_spec(pages@) {
                Some(AppError::InvalidPages)
            } else {
                None
            },
        }
    }
}

/// The conversions that refuse a selection of pages beforehand.
pub open spec fn whole_documents(kind: ConversionKind) -> bool {
    ||| kind == ConversionKind::HtmlToPdf
    ||| kind == ConversionKind::MarkdownToPdf
    ||| kind == ConversionKind::PdfToPptx
    ||| kind == ConversionKind::PdfToPpt
}

/// What is wrong with the first of the first `n` output directories with which
/// something is.
pub open spec fn outputs_fault(inputs: Seq<InputFile>, platform: Platform, n: int) -> Option<
    AppError,
>
    decreases n,
{
    if n <= 0 {
        None
    } else {
        match outputs_fault(inputs, platform, n - 1) {
            Some(error) => Some(error),
            None => if !inputs[n - 1].output.named {
                Some(AppError::OutputDirNotFound)
            } else {
                output_fault(inputs[n - 1].output, platform)
            },
        }
    }
}

/// What is wrong with a request.
pub open spec fn request_fault(
    kind: ConversionKind,
    options: ConversionOptions,
    inputs: Seq<InputFile>,
    limits: EngineLimits,
    platform: Platform,
) -> Option<AppError> {
    if inputs.len() == 0 {
        Some(AppError::NoInputs)
    } else if options.merge_images && kind != ConversionKind::ImageToPdf {
        Some(AppError::UnsupportedFormat)
    } else if options.merge_images && inputs.len() > MAX_IMAGES {
        Some(AppError::ImageBatchTooLarge)
    } else {
        match inputs_fault(kind, options.merge_images, limits, inputs, inputs.len() as int) {
            Some(error) => Some(error),
            None => match options_fault(kind, options) {
                Some(error) => Some(error),
                None => outputs_fault(inputs, platform, inputs.len() as int),
            },
        }
    }
}

proof fn lemma_inputs_fault(
    kind: ConversionKind,
    merge: bool,
    limits: EngineLimits,
    inputs: Seq<InputFile>,
    n: int,
    m: int,
)
    requires
        0 <= n <= m <= inputs.len(),
        inputs_fault(kind, merge, limits, inputs, n) is Some,
    ensures
        inputs_fault(kind, merge, limits, inputs, m) == inputs_fault(
            kind,
            merge,
            limits,
            inputs,
            n,
        ),
    decreases m - n,
{
    if n < m {
        lemma_inputs_fault(kind, merge, limits, inputs, n, m - 1);
    }
}

proof fn lemma_outputs_fault(inputs: Seq<InputFile>, platform: Platform, n: int, m: int)
    requires
        0 <= n <= m <= inputs.len(),
        outputs_fault(inputs, platform, n) is Some,
    ensures
        outputs_fault(inputs, platform, m) == outputs_fault(inputs, platform, n),
    decreases m - n,
{
    if n < m {
        lemma_outputs_fault(inputs, platform, n, m - 1);
    }
}

fn validate_inputs(
    kind: ConversionKind,
    merge: bool,
    inputs: &Vec<InputFile>,
    limits: EngineLimits,
) -> (r: Result<(), AppError>)
    ensures
        refused(r, inputs_fault(kind, merge, limits, inputs@, inputs@.len() as int)),
{
    let limit: u64 = input_limit(kind, limits);
    let ghost count = inputs@.len() as int;
    let mut batch: u64 = 0;
    let mut i: usize = 0;
    while i < inputs.len()
        invariant
            i <= inputs@.len(),
            count == inputs@.len(),
            limit == input_limit_spec(kind, limits),
            merge ==> batch == total_size(inputs@, i as int) && batch <= MAX_BATCH_INPUT_BYTES,
            inputs_fault(kind, merge, limits, inputs@, i as int) is None,
        decreases inputs@.len() - i,
    {
        let input = &inputs[i];
        let size: u64 = input.size;
        let fault = if !input.absolute {
            Some(AppError::InputPathRequired)
        } else if !input.regular {
            Some(AppError::InputNotFound)
        } else if size > limit {
            Some(AppError::InputTooLarge)
        } else if merge && (size > MAX_BATCH_INPUT_BYTES || batch > MAX_BATCH_INPUT_BYTES - size) {
            Some(AppError::ImageBatchTooLarge)
        } else if !supports_extension(kind, input.extension.as_str()) {
            Some(AppError::UnsupportedFormat)
        } else {
            None
        };
        match fault {
            Some(error) => {
                proof {
                    lemma_inputs_fault(kind, merge, limits, inputs@, i + 1, count);
                }
                return Err(error);
            },
            None => {},
        }
        if merge {
            batch = batch + size;
        }
        i += 1;
    }
    Ok(())
}

fn validate_options(kind: ConversionKind, options: &ConversionOptions) -> (r: Result<
    (),
    AppError,
>)
    ensures
        refused(r, options_fault(kind, *options)),
{
    if kind == ConversionKind::PdfToImage {
        match options.dpi {
            Some(dpi) => {
                if dpi != 150 && dpi != 200 && dpi != 300 {
                    return Err(AppError::InvalidDpi);
                }
            },
            None => {},
        }
        match options.jpg_quality {
            Some(quality) => {
                if quality < 1 || quality > 100 {
                    return Err(AppError::InvalidJpgQuality);
                }
            },
            None => {},
        }
    }
    match &options.pages {
        None => Ok(()),
        Some(pages) => {
            if is_all_pages(pages.as_str()) {
                return Ok(());
            }
            let whole = kind == ConversionKind::HtmlToPdf || kind == ConversionKind::MarkdownToPdf
                || kind == ConversionKind::PdfToPptx || kind == ConversionKind::PdfToPpt;
            if whole || !valid_pages(pages.as_str()) {
                return Err(AppError::InvalidPages);
            }
            Ok(())
        },
    }
}

/// Refuses a request that cannot be carried out.
pub fn validate_request(
    kind: ConversionKind,
    options: &ConversionOptions,
    inputs: &Vec<InputFile>,
    limits: EngineLimits,
    platform: Platform,
) -> (r: Result<(), AppError>)
    ensures
        refused(r, request_fault(kind, *options, inputs@, limits, platform)),
{
    if inputs.len() == 0 {
        return Err(AppError::NoInputs);
    }
    if options.merge_images && kind != ConversionKind::ImageToPdf {
        return Err(AppError::UnsupportedFormat);
    }
    if options.merge_images && inputs.len() > MAX_IMAGES {
        return Err(AppError::ImageBatchTooLarge);
    }
    match validate_inputs(kind, options.merge_images, inputs, limits) {
        Err(error) => {
            return Err(error);
        },
        Ok(()) => {},
    }
    match validate_options(kind, options) {
        Err(error) => {
            return Err(error);
        },
        Ok(()) => {},
    }
    let ghost count = inputs@.len() as int;
    let mut i: usize = 0;
    while i < inputs.len()
        invariant
            i <= inputs@.len(),
            count == inputs@.len(),
            outputs_fault(inputs@, platform, i as int) is None,
            request_fault(kind, *options, inputs@, limits, platform) == outputs_fault(
                inputs@,
                platform,
                count,
            ),
        decreases inputs@.len() - i,
    {
        let dir = &inputs[i].output;
        let fault = if !dir.named {
            Err(AppError::OutputDirNotFound)
        } else {
            validate_output_dir(dir, platform)
        };
        match fault {
            Err(error) => {
                proof {
                    lemma_outputs_fault(inputs@, platform, i + 1, count);
                }
                return Err(error);
            },
            Ok(()) => {},
        }
        i += 1;
    }
    Ok(())
}

/// What inspecting a chosen file reports.
#[derive(Debug)]
pub struct InputFileInfo {
    pub path: String,
    pub name: String,
    pub size: u64,
}

/// What is found out about a chosen file: its path without links and dots, and
/// its name, if there are such.
#[derive(Debug)]
pub struct ChosenFile {
    pub absolute: bool,
    pub regular: bool,
    pub size: u64,
    pub canonical: Option<String>,
    pub name: Option<String>,
}

/// What is wrong with a chosen file.
pub open spec fn chosen_fault(file: ChosenFile) -> Option<AppError> {
    if !file.absolute {
        Some(AppError::InputPathRequired)
    } else if !file.regular {
        Some(AppError::InputNotFound)
    } else if file.size > MAX_INPUT_BYTES {
        Some(AppError::InputTooLarge)
    } else {
        match (file.canonical, file.name) {
            (Some(_), Some(name)) => if name@.len() > 0 {
                None
            } else {
                Some(AppError::InputNotFound)
            },
            _ => Some(AppError::InputNotFound),
        }
    }
}

/// Reports a chosen file, or refuses it.
pub fn inspect_input_file(file: ChosenFile) -> (r: Result<InputFileInfo, AppError>)
    ensures
        match chosen_fault(file) {
            Some(error) => r is Err && r->Err_0 == error,
            None => r is Ok && r->Ok_0.path@ == file.canonical->0@ && r->Ok_0.name@
                == file.name->0@ && r->Ok_0.size == file.size,
        },
{
    if !file.absolute {
        return Err(AppError::InputPathRequired);
    }
    if !file.regular {
        return Err(AppError::InputNotFound);
    }
    if file.size > MAX_INPUT_BYTES {
        return Err(AppError::InputTooLarge);
    }
    match (file.canonical, file.name) {
        (Some(path), Some(name)) => {
            if chars_of(name.as_str()).len() == 0 {
                return Err(AppError::InputNotFound);
            }
            Ok(InputFileInfo { path, name, size: file.size })
        },
        _ => Err(AppError::InputNotFound),
    }
}

/// The first and last page of a part that is valid.
pub open spec fn range_in(part: Seq<char>) -> Option<(int, int)> {
    let pieces = text::split_from(text::trimmed(part), '-', 0);
    if !valid_part(part) {
        None
    } else if pieces.len() == 1 {
        Some((page_in(pieces[0])->0, page_in(pieces[0])->0))
    } else {
        Some((page_in(pieces[0])->0, page_in(pieces[1])->0))
    }
}

/// A part names a page.
pub open spec fn names(part: Seq<char>, page: usize) -> bool {
    match range_in(part) {
        None => false,
        Some((first, last)) => first <= page <= last,
    }
}

/// The pages that a list of pages and ranges names.
pub open spec fn named_pages(value: Seq<char>) -> Set<usize> {
    let parts = text::split_from(value, ',', 0);
    Set::new(|page: usize| exists|i: int| 0 <= i < parts.len() && names(#[trigger] parts[i], page))
}

proof fn lemma_split_twice(s: Seq<char>)
    ensures
        ({
            let dash = text::index_of(s, '-', 0);
            let pieces = text::split_from(s, '-', 0);
            &&& 0 <= dash <= s.len()
            &&& dash == s.len() ==> pieces == seq![s]
            &&& dash < s.len() ==> pieces[0] == s.take(dash) && pieces.len() >= 2
            &&& dash < s.len() && text::index_of(s, '-', dash + 1) >= s.len() ==> pieces.len() == 2
                && pieces[1] == s.skip(dash + 1)
            &&& dash < s.len() && text::index_of(s, '-', dash + 1) < s.len() ==> pieces.len() > 2
        }),
{
    text::lemma_index_of(s, '-', 0);
    let dash = text::index_of(s, '-', 0);
    let pieces = text::split_from(s, '-', 0);
    assert(s.subrange(0, s.len() as int) =~= s);
    if dash < s.len() {
        text::lemma_index_of(s, '-', dash + 1);
        let next = text::index_of(s, '-', dash + 1);
        let rest = text::split_from(s, '-', dash + 1);
        assert(s.subrange(0, dash) =~= s.take(dash));
        assert(pieces =~= seq![s.take(dash)] + rest);
        assert(pieces[1] == rest[0]);
        if next >= s.len() {
            assert(s.subrange(dash + 1, s.len() as int) =~= s.skip(dash + 1));
            assert(rest =~= seq![s.skip(dash + 1)]);
        } else {
            let more = text::split_from(s, '-', next + 1);
            assert(more.len() > 0);
            assert(rest.len() == 1 + more.len());
        }
    }
}

/// A valid part is read as a range, unless it has too many pages.
proof fn lemma_valid_part(part: Seq<char>)
    requires
        valid_part(part),
    ensures
        range_in(part) matches Some((first, last)) && 0 < first <= last <= u32::MAX
            && selection::part_range(part) == if last - first < selection::MAX_SELECTED_PAGES {
            Some((first as usize, last as usize))
        } else {
            None
        },
{
    let s = text::trimmed(part);
    let dash = text::index_of(s, '-', 0);
    let pieces = text::split_from(s, '-', 0);
    lemma_split_twice(s);
    selection_parts::lemma_number_is_trimmed(pieces[0]);
    if pieces.len() == 1 {
        assert(s.take(dash) =~= s);
    } else {
        selection_parts::lemma_number_is_trimmed(pieces[1]);
    }
}

proof fn lemma_valid_is_not_all(value: Seq<char>)
    requires
        valid_pages_spec(value),
    ensures
        !selection::asks_for_all(value),
{
    if selection::asks_for_all(value) {
        reveal_strlit("all");
        reveal_strlit("全部");
        selection_parts::lemma_all_is_one_part(value);
        let parts = text::split_from(value, ',', 0);
        assert(valid_part(parts[0]));
        let t = text::trimmed(value);
        if text::lowered(t) == "all"@ {
            assert(text::lowered(t)[0] == 'a' && text::lowered(t)[1] == 'l' && text::lowered(t)[2]
                == 'l');
            assert(text::lower(t[0]) == 'a' && text::lower(t[1]) == 'l' && text::lower(t[2])
                == 'l');
        }
        assert(t.len() >= 2);
        assert(!selection::is_digit(t[1]));
        assert forall|k: int| 0 <= k < t.len() implies #[trigger] t[k] != '-' by {}
        lemma_split_twice(t);
        let dash = text::index_of(t, '-', 0);
        text::lemma_index_of(t, '-', 0);
        assert(dash == t.len());
        let digits = selection::unsigned_digits(t);
        assert(page_in(t) is Some);
        if t[0] == '+' {
            assert(digits[0] == t[1]);
        } else {
            assert(digits[1] == t[1]);
        }
        assert(false);
    }
}

/// A list of pages and ranges that is valid is read as a selection of the pages
/// that it names, unless these are more than may be selected.
pub proof fn law_valid_pages_are_selected(value: Seq<char>)
    requires
        valid_pages_spec(value),
    ensures
        named_pages(value).finite(),
        selection::wanted(Some(value)) == if named_pages(value).len()
            <= selection::MAX_SELECTED_PAGES {
            Some(selection::Wanted::Pages(named_pages(value)))
        } else {
            None
        },
{
    let parts = text::split_from(value, ',', 0);
    let named = named_pages(value);
    lemma_valid_is_not_all(value);
    selection_parts::lemma_selected_is_summed(value, 0, Set::empty());
    selection_parts::lemma_range(0, u32::MAX as int);
    let bound = selection::page_range(0, u32::MAX as int);
    assert forall|page: usize| named.contains(page) implies bound.contains(page) by {
        let i = choose|i: int| 0 <= i < parts.len() && names(#[trigger] parts[i], page);
        lemma_valid_part(parts[i]);
    }
    vstd::set_lib::lemma_len_subset(named, bound);
    if selection_parts::are_readable(parts) {
        assert forall|page: usize| named.contains(page) <==> selection_parts::covered(
            parts,
        ).contains(page) by {
            if named.contains(page) {
                let i = choose|i: int| 0 <= i < parts.len() && names(#[trigger] parts[i], page);
                lemma_valid_part(parts[i]);
                assert(selection_parts::covers(parts[i], page));
            }
            if selection_parts::covered(parts).contains(page) {
                let i = choose|i: int|
                    0 <= i < parts.len() && selection_parts::covers(#[trigger] parts[i], page);
                lemma_valid_part(parts[i]);
                assert(names(parts[i], page));
            }
        }
        assert(named =~= selection_parts::covered(parts));
        assert(Set::empty().union(named) =~= named);
    } else {
        let i = choose|i: int|
            0 <= i < parts.len() && selection::part_range(#[trigger] parts[i]) is None;
        lemma_valid_part(parts[i]);
        let (first, last) = range_in(parts[i])->0;
        let range = selection::page_range(first, last);
        selection_parts::lemma_range(first, last);
        assert forall|page: usize| range.contains(page) implies named.contains(page) by {
            assert(names(parts[i], page));
        }
        vstd::set_lib::lemma_len_subset(range, named);
    }
}

} // verus!
