//! What the program says of its own state.

use vstd::prelude::*;

use crate::docx;
use crate::docx::{extract_text_from_path, write_text_docx};
use crate::pdf::extract;
use crate::pdf::extract::extract_text;
use crate::pdf::selection::{PageSelection, Wanted, MAX_PAGES};
use crate::pdf_writer;
use crate::pdf_writer::write_text_pdf;
use crate::render::image_format::ImageFormat;
use crate::render::run;
use crate::render::run::{render_pdf, RenderOptions};
use crate::text;
use crate::zip_store;

verus! {

/// What was found out about the program.
#[derive(Debug, Clone, Copy)]
pub struct Findings {
    /// Its files are there.
    pub manifest: bool,
    /// Its temporary directory can be written.
    pub filesystem: bool,
    /// Its engines work.
    pub engine: bool,
    /// An office suite is there.
    pub office: bool,
}

/// One thing that was checked.
#[derive(Debug, Clone, Copy)]
pub struct SelfCheckItem {
    pub id: &'static str,
    pub status: &'static str,
    pub message: &'static str,
}

/// The state of the program.
#[derive(Debug)]
pub struct SelfCheck {
    pub status: &'static str,
    pub checks: Vec<SelfCheckItem>,
}

/// The name of a check, whether it passed, and what is told of it.
pub open spec fn items(found: Findings) -> Seq<(Seq<char>, bool, Seq<char>)> {
    seq![
        (
            "app_manifest"@,
            found.manifest,
            if found.manifest {
                "Application files are present"@
            } else {
                "Application files could not be located"@
            },
        ),
        (
            "worker_runtime"@,
            found.engine,
            if found.engine {
                "Embedded conversion worker is available"@
            } else {
                "Embedded conversion worker self-check failed"@
            },
        ),
        (
            "pdf_engines"@,
            found.engine,
            if found.engine {
                "PDF text, image, and document engines are available"@
            } else {
                "PDF text, image, or document engine self-check failed"@
            },
        ),
        (
            "office_runtime"@,
            found.office,
            if found.office {
                "Office conversion is available; check the output layout"@
            } else {
                "Office conversion is unavailable; check or repair the installation"@
            },
        ),
        (
            "filesystem"@,
            found.filesystem,
            if found.filesystem {
                "Temporary directory is readable and writable"@
            } else {
                "Temporary directory is unavailable or not writable"@
            },
        ),
    ]
}

pub open spec fn status_of(passed: bool) -> Seq<char> {
    if passed {
        "passed"@
    } else {
        "failed"@
    }
}

/// `item` tells what `expected` says.
pub open spec fn reports(item: SelfCheckItem, expected: (Seq<char>, bool, Seq<char>)) -> bool {
    item.id@ == expected.0 && item.status@ == status_of(expected.1) && item.message@ == expected.2
}

fn item(id: &'static str, passed: bool, good: &'static str, bad: &'static str) -> (r:
    SelfCheckItem)
    ensures
        reports(
            r,
            (
                id@,
                passed,
                if passed {
                    good@
                } else {
                    bad@
                },
            ),
        ),
{
    if passed {
        SelfCheckItem { id, status: "passed", message: good }
    } else {
        SelfCheckItem { id, status: "failed", message: bad }
    }
}

/// The state of the program: ready only if every check passed.
pub fn build_self_check(found: Findings) -> (r: SelfCheck)
    ensures
        r.status@ == if found.manifest && found.filesystem && found.engine && found.office {
            "ready"@
        } else {
            "repairable"@
        },
        r.checks@.len() == items(found).len(),
        forall|i: int|
            0 <= i < items(found).len() ==> reports(#[trigger] r.checks@[i], items(found)[i]),
{
    let status = if found.manifest && found.filesystem && found.engine && found.office {
        "ready"
    } else {
        "repairable"
    };
    let mut checks: Vec<SelfCheckItem> = Vec::new();
    checks.push(
        item(
            "app_manifest",
            found.manifest,
            "Application files are present",
            "Application files could not be located",
        ),
    );
    checks.push(
        item(
            "worker_runtime",
            found.engine,
            "Embedded conversion worker is available",
            "Embedded conversion worker self-check failed",
        ),
    );
    checks.push(
        item(
            "pdf_engines",
            found.engine,
            "PDF text, image, and document engines are available",
            "PDF text, image, or document engine self-check failed",
        ),
    );
    checks.push(
        item(
            "office_runtime",
            found.office,
            "Office conversion is available; check the output layout",
            "Office conversion is unavailable; check or repair the installation",
        ),
    );
    checks.push(
        item(
            "filesystem",
            found.filesystem,
            "Temporary directory is readable and writable",
            "Temporary directory is unavailable or not writable",
        ),
    );
    SelfCheck { status, checks }
}

/// What the engines are tried with.
pub const PROBE: &'static str = "self check";

/// The text of a file holds the probe.
pub open spec fn text_is_found(file: Seq<u8>) -> bool {
    match extract::text_of(file, Wanted::All) {
        Ok(found) => text::holds(extract::joined(found.pages), PROBE@),
        Err(_) => false,
    }
}

/// Whether the text of a file holds the probe.
pub fn probe_text(file: &[u8]) -> (r: bool)
    ensures
        r == text_is_found(file@),
{
    match extract_text(file, &PageSelection::All) {
        Ok(found) => text::contains(found.text.as_str(), PROBE),
        Err(_) => false,
    }
}

/// The text of a document holds the probe.
pub open spec fn document_is_read(file: Seq<u8>) -> bool {
    match docx::document_pages(file) {
        Ok(pages) => text::holds(text::joined(pages, "\n"@, pages.len() as int), PROBE@),
        Err(_) => false,
    }
}

/// Whether the text of a document holds the probe.
pub fn probe_document(file: Vec<u8>) -> (r: bool)
    ensures
        r == document_is_read(file@),
{
    match extract_text_from_path(Ok(file)) {
        Ok(found) => text::contains(found.as_str(), PROBE),
        Err(_) => false,
    }
}

/// How the probe is rendered.
pub open spec fn is_probe_setting(options: RenderOptions) -> bool {
    &&& options.selection@ == Wanted::All
    &&& options.dpi == 150
    &&& options.format == ImageFormat::Png
    &&& options.jpg_quality == 85
    &&& options.max_selected_pages == MAX_PAGES
    &&& options.max_output_bytes == u64::MAX
}

/// A file is rendered to pages.
pub open spec fn pages_are_rendered(file: Vec<u8>, options: RenderOptions) -> bool {
    match run::pages_to_render(Ok(file), options) {
        Err(_) => false,
        Ok(pages) => match run::rendition(pages, options, "probe"@, pages.len() as int) {
            Err(_) => false,
            Ok((outputs, _)) => outputs.len() > 0,
        },
    }
}

/// Whether a file is rendered to pages.
pub fn probe_image(file: Vec<u8>) -> (r: bool)
    ensures
        exists|options: RenderOptions| #[trigger]
            is_probe_setting(options) && r == pages_are_rendered(file, options),
{
    let options = RenderOptions {
        selection: PageSelection::All,
        dpi: 150,
        format: ImageFormat::Png,
        jpg_quality: 85,
        max_selected_pages: MAX_PAGES,
        max_output_bytes: u64::MAX,
    };
    assert(is_probe_setting(options));
    let never = || -> (b: bool) ensures !b, { false };
    let silent = |_index: usize, _total: usize, _phase: &str| {};
    match render_pdf(Ok(file), "probe", &options, &never, silent) {
        Ok(result) => {
            assert(run::files(result.outputs@).len() == result.outputs@.len());
            result.outputs.len() > 0
        },
        Err(_) => false,
    }
}

/// Tries the engines for text, documents and images.
pub fn engine_probe_components() -> (r: (bool, bool, bool))
    ensures
        match pdf_writer::text_file(seq![PROBE@]) {
            None => !r.0 && !r.2,
            Some(file) => {
                &&& r.0 == text_is_found(file)
                &&& exists|copy: Vec<u8>, options: RenderOptions|
                    copy@ == file && #[trigger] is_probe_setting(options) && r.2
                        == #[trigger] pages_are_rendered(copy, options)
            },
        },
        ({
            let parts = docx::document_parts(seq![PROBE@]);
            r.1 == (docx::parts_fit(parts) && document_is_read(zip_store::package_of(parts)))
        }),
{
    let (text_ok, image_ok) = match write_text_pdf(PROBE) {
        Err(_) => (false, false),
        Ok(file) => (probe_text(file.as_slice()), probe_image(file)),
    };
    let mut pages: Vec<String> = Vec::new();
    pages.push(PROBE.to_owned());
    assert(text::strings(pages@) =~= seq![PROBE@]);
    let docx_ok = match write_text_docx(&pages) {
        Err(_) => false,
        Ok(file) => probe_document(file),
    };
    (text_ok, docx_ok, image_ok)
}

/// What `ring::digest::digest` with SHA-256 makes of data.
pub uninterp spec fn sha256_of(data: Seq<u8>) -> Seq<u8>;

/// Calls `ring::digest::digest` with `ring::digest::SHA256`, which gives 32 bytes.
#[verifier::external_body]
fn sha256(data: &[u8]) -> (r: Vec<u8>)
    ensures
        r@ == sha256_of(data@),
        r@.len() == 32,
{
    ring::digest::digest(&ring::digest::SHA256, data).as_ref().to_vec()
}

/// A digit of a hexadecimal number in small letters.
pub open spec fn small_digit(n: int) -> char {
    if n < 10 {
        (48 + n) as u8 as char
    } else {
        (87 + n) as u8 as char
    }
}

/// The value of a digit.
pub open spec fn digit_value(c: char) -> int {
    if c <= '9' {
        c as int - 48
    } else {
        c as int - 87
    }
}

/// The first `n` bytes in hexadecimal digits, two for each.
pub open spec fn hexadecimal(b: Seq<u8>, n: int) -> Seq<char>
    decreases n,
{
    if n <= 0 {
        Seq::empty()
    } else {
        hexadecimal(b, n - 1) + seq![
            small_digit(b[n - 1] as int / 16),
            small_digit(b[n - 1] as int % 16),
        ]
    }
}

/// The digits tell every byte.
pub proof fn law_digits_tell_the_bytes(b: Seq<u8>, n: int, i: int)
    requires
        0 <= i < n <= b.len(),
    ensures
        hexadecimal(b, n).len() == 2 * n,
        b[i] == 16 * digit_value(hexadecimal(b, n)[2 * i]) + digit_value(
            hexadecimal(b, n)[2 * i + 1],
        ),
    decreases n,
{
    lemma_length(b, n - 1);
    if i < n - 1 {
        law_digits_tell_the_bytes(b, n - 1, i);
        assert(hexadecimal(b, n)[2 * i] == hexadecimal(b, n - 1)[2 * i]);
        assert(hexadecimal(b, n)[2 * i + 1] == hexadecimal(b, n - 1)[2 * i + 1]);
    }
}

proof fn lemma_length(b: Seq<u8>, n: int)
    requires
        n >= 0,
    ensures
        hexadecimal(b, n).len() == 2 * n,
    decreases n,
{
    if n > 0 {
        lemma_length(b, n - 1);
    }
}

fn digit(n: u8) -> (r: char)
    requires
        n < 16,
    ensures
        r == small_digit(n as int),
{
    if n < 10 {
        (48 + n) as char
    } else {
        (87 + n) as char
    }
}

/// Bytes in hexadecimal digits.
pub fn to_hexadecimal(b: &[u8]) -> (r: String)
    ensures
        r@ == hexadecimal(b@, b@.len() as int),
{
    let mut out = String::new();
    let mut i: usize = 0;
    while i < b.len()
        invariant
            i <= b@.len(),
            out@ == hexadecimal(b@, i as int),
        decreases b@.len() - i,
    {
        let ghost before = out@;
        out.push(digit(b[i] / 16));
        out.push(digit(b[i] % 16));
        i += 1;
        assert(out@ =~= hexadecimal(b@, i as int));
    }
    out
}

/// The SHA-256 digest of data in hexadecimal digits.
pub fn sha256_hex(data: &[u8]) -> (r: String)
    ensures
        r@ == hexadecimal(sha256_of(data@), 32),
{
    let digest = sha256(data);
    to_hexadecimal(digest.as_slice())
}

/// What is known of a part of the program.
#[derive(Debug)]
pub struct DiagnosticComponent {
    pub id: &'static str,
    pub sha256: Option<String>,
    pub status: &'static str,
}

/// What is told of a part of the program whose file could be read, or not.
pub fn diagnostic_component(id: &'static str, file: Option<Vec<u8>>) -> (r: DiagnosticComponent)
    ensures
        r.id@ == id@,
        match file {
            Some(bytes) => r.status@ == "passed"@ && r.sha256 is Some && r.sha256->0@
                == hexadecimal(sha256_of(bytes@), 32),
            None => r.status@ == "unavailable"@ && r.sha256 is None,
        },
{
    match file {
        Some(bytes) => DiagnosticComponent {
            id,
            sha256: Some(sha256_hex(bytes.as_slice())),
            status: "passed",
        },
        None => DiagnosticComponent { id, sha256: None, status: "unavailable" },
    }
}

} // verus!
